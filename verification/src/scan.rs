//! Scanning primitives shared by the decoder: finding the CRLF terminator
//! of a line, reading decimal digit runs, and parsing bounded numbers.

use vstd::prelude::*;
use crate::model::{
    CR, LF, BYTE_PLUS, BYTE_MINUS, BYTE_ZERO, BYTE_DOT, BYTE_LOWER_E, BYTE_UPPER_E,
    is_line_byte, is_digit, all_digits, is_digit_run, digits_val, digit_run, line_run, strip_sign,
    exp_tail_ok, double_lex,
};

verus! {

/// What scanning a buffer suffix for one CRLF-terminated line yields:
/// the line's content and the bytes consumed, or not-enough-bytes, or a
/// stray CR or LF that no continuation could mend.
pub enum LineScan {
    Found(Seq<u8>, int),
    Partial,
    Broken,
}

/// Scan the front of `s` for a line: content bytes, then CR LF.  A bare LF,
/// or a CR followed by anything else, is `Broken`; running out of bytes
/// before the LF is `Partial`.
pub open spec fn scan_line(s: Seq<u8>) -> LineScan {
    let k = line_run(s) as int;
    if k == s.len() {
        LineScan::Partial
    } else if s[k] == LF {
        LineScan::Broken
    } else if k + 1 == s.len() {
        LineScan::Partial
    } else if s[k + 1] == LF {
        LineScan::Found(s.take(k), k + 2)
    } else {
        LineScan::Broken
    }
}

/// `line_run` names the first index at which a CR or LF stands.
pub proof fn lemma_line_run_props(s: Seq<u8>)
    ensures
        line_run(s) <= s.len(),
        forall|j: int| 0 <= j < line_run(s) ==> is_line_byte(#[trigger] s[j]),
        line_run(s) < s.len() ==> !is_line_byte(s[line_run(s) as int]),
    decreases s.len(),
{
    if s.len() > 0 && is_line_byte(s[0]) {
        lemma_line_run_props(s.drop_first());
        assert forall|j: int| 0 <= j < line_run(s) implies is_line_byte(#[trigger] s[j]) by {
            if j > 0 {
                assert(s[j] == s.drop_first()[j - 1]);
            }
        }
    }
}

/// `digit_run` names the first index at which a non-digit stands.
pub proof fn lemma_digit_run_props(s: Seq<u8>)
    ensures
        digit_run(s) <= s.len(),
        forall|j: int| 0 <= j < digit_run(s) ==> is_digit(#[trigger] s[j]),
        digit_run(s) < s.len() ==> !is_digit(s[digit_run(s) as int]),
    decreases s.len(),
{
    if s.len() > 0 && is_digit(s[0]) {
        lemma_digit_run_props(s.drop_first());
        assert forall|j: int| 0 <= j < digit_run(s) implies is_digit(#[trigger] s[j]) by {
            if j > 0 {
                assert(s[j] == s.drop_first()[j - 1]);
            }
        }
    }
}

/// A digit prefix never exceeds the whole sequence's value.
pub proof fn lemma_digits_val_take_le(s: Seq<u8>, i: int)
    requires
        0 <= i <= s.len(),
    ensures
        digits_val(s.take(i)) <= digits_val(s),
    decreases s.len(),
{
    if i < s.len() {
        lemma_digits_val_take_le(s.drop_last(), i);
        assert(s.take(i) =~= s.drop_last().take(i));
    } else {
        assert(s.take(i) =~= s);
    }
}

/// Reading one more digit multiplies the prefix value by ten and adds it.
pub proof fn lemma_digits_val_take_step(s: Seq<u8>, i: int)
    requires
        0 <= i < s.len(),
    ensures
        s[i] >= BYTE_ZERO ==> digits_val(s.take(i + 1)) == digits_val(s.take(i)) * 10 + (s[i]
            - BYTE_ZERO) as nat,
{
    assert(s.take(i + 1).drop_last() =~= s.take(i));
    assert(s.take(i + 1).last() == s[i]);
}

/// Scan for the CRLF terminator of the line starting at `pos`.
pub enum ScanLineRes {
    Found(usize),
    Partial,
    Broken,
}

pub(crate) fn scan_line_at(data: &[u8], pos: usize) -> (r: ScanLineRes)
    requires
        pos <= data@.len(),
    ensures
        match r {
            ScanLineRes::Found(end) => pos <= end && end + 2 <= data@.len() && scan_line(
                data@.skip(pos as int),
            ) == LineScan::Found(data@.subrange(pos as int, end as int), end + 2 - pos),
            ScanLineRes::Partial => scan_line(data@.skip(pos as int)) == LineScan::Partial,
            ScanLineRes::Broken => scan_line(data@.skip(pos as int)) == LineScan::Broken,
        },
{
    let ghost s = data@.skip(pos as int);
    let n: usize = data.len();
    let mut i: usize = pos;
    while i < n && data[i] != CR && data[i] != LF
        invariant
            pos <= i <= n,
            n == data@.len(),
            forall|j: int| pos <= j < i ==> is_line_byte(#[trigger] data@[j]),
        decreases n - i,
    {
        i = i + 1;
    }
    proof {
        lemma_line_run_props(s);
        assert forall|j: int| 0 <= j < i - pos implies is_line_byte(#[trigger] s[j]) by {
            assert(s[j] == data@[pos + j]);
        }
        if i < n {
            assert(s[i - pos] == data@[i as int]);
        }
        // the loop stopped at the first CR or LF, which pins line_run
        assert(line_run(s) == i - pos) by {
            if line_run(s) < i - pos {
                assert(is_line_byte(s[line_run(s) as int]));
            }
            if line_run(s) > i - pos {
                assert(is_line_byte(s[i - pos]));
            }
        }
    }
    if i == n {
        return ScanLineRes::Partial;
    }
    if data[i] == LF {
        proof {
            assert(s[i - pos] == data@[i as int]);
        }
        return ScanLineRes::Broken;
    }
    if i + 1 == n {
        return ScanLineRes::Partial;
    }
    proof {
        assert(s[i + 1 - pos] == data@[i + 1]);
    }
    if data[i + 1] == LF {
        proof {
            assert(s.take(i - pos) =~= data@.subrange(pos as int, i as int));
        }
        ScanLineRes::Found(i)
    } else {
        ScanLineRes::Broken
    }
}

/// How many decimal digits stand at `from`, stopping at `to`.
pub(crate) fn digit_run_at(data: &[u8], from: usize, to: usize) -> (r: usize)
    requires
        from <= to <= data@.len(),
    ensures
        r == digit_run(data@.subrange(from as int, to as int)),
        from + r <= to,
{
    let ghost s = data@.subrange(from as int, to as int);
    let mut i: usize = from;
    while i < to && data[i] >= BYTE_ZERO && data[i] <= crate::model::BYTE_NINE
        invariant
            from <= i <= to <= data@.len(),
            forall|j: int| from <= j < i ==> is_digit(#[trigger] data@[j]),
        decreases to - i,
    {
        i = i + 1;
    }
    proof {
        lemma_digit_run_props(s);
        assert forall|j: int| 0 <= j < i - from implies is_digit(#[trigger] s[j]) by {
            assert(s[j] == data@[from + j]);
        }
        if i < to {
            assert(s[i - from] == data@[i as int]);
        }
        assert(digit_run(s) == i - from) by {
            if digit_run(s) < i - from {
                assert(is_digit(s[digit_run(s) as int]));
            }
            if digit_run(s) > i - from {
                assert(is_digit(s[i - from]));
            }
        }
    }
    i - from
}

/// Fold the digits in `[from, to)` into a number, refusing one beyond `cap`.
pub(crate) fn parse_digits_capped(data: &[u8], from: usize, to: usize, cap: u64) -> (r: Option<
    u64,
>)
    requires
        from <= to <= data@.len(),
        all_digits(data@.subrange(from as int, to as int)),
        cap >= 9,
    ensures
        ({
            let c = data@.subrange(from as int, to as int);
            if digits_val(c) <= cap {
                r == Some(digits_val(c) as u64)
            } else {
                r == None::<u64>
            }
        }),
{
    let ghost c = data@.subrange(from as int, to as int);
    let mut acc: u64 = 0;
    let mut i: usize = from;
    proof {
        assert(c.take(0) =~= Seq::<u8>::empty());
    }
    while i < to
        invariant
            from <= i <= to <= data@.len(),
            c == data@.subrange(from as int, to as int),
            all_digits(c),
            acc == digits_val(c.take(i - from)),
            acc <= cap,
            cap >= 9,
        decreases to - i,
    {
        proof {
            assert(c[i - from] == data@[i as int]);
            assert(is_digit(c[i - from]));
            lemma_digits_val_take_step(c, i - from);
        }
        let d: u64 = (data[i] - BYTE_ZERO) as u64;
        if acc > (cap - d) / 10 {
            proof {
                assert(acc * 10 + d > cap) by (nonlinear_arith)
                    requires
                        acc > (cap - d) / 10,
                        d <= cap,
                        acc >= 0,
                ;
                lemma_digits_val_take_le(c, i + 1 - from);
            }
            return None;
        }
        proof {
            assert(acc * 10 + d <= cap) by (nonlinear_arith)
                requires
                    acc <= (cap - d) / 10,
                    d <= cap,
                    acc >= 0,
            ;
        }
        acc = acc * 10 + d;
        i = i + 1;
    }
    proof {
        assert(c.take(to - from) =~= c);
    }
    Some(acc)
}

/// The signed 64-bit value an integer line's content denotes: an optional
/// explicit sign, then digits; anything else, or a value outside the
/// 64-bit range, denotes nothing.
pub open spec fn int_ok(c: Seq<u8>) -> Option<int> {
    let m = strip_sign(c);
    if !is_digit_run(m) {
        None
    } else {
        let v = digits_val(m) as int;
        let sv: int = if c.len() > 0 && c[0] == BYTE_MINUS {
            -v
        } else {
            v
        };
        if i64::MIN <= sv <= i64::MAX {
            Some(sv)
        } else {
            None
        }
    }
}

/// One past the magnitude of the most negative 64-bit integer.
pub const I64_MAG_CAP: u64 = 9223372036854775808;

/// Parse the integer line content in `[from, to)`.
pub(crate) fn parse_int_at(data: &[u8], from: usize, to: usize) -> (r: Option<i64>)
    requires
        from <= to <= data@.len(),
    ensures
        ({
            let c = data@.subrange(from as int, to as int);
            match int_ok(c) {
                Some(v) => r matches Some(x) && x == v,
                None => r is None,
            }
        }),
{
    let ghost c = data@.subrange(from as int, to as int);
    let mut p: usize = from;
    let mut neg: bool = false;
    if p < to && (data[p] == BYTE_PLUS || data[p] == BYTE_MINUS) {
        proof {
            assert(c[0] == data@[from as int]);
        }
        neg = data[p] == BYTE_MINUS;
        p = p + 1;
    }
    proof {
        assert(data@.subrange(p as int, to as int) =~= strip_sign(c));
    }
    let run: usize = digit_run_at(data, p, to);
    if run == 0 || p + run != to {
        proof {
            let m = strip_sign(c);
            lemma_digit_run_props(m);
            if is_digit_run(m) {
                assert(digit_run(m) == m.len()) by {
                    if digit_run(m) < m.len() {
                        assert(is_digit(m[digit_run(m) as int]));
                    }
                }
            }
        }
        return None;
    }
    proof {
        let m = strip_sign(c);
        lemma_digit_run_props(m);
        assert(all_digits(m));
    }
    let mag: Option<u64> = parse_digits_capped(data, p, to, I64_MAG_CAP);
    match mag {
        None => None,
        Some(mg) => {
            if neg {
                if mg == I64_MAG_CAP {
                    Some(i64::MIN)
                } else {
                    Some(-(mg as i64))
                }
            } else {
                if mg == I64_MAG_CAP {
                    None
                } else {
                    Some(mg as i64)
                }
            }
        },
    }
}

/// Whether `[from, to)` holds an exponent tail: optional sign, then digits.
pub(crate) fn exp_tail_at(data: &[u8], from: usize, to: usize) -> (r: bool)
    requires
        from <= to <= data@.len(),
    ensures
        r == exp_tail_ok(data@.subrange(from as int, to as int)),
{
    let ghost c = data@.subrange(from as int, to as int);
    let mut p: usize = from;
    if p < to && (data[p] == BYTE_PLUS || data[p] == BYTE_MINUS) {
        proof {
            assert(c[0] == data@[from as int]);
        }
        p = p + 1;
    }
    proof {
        assert(data@.subrange(p as int, to as int) =~= strip_sign(c));
    }
    let run: usize = digit_run_at(data, p, to);
    proof {
        let m = strip_sign(c);
        lemma_digit_run_props(m);
        if is_digit_run(m) {
            assert(digit_run(m) == m.len()) by {
                if digit_run(m) < m.len() {
                    assert(is_digit(m[digit_run(m) as int]));
                }
            }
        }
    }
    run > 0 && p + run == to
}

/// Whether `[from, to)` holds the decimal or exponential text of a double.
pub(crate) fn double_check_at(data: &[u8], from: usize, to: usize) -> (r: bool)
    requires
        from <= to <= data@.len(),
    ensures
        r == double_lex(data@.subrange(from as int, to as int)),
{
    let ghost c = data@.subrange(from as int, to as int);
    let mut p: usize = from;
    if p < to && (data[p] == BYTE_PLUS || data[p] == BYTE_MINUS) {
        proof {
            assert(c[0] == data@[from as int]);
        }
        p = p + 1;
    }
    let ghost m = strip_sign(c);
    proof {
        assert(data@.subrange(p as int, to as int) =~= m);
    }
    let n1: usize = digit_run_at(data, p, to);
    if n1 == 0 {
        return false;
    }
    let q: usize = p + n1;
    let ghost rest = m.skip(n1 as int);
    proof {
        assert(data@.subrange(q as int, to as int) =~= rest);
    }
    if q == to {
        return true;
    }
    proof {
        assert(rest[0] == data@[q as int]);
    }
    if data[q] == BYTE_DOT {
        let f: usize = q + 1;
        let ghost frac = rest.drop_first();
        proof {
            assert(data@.subrange(f as int, to as int) =~= frac);
        }
        let n2: usize = digit_run_at(data, f, to);
        if n2 == 0 {
            return false;
        }
        let g: usize = f + n2;
        if g == to {
            return true;
        }
        proof {
            assert(frac[n2 as int] == data@[g as int]);
            assert(data@.subrange(g + 1, to as int) =~= frac.skip(n2 as int + 1));
        }
        if data[g] == BYTE_LOWER_E || data[g] == BYTE_UPPER_E {
            exp_tail_at(data, g + 1, to)
        } else {
            false
        }
    } else if data[q] == BYTE_LOWER_E || data[q] == BYTE_UPPER_E {
        proof {
            assert(data@.subrange(q + 1, to as int) =~= rest.drop_first());
        }
        exp_tail_at(data, q + 1, to)
    } else {
        false
    }
}

} // verus!
