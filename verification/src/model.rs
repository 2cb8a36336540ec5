//! The mathematical model of a RESP frame: the ghost value a frame denotes,
//! the byte predicates of the wire grammar, the total order on frames, and
//! the well-formedness condition that the codec's laws quantify over.

use vstd::prelude::*;

verus! {

// Wire bytes, by name.
pub const CR: u8 = 13;
pub const LF: u8 = 10;
pub const TAG_SIMPLE: u8 = 43; // '+'
pub const TAG_ERROR: u8 = 45; // '-'
pub const TAG_INTEGER: u8 = 58; // ':'
pub const TAG_BULK: u8 = 36; // '$'
pub const TAG_ARRAY: u8 = 42; // '*'
pub const TAG_NULL: u8 = 95; // '_'
pub const TAG_BOOLEAN: u8 = 35; // '#'
pub const TAG_DOUBLE: u8 = 44; // ','
pub const TAG_BULK_ERROR: u8 = 33; // '!'
pub const TAG_MAP: u8 = 37; // '%'
pub const TAG_SET: u8 = 126; // '~'
pub const BYTE_PLUS: u8 = 43; // '+'
pub const BYTE_MINUS: u8 = 45; // '-'
pub const BYTE_DOT: u8 = 46; // '.'
pub const BYTE_ZERO: u8 = 48; // '0'
pub const BYTE_NINE: u8 = 57; // '9'
pub const BYTE_ONE: u8 = 49; // '1'
pub const BYTE_LOWER_E: u8 = 101; // 'e'
pub const BYTE_UPPER_E: u8 = 69; // 'E'
pub const BYTE_LOWER_T: u8 = 116; // 't'
pub const BYTE_LOWER_F: u8 = 102; // 'f'

/// Longest payload length and aggregate element count the decoder accepts.
pub const MAX_LEN: usize = 536870912;

/// Deepest aggregate nesting the decoder follows before giving up.
pub const MAX_DEPTH: u32 = 64;

/// The value a RESP frame denotes, one variant per wire shape.  Text and
/// binary payloads are byte sequences; a double is carried as its decimal
/// or exponential text between the tag and the terminator.
pub enum FrameV {
    SimpleString(Seq<u8>),
    SimpleError(Seq<u8>),
    Integer(int),
    BulkString(Seq<u8>),
    Array(Seq<FrameV>),
    Null,
    NullArray,
    NullBulkString,
    Boolean(bool),
    Double(Seq<u8>),
    BulkError(Seq<u8>),
    MapFrame(Seq<(Seq<u8>, FrameV)>),
    SetFrame(Seq<FrameV>),
}

/// A byte that may stand inside a CRLF-terminated line.
pub open spec fn is_line_byte(b: u8) -> bool {
    b != CR && b != LF
}

/// The whole sequence may stand inside a CRLF-terminated line.
pub open spec fn line_ok(s: Seq<u8>) -> bool {
    forall|i: int| 0 <= i < s.len() ==> is_line_byte(#[trigger] s[i])
}

pub open spec fn is_digit(b: u8) -> bool {
    BYTE_ZERO <= b <= BYTE_NINE
}

pub open spec fn all_digits(s: Seq<u8>) -> bool {
    forall|i: int| 0 <= i < s.len() ==> is_digit(#[trigger] s[i])
}

/// One or more decimal digits.
pub open spec fn is_digit_run(s: Seq<u8>) -> bool {
    s.len() > 0 && all_digits(s)
}

/// The numeric value of a digit sequence, most significant digit first.
pub open spec fn digits_val(s: Seq<u8>) -> nat
    decreases s.len(),
{
    if s.len() == 0 {
        0
    } else {
        digits_val(s.drop_last()) * 10 + (s.last() - BYTE_ZERO) as nat
    }
}

/// How many leading bytes of `s` are decimal digits.
pub open spec fn digit_run(s: Seq<u8>) -> nat
    decreases s.len(),
{
    if s.len() > 0 && is_digit(s[0]) {
        1 + digit_run(s.drop_first())
    } else {
        0
    }
}

/// How many leading bytes of `s` are neither CR nor LF.
pub open spec fn line_run(s: Seq<u8>) -> nat
    decreases s.len(),
{
    if s.len() > 0 && is_line_byte(s[0]) {
        1 + line_run(s.drop_first())
    } else {
        0
    }
}

/// `s` without one leading `+` or `-`, if it has one.
pub open spec fn strip_sign(s: Seq<u8>) -> Seq<u8> {
    if s.len() > 0 && (s[0] == BYTE_PLUS || s[0] == BYTE_MINUS) {
        s.drop_first()
    } else {
        s
    }
}

/// An exponent tail: optional sign, then one or more digits.
pub open spec fn exp_tail_ok(s: Seq<u8>) -> bool {
    is_digit_run(strip_sign(s))
}

/// What may follow the integral digits of a double: nothing, a fraction
/// (then optionally an exponent), or an exponent.
pub open spec fn double_rest_ok(s: Seq<u8>) -> bool {
    if s.len() == 0 {
        true
    } else if s[0] == BYTE_DOT {
        let frac = s.drop_first();
        let n: nat = digit_run(frac);
        n > 0 && (frac.len() == n || ((frac[n as int] == BYTE_LOWER_E || frac[n as int]
            == BYTE_UPPER_E) && exp_tail_ok(frac.skip(n as int + 1))))
    } else if s[0] == BYTE_LOWER_E || s[0] == BYTE_UPPER_E {
        exp_tail_ok(s.drop_first())
    } else {
        false
    }
}

/// The decimal or exponential text form of a double:
/// `[+|-] digits [. digits] [(e|E) [+|-] digits]`.
pub open spec fn double_lex(s: Seq<u8>) -> bool {
    let m = strip_sign(s);
    let n: nat = digit_run(m);
    n > 0 && double_rest_ok(m.skip(n as int))
}

/// Strict lexicographic order on byte sequences.
pub open spec fn bytes_cmp(a: Seq<u8>, b: Seq<u8>) -> int
    decreases a.len(),
{
    if a.len() == 0 && b.len() == 0 {
        0
    } else if a.len() == 0 {
        -1
    } else if b.len() == 0 {
        1
    } else if a[0] < b[0] {
        -1
    } else if a[0] > b[0] {
        1
    } else {
        bytes_cmp(a.drop_first(), b.drop_first())
    }
}

pub open spec fn bytes_lt(a: Seq<u8>, b: Seq<u8>) -> bool {
    bytes_cmp(a, b) == -1
}

/// The rank of a variant in the total order: declaration order.
pub open spec fn rank(f: FrameV) -> int {
    match f {
        FrameV::SimpleString(_) => 0,
        FrameV::SimpleError(_) => 1,
        FrameV::Integer(_) => 2,
        FrameV::BulkString(_) => 3,
        FrameV::Array(_) => 4,
        FrameV::Null => 5,
        FrameV::NullArray => 6,
        FrameV::NullBulkString => 7,
        FrameV::Boolean(_) => 8,
        FrameV::Double(_) => 9,
        FrameV::BulkError(_) => 10,
        FrameV::MapFrame(_) => 11,
        FrameV::SetFrame(_) => 12,
    }
}

/// Three-way total order on frames: variant rank first, then payload;
/// sequences element-wise, map entries by key and then value.
pub open spec fn frame_cmp(a: FrameV, b: FrameV) -> int
    decreases a, 0nat,
{
    if rank(a) < rank(b) {
        -1
    } else if rank(a) > rank(b) {
        1
    } else {
        match (a, b) {
            (FrameV::SimpleString(x), FrameV::SimpleString(y)) => bytes_cmp(x, y),
            (FrameV::SimpleError(x), FrameV::SimpleError(y)) => bytes_cmp(x, y),
            (FrameV::Integer(x), FrameV::Integer(y)) => if x < y {
                -1
            } else if x > y {
                1
            } else {
                0
            },
            (FrameV::BulkString(x), FrameV::BulkString(y)) => bytes_cmp(x, y),
            (FrameV::Array(x), FrameV::Array(y)) => frames_cmp(x, y),
            (FrameV::Boolean(x), FrameV::Boolean(y)) => if !x && y {
                -1
            } else if x && !y {
                1
            } else {
                0
            },
            (FrameV::Double(x), FrameV::Double(y)) => bytes_cmp(x, y),
            (FrameV::BulkError(x), FrameV::BulkError(y)) => bytes_cmp(x, y),
            (FrameV::MapFrame(x), FrameV::MapFrame(y)) => entries_cmp(x, y),
            (FrameV::SetFrame(x), FrameV::SetFrame(y)) => frames_cmp(x, y),
            _ => 0,
        }
    }
}

/// Lexicographic extension of `frame_cmp` to sequences of frames.
pub open spec fn frames_cmp(a: Seq<FrameV>, b: Seq<FrameV>) -> int
    decreases a, 1nat,
{
    if a.len() == 0 && b.len() == 0 {
        0
    } else if a.len() == 0 {
        -1
    } else if b.len() == 0 {
        1
    } else {
        let c = frame_cmp(a[0], b[0]);
        if c != 0 {
            c
        } else {
            frames_cmp(a.drop_first(), b.drop_first())
        }
    }
}

/// Lexicographic order on map entry lists: key first, then value.
pub open spec fn entries_cmp(a: Seq<(Seq<u8>, FrameV)>, b: Seq<(Seq<u8>, FrameV)>) -> int
    decreases a, 1nat,
{
    if a.len() == 0 && b.len() == 0 {
        0
    } else if a.len() == 0 {
        -1
    } else if b.len() == 0 {
        1
    } else {
        let ck = bytes_cmp(a[0].0, b[0].0);
        if ck != 0 {
            ck
        } else {
            let cv = frame_cmp(a[0].1, b[0].1);
            if cv != 0 {
                cv
            } else {
                entries_cmp(a.drop_first(), b.drop_first())
            }
        }
    }
}

pub open spec fn frame_lt(a: FrameV, b: FrameV) -> bool {
    frame_cmp(a, b) == -1
}

/// Map keys strictly ascend in byte order.
pub open spec fn keys_sorted(es: Seq<(Seq<u8>, FrameV)>) -> bool {
    forall|i: int| 0 <= i < es.len() - 1 ==> bytes_lt(#[trigger] es[i].0, es[i + 1].0)
}

/// Set elements strictly ascend in the frame order.
pub open spec fn elems_sorted(els: Seq<FrameV>) -> bool {
    forall|i: int| 0 <= i < els.len() - 1 ==> frame_lt(#[trigger] els[i], els[i + 1])
}

/// Well-formed at nesting budget `d`: payloads obey their variant's wire
/// grammar, declared lengths fit the decoder's limit, aggregates nest no
/// deeper than `d`, and containers are sorted and duplicate-free.
pub open spec fn wf_at(f: FrameV, d: nat) -> bool
    decreases f, 0nat,
{
    match f {
        FrameV::SimpleString(s) => line_ok(s),
        FrameV::SimpleError(s) => line_ok(s),
        FrameV::Integer(n) => i64::MIN <= n <= i64::MAX,
        FrameV::BulkString(p) => p.len() <= MAX_LEN,
        FrameV::Array(els) => d > 0 && els.len() <= MAX_LEN && wf_seq_at(els, (d - 1) as nat),
        FrameV::Null => true,
        FrameV::NullArray => true,
        FrameV::NullBulkString => true,
        FrameV::Boolean(_) => true,
        FrameV::Double(s) => double_lex(s) && line_ok(s),
        FrameV::BulkError(p) => p.len() <= MAX_LEN && vstd::utf8::valid_utf8(p),
        FrameV::MapFrame(es) => d > 0 && es.len() <= MAX_LEN && keys_sorted(es) && wf_entries_at(
            es,
            (d - 1) as nat,
        ),
        FrameV::SetFrame(els) => d > 0 && els.len() <= MAX_LEN && elems_sorted(els) && wf_seq_at(
            els,
            (d - 1) as nat,
        ),
    }
}

pub open spec fn wf_seq_at(els: Seq<FrameV>, d: nat) -> bool
    decreases els, 1nat,
{
    if els.len() == 0 {
        true
    } else {
        wf_at(els[0], d) && wf_seq_at(els.drop_first(), d)
    }
}

pub open spec fn wf_entries_at(es: Seq<(Seq<u8>, FrameV)>, d: nat) -> bool
    decreases es, 1nat,
{
    if es.len() == 0 {
        true
    } else {
        line_ok(es[0].0) && wf_at(es[0].1, d) && wf_entries_at(es.drop_first(), d)
    }
}

/// Well-formed within the codec's configured nesting limit.
pub open spec fn wf(f: FrameV) -> bool {
    wf_at(f, MAX_DEPTH as nat)
}

/// Insert a key into an entry list at its place in the key order; an entry
/// under an equal key is replaced, so the last write to a key wins.
pub open spec fn map_insert(es: Seq<(Seq<u8>, FrameV)>, k: Seq<u8>, v: FrameV) -> Seq<
    (Seq<u8>, FrameV),
>
    decreases es.len(),
{
    if es.len() == 0 {
        seq![(k, v)]
    } else if bytes_lt(k, es[0].0) {
        seq![(k, v)] + es
    } else if k == es[0].0 {
        seq![(k, v)] + es.drop_first()
    } else {
        seq![es[0]] + map_insert(es.drop_first(), k, v)
    }
}

/// Insert a frame into an element list at its place in the frame order; an
/// element it compares equal to is replaced, keeping elements distinct.
pub open spec fn set_insert(els: Seq<FrameV>, f: FrameV) -> Seq<FrameV>
    decreases els.len(),
{
    if els.len() == 0 {
        seq![f]
    } else if frame_lt(f, els[0]) {
        seq![f] + els
    } else if frame_cmp(f, els[0]) == 0 {
        seq![f] + els.drop_first()
    } else {
        seq![els[0]] + set_insert(els.drop_first(), f)
    }
}

} // verus!
