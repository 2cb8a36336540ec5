//! The codec's laws: decoding a canonical encoding returns the original
//! frame and consumes exactly its bytes, whatever follows it in the buffer.

use vstd::prelude::*;
use crate::model::{
    FrameV, CR, LF, TAG_SIMPLE, TAG_ERROR, TAG_INTEGER, TAG_BULK, TAG_ARRAY, TAG_NULL,
    TAG_BOOLEAN, TAG_DOUBLE, TAG_BULK_ERROR, TAG_MAP, TAG_SET, BYTE_PLUS, BYTE_MINUS, BYTE_ONE,
    BYTE_ZERO, BYTE_LOWER_T, BYTE_LOWER_F, MAX_LEN, MAX_DEPTH, is_line_byte, line_ok, is_digit,
    all_digits, is_digit_run, digits_val, line_run, strip_sign, double_lex, wf, wf_at, wf_seq_at,
    wf_entries_at, keys_sorted, elems_sorted, map_insert, set_insert, bytes_lt, frame_lt,
    bytes_cmp, frame_cmp,
};
use crate::scan::{LineScan, scan_line, int_ok, lemma_line_run_props};
use crate::encode::{
    enc, enc_seq, enc_entries, enc_line, crlf, dec_rep,
};
use crate::decode::{
    DecStep, ElemsStep, EntriesStep, MembersStep, LenField, len_field, dec_frame, dec_elems,
    dec_entries, dec_members, spec_decode,
};
use crate::order::{
    lemma_bytes_cmp_trans, lemma_frame_cmp_trans, lemma_keys_sorted_chain,
    lemma_elems_sorted_chain, lemma_map_insert_split, lemma_set_insert_split,
};

verus! {

/// The decimal text of `n` is one or more digits denoting `n`.
proof fn lemma_dec_rep_val(n: nat)
    ensures
        dec_rep(n).len() >= 1,
        all_digits(dec_rep(n)),
        digits_val(dec_rep(n)) == n,
    decreases n,
{
    if n < 10 {
        assert(dec_rep(n) =~= seq![(BYTE_ZERO + n) as u8]);
        assert(dec_rep(n).drop_last() =~= Seq::<u8>::empty());
        assert(digits_val(Seq::<u8>::empty()) == 0);
        assert(dec_rep(n).last() == (BYTE_ZERO + n) as u8);
    } else {
        lemma_dec_rep_val(n / 10);
        let s = dec_rep(n);
        assert(s.drop_last() =~= dec_rep(n / 10));
        assert(s.last() == (BYTE_ZERO + n % 10) as u8);
        assert forall|i: int| 0 <= i < s.len() implies is_digit(#[trigger] s[i]) by {
            if i < s.len() - 1 {
                assert(s[i] == dec_rep(n / 10)[i]);
            }
        }
        assert(n / 10 * 10 + n % 10 == n) by (nonlinear_arith);
    }
}

/// A line whose content holds no CR or LF scans to exactly that content,
/// whatever follows the terminator.
proof fn lemma_scan_line_exact(content: Seq<u8>, rest: Seq<u8>)
    requires
        line_ok(content),
    ensures
        scan_line(content + crlf() + rest) == LineScan::Found(content, content.len() as int + 2),
{
    let s = content + crlf() + rest;
    lemma_line_run_props(s);
    assert(s[content.len() as int] == CR);
    assert(s[content.len() as int + 1] == LF);
    assert(line_run(s) == content.len()) by {
        if line_run(s) < content.len() {
            assert(s[line_run(s) as int] == content[line_run(s) as int]);
        }
        if line_run(s) > content.len() {
            assert(is_line_byte(s[content.len() as int]));
        }
    }
    assert(s.take(content.len() as int) =~= content);
}

/// A digit line is never the `-1` sentinel and names its own value.
proof fn lemma_len_field_digits(len: nat)
    requires
        len <= MAX_LEN,
    ensures
        len_field(dec_rep(len)) == LenField::Len(len),
        line_ok(dec_rep(len)),
{
    lemma_dec_rep_val(len);
    let c = dec_rep(len);
    assert(is_digit(c[0]));
    if c == seq![BYTE_MINUS, BYTE_ONE] {
        assert(c[0] == BYTE_MINUS);
    }
    assert forall|i: int| 0 <= i < c.len() implies is_line_byte(#[trigger] c[i]) by {
        assert(is_digit(c[i]));
    }
}

/// A status line round-trips.
proof fn lemma_rt_simple(content: Seq<u8>, d: nat, rest: Seq<u8>)
    requires
        line_ok(content),
    ensures
        dec_frame(enc(FrameV::SimpleString(content)) + rest, d) == DecStep::Complete(
            FrameV::SimpleString(content),
            enc(FrameV::SimpleString(content)).len() as int,
        ),
{
    let s = enc(FrameV::SimpleString(content)) + rest;
    assert(s.drop_first() =~= content + crlf() + rest);
    lemma_scan_line_exact(content, rest);
}

/// An error line round-trips.
proof fn lemma_rt_error(content: Seq<u8>, d: nat, rest: Seq<u8>)
    requires
        line_ok(content),
    ensures
        dec_frame(enc(FrameV::SimpleError(content)) + rest, d) == DecStep::Complete(
            FrameV::SimpleError(content),
            enc(FrameV::SimpleError(content)).len() as int,
        ),
{
    let s = enc(FrameV::SimpleError(content)) + rest;
    assert(s.drop_first() =~= content + crlf() + rest);
    lemma_scan_line_exact(content, rest);
}

/// A double line round-trips.
proof fn lemma_rt_double(content: Seq<u8>, d: nat, rest: Seq<u8>)
    requires
        line_ok(content),
        double_lex(content),
    ensures
        dec_frame(enc(FrameV::Double(content)) + rest, d) == DecStep::Complete(
            FrameV::Double(content),
            enc(FrameV::Double(content)).len() as int,
        ),
{
    let s = enc(FrameV::Double(content)) + rest;
    assert(s.drop_first() =~= content + crlf() + rest);
    lemma_scan_line_exact(content, rest);
}

/// The integer line round-trips: sign and digits read back as the value.
proof fn lemma_rt_integer(n: int, d: nat, rest: Seq<u8>)
    requires
        i64::MIN <= n <= i64::MAX,
    ensures
        dec_frame(enc(FrameV::Integer(n)) + rest, d) == DecStep::Complete(
            FrameV::Integer(n),
            enc(FrameV::Integer(n)).len() as int,
        ),
{
    let f = FrameV::Integer(n);
    let s = enc(f) + rest;
    let mag: nat = if n < 0 {
        (-n) as nat
    } else {
        n as nat
    };
    let sign: u8 = if n < 0 {
        BYTE_MINUS
    } else {
        BYTE_PLUS
    };
    let content = seq![sign] + dec_rep(mag);
    lemma_dec_rep_val(mag);
    assert(enc(f) =~= seq![TAG_INTEGER] + content + crlf());
    assert forall|i: int| 0 <= i < content.len() implies is_line_byte(#[trigger] content[i]) by {
        if i > 0 {
            assert(content[i] == dec_rep(mag)[i - 1]);
            assert(is_digit(content[i]));
        }
    }
    assert(s.drop_first() =~= content + crlf() + rest);
    lemma_scan_line_exact(content, rest);
    assert(strip_sign(content) =~= dec_rep(mag));
    assert(int_ok(content) == Some(n));
}

/// A bulk string round-trips: the declared length carves the payload back
/// out, byte for byte.
proof fn lemma_rt_bulk(p: Seq<u8>, d: nat, rest: Seq<u8>)
    requires
        p.len() <= MAX_LEN,
    ensures
        dec_frame(enc(FrameV::BulkString(p)) + rest, d) == DecStep::Complete(
            FrameV::BulkString(p),
            enc(FrameV::BulkString(p)).len() as int,
        ),
{
    let dl = dec_rep(p.len());
    lemma_len_field_digits(p.len());
    let s = enc(FrameV::BulkString(p)) + rest;
    assert(s.drop_first() =~= dl + crlf() + (p + crlf() + rest));
    lemma_scan_line_exact(dl, p + crlf() + rest);
    let body = s.skip(1 + (dl.len() as int + 2));
    assert(body =~= p + crlf() + rest);
    assert(body[p.len() as int] == CR);
    assert(body[p.len() as int + 1] == LF);
    assert(body.take(p.len() as int) =~= p);
}

/// A bulk error round-trips the same way; its payload is valid UTF-8.
proof fn lemma_rt_bulk_error(p: Seq<u8>, d: nat, rest: Seq<u8>)
    requires
        p.len() <= MAX_LEN,
        vstd::utf8::valid_utf8(p),
    ensures
        dec_frame(enc(FrameV::BulkError(p)) + rest, d) == DecStep::Complete(
            FrameV::BulkError(p),
            enc(FrameV::BulkError(p)).len() as int,
        ),
{
    let dl = dec_rep(p.len());
    lemma_len_field_digits(p.len());
    let s = enc(FrameV::BulkError(p)) + rest;
    assert(s.drop_first() =~= dl + crlf() + (p + crlf() + rest));
    lemma_scan_line_exact(dl, p + crlf() + rest);
    let body = s.skip(1 + (dl.len() as int + 2));
    assert(body =~= p + crlf() + rest);
    assert(body[p.len() as int] == CR);
    assert(body[p.len() as int + 1] == LF);
    assert(body.take(p.len() as int) =~= p);
}

/// The three nulls and the booleans round-trip: each literal line reads
/// back as its own variant.
proof fn lemma_rt_literal(f: FrameV, d: nat, rest: Seq<u8>)
    requires
        f == FrameV::Null || f == FrameV::NullArray || f == FrameV::NullBulkString || f
            == FrameV::Boolean(true) || f == FrameV::Boolean(false),
    ensures
        dec_frame(enc(f) + rest, d) == DecStep::Complete(f, enc(f).len() as int),
{
    let s = enc(f) + rest;
    match f {
        FrameV::Null => {
            assert(s.drop_first() =~= Seq::<u8>::empty() + crlf() + rest);
            lemma_scan_line_exact(Seq::empty(), rest);
        },
        FrameV::NullArray => {
            let content = seq![BYTE_MINUS, BYTE_ONE];
            assert(s.drop_first() =~= content + crlf() + rest);
            lemma_scan_line_exact(content, rest);
        },
        FrameV::NullBulkString => {
            let content = seq![BYTE_MINUS, BYTE_ONE];
            assert(s.drop_first() =~= content + crlf() + rest);
            lemma_scan_line_exact(content, rest);
        },
        FrameV::Boolean(b) => {
            let content = seq![
                if b {
                    BYTE_LOWER_T
                } else {
                    BYTE_LOWER_F
                },
            ];
            assert(s.drop_first() =~= content + crlf() + rest);
            lemma_scan_line_exact(content, rest);
        },
        _ => {},
    }
}

/// An array round-trips: the count line, then each element in order.
proof fn lemma_rt_array(els: Seq<FrameV>, d: nat, rest: Seq<u8>)
    requires
        d > 0,
        els.len() <= MAX_LEN,
        wf_seq_at(els, (d - 1) as nat),
    ensures
        dec_frame(enc(FrameV::Array(els)) + rest, d) == DecStep::Complete(
            FrameV::Array(els),
            enc(FrameV::Array(els)).len() as int,
        ),
    decreases els, 3nat,
{
    let s = enc(FrameV::Array(els)) + rest;
    let dl = dec_rep(els.len());
    lemma_len_field_digits(els.len());
    assert(s.drop_first() =~= dl + crlf() + (enc_seq(els) + rest));
    lemma_scan_line_exact(dl, enc_seq(els) + rest);
    assert(s.skip(1 + (dl.len() as int + 2)) =~= enc_seq(els) + rest);
    lemma_rt_elems(els, (d - 1) as nat, rest);
}

/// A map round-trips: keys arrive in ascending order, so re-inserting them
/// rebuilds the identical entry list.
proof fn lemma_rt_map(es: Seq<(Seq<u8>, FrameV)>, d: nat, rest: Seq<u8>)
    requires
        d > 0,
        es.len() <= MAX_LEN,
        keys_sorted(es),
        wf_entries_at(es, (d - 1) as nat),
    ensures
        dec_frame(enc(FrameV::MapFrame(es)) + rest, d) == DecStep::Complete(
            FrameV::MapFrame(es),
            enc(FrameV::MapFrame(es)).len() as int,
        ),
    decreases es, 3nat,
{
    let s = enc(FrameV::MapFrame(es)) + rest;
    let dl = dec_rep(es.len());
    lemma_len_field_digits(es.len());
    assert(s.drop_first() =~= dl + crlf() + (enc_entries(es) + rest));
    lemma_scan_line_exact(dl, enc_entries(es) + rest);
    assert(s.skip(1 + (dl.len() as int + 2)) =~= enc_entries(es) + rest);
    assert(Seq::<(Seq<u8>, FrameV)>::empty() + es =~= es);
    lemma_rt_entries(es, (d - 1) as nat, rest, Seq::empty());
}

/// A set round-trips: elements arrive in ascending order, so re-inserting
/// them rebuilds the identical element list.
#[verifier::rlimit(50)]
#[verifier::spinoff_prover]
proof fn lemma_rt_set(els: Seq<FrameV>, d: nat, rest: Seq<u8>)
    requires
        d > 0,
        els.len() <= MAX_LEN,
        elems_sorted(els),
        wf_seq_at(els, (d - 1) as nat),
    ensures
        dec_frame(enc(FrameV::SetFrame(els)) + rest, d) == DecStep::Complete(
            FrameV::SetFrame(els),
            enc(FrameV::SetFrame(els)).len() as int,
        ),
    decreases els, 3nat,
{
    let s = enc(FrameV::SetFrame(els)) + rest;
    let dl = dec_rep(els.len());
    lemma_len_field_digits(els.len());
    assert(s.drop_first() =~= dl + crlf() + (enc_seq(els) + rest));
    lemma_scan_line_exact(dl, enc_seq(els) + rest);
    assert(s.skip(1 + (dl.len() as int + 2)) =~= enc_seq(els) + rest);
    assert(Seq::<FrameV>::empty() + els =~= els);
    lemma_rt_members(els, (d - 1) as nat, rest, Seq::empty());
}

/// Decoding `enc(f)` at the front of any buffer yields `f` and consumes
/// exactly `enc(f)` — the round trip, stated for a stream with a tail.
pub proof fn lemma_rt_frame(f: FrameV, d: nat, rest: Seq<u8>)
    requires
        wf_at(f, d),
    ensures
        dec_frame(enc(f) + rest, d) == DecStep::Complete(f, enc(f).len() as int),
    decreases f, 4nat,
{
    match f {
        FrameV::SimpleString(content) => {
            lemma_rt_simple(content, d, rest);
        },
        FrameV::SimpleError(content) => {
            lemma_rt_error(content, d, rest);
        },
        FrameV::Integer(n) => {
            lemma_rt_integer(n, d, rest);
        },
        FrameV::BulkString(p) => {
            lemma_rt_bulk(p, d, rest);
        },
        FrameV::BulkError(p) => {
            lemma_rt_bulk_error(p, d, rest);
        },
        FrameV::Null => {
            lemma_rt_literal(f, d, rest);
        },
        FrameV::NullArray => {
            lemma_rt_literal(f, d, rest);
        },
        FrameV::NullBulkString => {
            lemma_rt_literal(f, d, rest);
        },
        FrameV::Boolean(_) => {
            lemma_rt_literal(f, d, rest);
        },
        FrameV::Double(p) => {
            lemma_rt_double(p, d, rest);
        },
        FrameV::Array(els) => {
            lemma_rt_array(els, d, rest);
        },
        FrameV::MapFrame(es) => {
            lemma_rt_map(es, d, rest);
        },
        FrameV::SetFrame(els) => {
            lemma_rt_set(els, d, rest);
        },
    }
}

/// Array elements decode one after the other, each consuming its encoding.
proof fn lemma_rt_elems(els: Seq<FrameV>, d: nat, rest: Seq<u8>)
    requires
        wf_seq_at(els, d),
    ensures
        dec_elems(enc_seq(els) + rest, els.len(), d) == ElemsStep::Complete(
            els,
            enc_seq(els).len() as int,
        ),
    decreases els, 1nat,
{
    if els.len() == 0 {
        assert(els =~= Seq::<FrameV>::empty());
    } else {
        let f0 = els[0];
        let tail = els.drop_first();
        let s = enc_seq(els) + rest;
        assert(s =~= enc(f0) + (enc_seq(tail) + rest));
        lemma_rt_frame(f0, d, enc_seq(tail) + rest);
        assert(s.skip(enc(f0).len() as int) =~= enc_seq(tail) + rest);
        lemma_rt_elems(tail, d, rest);
        assert(seq![f0] + tail =~= els);
    }
}

/// Map entries decode as a key line and a value each, inserted in turn into
/// the accumulated map; keys that keep ascending just append.
proof fn lemma_rt_entries(
    es: Seq<(Seq<u8>, FrameV)>,
    d: nat,
    rest: Seq<u8>,
    acc: Seq<(Seq<u8>, FrameV)>,
)
    requires
        wf_entries_at(es, d),
        keys_sorted(acc + es),
        acc.len() + es.len() <= MAX_LEN,
    ensures
        dec_entries(enc_entries(es) + rest, es.len(), d, acc) == EntriesStep::Complete(
            acc + es,
            enc_entries(es).len() as int,
        ),
    decreases es, 1nat,
{
    if es.len() == 0 {
        assert(acc + es =~= acc);
    } else {
        let k = es[0].0;
        let v = es[0].1;
        let tail = es.drop_first();
        let keyenc = enc_line(TAG_SIMPLE, k);
        let s = enc_entries(es) + rest;
        let after_key = enc(v) + (enc_entries(tail) + rest);
        assert(s =~= keyenc + after_key);
        assert(s.drop_first() =~= k + crlf() + after_key);
        lemma_scan_line_exact(k, after_key);
        assert(dec_frame(s, d) == DecStep::Complete(FrameV::SimpleString(k), keyenc.len() as int));
        assert(s.skip(keyenc.len() as int) =~= after_key);
        lemma_rt_frame(v, d, enc_entries(tail) + rest);
        assert(s.skip(keyenc.len() as int).skip(enc(v).len() as int) =~= enc_entries(tail) + rest);
        assert forall|j: int| 0 <= j < acc.len() implies bytes_lt(
            (#[trigger] acc[j]).0,
            k,
        ) by {
            lemma_keys_sorted_chain(acc + es, j, acc.len() as int);
            assert((acc + es)[j] == acc[j]);
            assert((acc + es)[acc.len() as int] == es[0]);
        }
        lemma_map_insert_split(acc, k, v, acc.len() as int);
        assert(acc.skip(acc.len() as int) =~= Seq::<(Seq<u8>, FrameV)>::empty());
        assert(acc.take(acc.len() as int) =~= acc);
        let acc2 = acc + seq![(k, v)];
        assert(map_insert(acc, k, v) == acc2);
        assert(acc2 + tail =~= acc + es);
        lemma_rt_entries(tail, d, rest, acc2);
    }
}

/// Set elements decode one after the other, inserted in turn into the
/// accumulated set; elements that keep ascending just append.
proof fn lemma_rt_members(els: Seq<FrameV>, d: nat, rest: Seq<u8>, acc: Seq<FrameV>)
    requires
        wf_seq_at(els, d),
        elems_sorted(acc + els),
        acc.len() + els.len() <= MAX_LEN,
    ensures
        dec_members(enc_seq(els) + rest, els.len(), d, acc) == MembersStep::Complete(
            acc + els,
            enc_seq(els).len() as int,
        ),
    decreases els, 1nat,
{
    if els.len() == 0 {
        assert(acc + els =~= acc);
    } else {
        let f0 = els[0];
        let tail = els.drop_first();
        let s = enc_seq(els) + rest;
        assert(s =~= enc(f0) + (enc_seq(tail) + rest));
        lemma_rt_frame(f0, d, enc_seq(tail) + rest);
        assert(s.skip(enc(f0).len() as int) =~= enc_seq(tail) + rest);
        assert forall|j: int| 0 <= j < acc.len() implies frame_lt(#[trigger] acc[j], f0) by {
            lemma_elems_sorted_chain(acc + els, j, acc.len() as int);
            assert((acc + els)[j] == acc[j]);
            assert((acc + els)[acc.len() as int] == els[0]);
        }
        lemma_set_insert_split(acc, f0, acc.len() as int);
        assert(acc.skip(acc.len() as int) =~= Seq::<FrameV>::empty());
        assert(acc.take(acc.len() as int) =~= acc);
        let acc2 = acc + seq![f0];
        assert(set_insert(acc, f0) == acc2);
        assert(acc2 + tail =~= acc + els);
        lemma_rt_members(tail, d, rest, acc2);
    }
}

/// The round trip: for every well-formed frame value, decoding its
/// encoding yields the same value and consumes the whole encoding.
pub proof fn lemma_round_trip(f: FrameV)
    requires
        wf(f),
    ensures
        spec_decode(enc(f)) == DecStep::Complete(f, enc(f).len() as int),
{
    lemma_rt_frame(f, MAX_DEPTH as nat, Seq::empty());
    assert(enc(f) + Seq::<u8>::empty() =~= enc(f));
}


/// Insert commutativity for maps, proved for `k1` below `k2`.
proof fn lemma_map_insert_comm_lt(
    es: Seq<(Seq<u8>, FrameV)>,
    k1: Seq<u8>,
    v1: FrameV,
    k2: Seq<u8>,
    v2: FrameV,
)
    requires
        bytes_cmp(k1, k2) == -1,
    ensures
        map_insert(map_insert(es, k1, v1), k2, v2) == map_insert(map_insert(es, k2, v2), k1, v1),
    decreases es.len(),
{
    crate::order::lemma_bytes_cmp_antisym(k1, k2);
    if k1 == k2 {
        assert(bytes_cmp(k1, k2) == 0) by {
            crate::order::lemma_bytes_cmp_antisym(k1, k1);
        }
    }
    if es.len() == 0 {
        assert(map_insert(es, k1, v1) =~= seq![(k1, v1)]);
        assert(map_insert(es, k2, v2) =~= seq![(k2, v2)]);
        assert(seq![(k1, v1)].drop_first() =~= Seq::<(Seq<u8>, FrameV)>::empty());
        assert(map_insert(Seq::<(Seq<u8>, FrameV)>::empty(), k2, v2) =~= seq![(k2, v2)]);
        assert(map_insert(map_insert(es, k1, v1), k2, v2) =~= seq![(k1, v1)] + seq![(k2, v2)]);
        assert(map_insert(map_insert(es, k1, v1), k2, v2) =~= seq![(k1, v1), (k2, v2)]);
        assert(map_insert(map_insert(es, k2, v2), k1, v1) =~= seq![(k1, v1), (k2, v2)]);
    } else {
        let e0 = es[0];
        let rest = es.drop_first();
        crate::order::lemma_bytes_cmp_range(k1, e0.0);
        crate::order::lemma_bytes_cmp_antisym(k1, e0.0);
        crate::order::lemma_bytes_cmp_range(k2, e0.0);
        crate::order::lemma_bytes_cmp_antisym(k2, e0.0);
        lemma_bytes_cmp_trans(k1, k2, e0.0);
        lemma_bytes_cmp_trans(k2, e0.0, k1);
        lemma_bytes_cmp_trans(e0.0, k1, k2);
        if bytes_cmp(k1, e0.0) == 0 {
            crate::order::lemma_bytes_cmp_zero(k1, e0.0);
        }
        if bytes_cmp(k2, e0.0) == 0 {
            crate::order::lemma_bytes_cmp_zero(k2, e0.0);
        }
        if bytes_cmp(k1, e0.0) == 1 {
            // both keys walk past the head
            lemma_map_insert_comm_lt(rest, k1, v1, k2, v2);
            assert((seq![e0] + map_insert(rest, k1, v1)).drop_first() =~= map_insert(
                rest,
                k1,
                v1,
            ));
            assert((seq![e0] + map_insert(rest, k2, v2)).drop_first() =~= map_insert(
                rest,
                k2,
                v2,
            ));
            assert(map_insert(map_insert(es, k1, v1), k2, v2) =~= seq![e0] + map_insert(
                map_insert(rest, k1, v1),
                k2,
                v2,
            ));
            assert(map_insert(map_insert(es, k2, v2), k1, v1) =~= seq![e0] + map_insert(
                map_insert(rest, k2, v2),
                k1,
                v1,
            ));
        } else if bytes_cmp(k1, e0.0) == 0 {
            // k1 replaces the head; k2 walks past both
            assert(map_insert(es, k2, v2) =~= seq![e0] + map_insert(rest, k2, v2));
            assert(map_insert(es, k1, v1) =~= seq![(k1, v1)] + rest);
            assert((seq![(k1, v1)] + rest).drop_first() =~= rest);
            assert((seq![e0] + map_insert(rest, k2, v2)).drop_first() =~= map_insert(
                rest,
                k2,
                v2,
            ));
            assert(map_insert(map_insert(es, k1, v1), k2, v2) =~= seq![(k1, v1)] + map_insert(
                rest,
                k2,
                v2,
            ));
            assert(map_insert(map_insert(es, k2, v2), k1, v1) =~= seq![(k1, v1)] + map_insert(
                rest,
                k2,
                v2,
            ));
        } else {
            // k1 goes in front of the head
            assert(map_insert(es, k1, v1) =~= seq![(k1, v1)] + es);
            assert((seq![(k1, v1)] + es).drop_first() =~= es);
            if bytes_cmp(k2, e0.0) == 1 {
                // k2 walks past the head
                assert(map_insert(es, k2, v2) =~= seq![e0] + map_insert(rest, k2, v2));
                assert((seq![e0] + map_insert(rest, k2, v2)).drop_first() =~= map_insert(
                    rest,
                    k2,
                    v2,
                ));
                assert(map_insert(map_insert(es, k1, v1), k2, v2) =~= seq![(k1, v1)] + (seq![e0]
                    + map_insert(rest, k2, v2)));
                assert(map_insert(map_insert(es, k2, v2), k1, v1) =~= seq![(k1, v1)] + (seq![e0]
                    + map_insert(rest, k2, v2)));
            } else if bytes_cmp(k2, e0.0) == 0 {
                // k2 replaces the head
                assert(map_insert(es, k2, v2) =~= seq![(k2, v2)] + rest);
                assert((seq![(k2, v2)] + rest).drop_first() =~= rest);
                assert(map_insert(map_insert(es, k1, v1), k2, v2) =~= seq![(k1, v1)] + (seq![
                    (k2, v2),
                ] + rest));
                assert(map_insert(map_insert(es, k2, v2), k1, v1) =~= seq![(k1, v1)] + (seq![
                    (k2, v2),
                ] + rest));
            } else {
                // both go in front of the head, lower key first
                assert(map_insert(es, k2, v2) =~= seq![(k2, v2)] + es);
                assert(map_insert(map_insert(es, k1, v1), k2, v2) =~= seq![(k1, v1)] + (seq![
                    (k2, v2),
                ] + es));
                assert(map_insert(map_insert(es, k2, v2), k1, v1) =~= seq![(k1, v1)] + (seq![
                    (k2, v2),
                ] + es));
            }
        }
    }
}

/// Two distinct keys land in the same places whichever is put in first.
pub proof fn lemma_map_insert_comm(
    es: Seq<(Seq<u8>, FrameV)>,
    k1: Seq<u8>,
    v1: FrameV,
    k2: Seq<u8>,
    v2: FrameV,
)
    requires
        k1 != k2,
    ensures
        map_insert(map_insert(es, k1, v1), k2, v2) == map_insert(map_insert(es, k2, v2), k1, v1),
{
    crate::order::lemma_bytes_cmp_range(k1, k2);
    crate::order::lemma_bytes_cmp_antisym(k1, k2);
    if bytes_cmp(k1, k2) == 0 {
        crate::order::lemma_bytes_cmp_zero(k1, k2);
    }
    if bytes_cmp(k1, k2) == -1 {
        lemma_map_insert_comm_lt(es, k1, v1, k2, v2);
    } else {
        lemma_map_insert_comm_lt(es, k2, v2, k1, v1);
    }
}

/// Insert commutativity for sets, proved for `f1` below `f2`.
proof fn lemma_set_insert_comm_lt(els: Seq<FrameV>, f1: FrameV, f2: FrameV)
    requires
        frame_cmp(f1, f2) == -1,
    ensures
        set_insert(set_insert(els, f1), f2) == set_insert(set_insert(els, f2), f1),
    decreases els.len(),
{
    crate::order::lemma_frame_cmp_antisym(f1, f2);
    if els.len() == 0 {
        assert(set_insert(els, f1) =~= seq![f1]);
        assert(set_insert(els, f2) =~= seq![f2]);
        assert(seq![f1].drop_first() =~= Seq::<FrameV>::empty());
        assert(set_insert(Seq::<FrameV>::empty(), f2) =~= seq![f2]);
        assert(set_insert(set_insert(els, f1), f2) =~= seq![f1] + seq![f2]);
        assert(set_insert(set_insert(els, f1), f2) =~= seq![f1, f2]);
        assert(set_insert(set_insert(els, f2), f1) =~= seq![f1, f2]);
    } else {
        let e0 = els[0];
        let rest = els.drop_first();
        crate::order::lemma_frame_cmp_range(f1, e0);
        crate::order::lemma_frame_cmp_antisym(f1, e0);
        crate::order::lemma_frame_cmp_range(f2, e0);
        crate::order::lemma_frame_cmp_antisym(f2, e0);
        lemma_frame_cmp_trans(f1, f2, e0);
        lemma_frame_cmp_trans(f2, e0, f1);
        lemma_frame_cmp_trans(e0, f1, f2);
        if frame_cmp(f1, e0) == 1 {
            // both elements walk past the head
            lemma_set_insert_comm_lt(rest, f1, f2);
            assert((seq![e0] + set_insert(rest, f1)).drop_first() =~= set_insert(rest, f1));
            assert((seq![e0] + set_insert(rest, f2)).drop_first() =~= set_insert(rest, f2));
            assert(set_insert(set_insert(els, f1), f2) =~= seq![e0] + set_insert(
                set_insert(rest, f1),
                f2,
            ));
            assert(set_insert(set_insert(els, f2), f1) =~= seq![e0] + set_insert(
                set_insert(rest, f2),
                f1,
            ));
        } else if frame_cmp(f1, e0) == 0 {
            // f1 replaces the head; f2 walks past both
            assert(set_insert(els, f2) =~= seq![e0] + set_insert(rest, f2));
            assert(set_insert(els, f1) =~= seq![f1] + rest);
            assert((seq![f1] + rest).drop_first() =~= rest);
            assert((seq![e0] + set_insert(rest, f2)).drop_first() =~= set_insert(rest, f2));
            assert(set_insert(set_insert(els, f1), f2) =~= seq![f1] + set_insert(rest, f2));
            assert(set_insert(set_insert(els, f2), f1) =~= seq![f1] + set_insert(rest, f2));
        } else {
            // f1 goes in front of the head
            assert(set_insert(els, f1) =~= seq![f1] + els);
            assert((seq![f1] + els).drop_first() =~= els);
            if frame_cmp(f2, e0) == 1 {
                assert(set_insert(els, f2) =~= seq![e0] + set_insert(rest, f2));
                assert((seq![e0] + set_insert(rest, f2)).drop_first() =~= set_insert(rest, f2));
                assert(set_insert(set_insert(els, f1), f2) =~= seq![f1] + (seq![e0] + set_insert(
                    rest,
                    f2,
                )));
                assert(set_insert(set_insert(els, f2), f1) =~= seq![f1] + (seq![e0] + set_insert(
                    rest,
                    f2,
                )));
            } else if frame_cmp(f2, e0) == 0 {
                assert(set_insert(els, f2) =~= seq![f2] + rest);
                assert((seq![f2] + rest).drop_first() =~= rest);
                assert(set_insert(set_insert(els, f1), f2) =~= seq![f1] + (seq![f2] + rest));
                assert(set_insert(set_insert(els, f2), f1) =~= seq![f1] + (seq![f2] + rest));
            } else {
                assert(set_insert(els, f2) =~= seq![f2] + els);
                assert(set_insert(set_insert(els, f1), f2) =~= seq![f1] + (seq![f2] + els));
                assert(set_insert(set_insert(els, f2), f1) =~= seq![f1] + (seq![f2] + els));
            }
        }
    }
}

/// Two elements that compare unequal land in the same places whichever is
/// put in first.
pub proof fn lemma_set_insert_comm(els: Seq<FrameV>, f1: FrameV, f2: FrameV)
    requires
        frame_cmp(f1, f2) != 0,
    ensures
        set_insert(set_insert(els, f1), f2) == set_insert(set_insert(els, f2), f1),
{
    crate::order::lemma_frame_cmp_range(f1, f2);
    crate::order::lemma_frame_cmp_antisym(f1, f2);
    if frame_cmp(f1, f2) == -1 {
        lemma_set_insert_comm_lt(els, f1, f2);
    } else {
        lemma_set_insert_comm_lt(els, f2, f1);
    }
}

/// Container determinism: a map holding two distinct keys encodes to the
/// same bytes whichever key was inserted first.
pub proof fn lemma_map_encoding_insert_order(
    es: Seq<(Seq<u8>, FrameV)>,
    k1: Seq<u8>,
    v1: FrameV,
    k2: Seq<u8>,
    v2: FrameV,
)
    requires
        k1 != k2,
    ensures
        enc(FrameV::MapFrame(map_insert(map_insert(es, k1, v1), k2, v2))) == enc(
            FrameV::MapFrame(map_insert(map_insert(es, k2, v2), k1, v1)),
        ),
{
    lemma_map_insert_comm(es, k1, v1, k2, v2);
}

/// Container determinism: a set holding two distinct elements encodes to
/// the same bytes whichever was inserted first.
pub proof fn lemma_set_encoding_insert_order(els: Seq<FrameV>, f1: FrameV, f2: FrameV)
    requires
        frame_cmp(f1, f2) != 0,
    ensures
        enc(FrameV::SetFrame(set_insert(set_insert(els, f1), f2))) == enc(
            FrameV::SetFrame(set_insert(set_insert(els, f2), f1)),
        ),
{
    lemma_set_insert_comm(els, f1, f2);
}


/// A buffer cut anywhere inside a frame's first line scans to `Partial`.
proof fn lemma_scan_line_trunc(content: Seq<u8>, j: int)
    requires
        line_ok(content),
        0 <= j < content.len() + 2,
    ensures
        scan_line((content + crlf()).take(j)) == LineScan::Partial,
{
    let s = (content + crlf()).take(j);
    lemma_line_run_props(s);
    if j <= content.len() {
        assert forall|i: int| 0 <= i < s.len() implies is_line_byte(#[trigger] s[i]) by {
            assert(s[i] == content[i]);
        }
        assert(line_run(s) == j) by {
            if line_run(s) < j {
                assert(is_line_byte(s[line_run(s) as int]));
            }
        }
    } else {
        assert(s[content.len() as int] == CR);
        assert forall|i: int| 0 <= i < content.len() implies is_line_byte(#[trigger] s[i]) by {
            assert(s[i] == content[i]);
        }
        assert(line_run(s) == content.len()) by {
            if line_run(s) < content.len() {
                assert(is_line_byte(s[line_run(s) as int]));
            }
            if line_run(s) > content.len() {
                assert(is_line_byte(s[content.len() as int]));
            }
        }
    }
}

/// A buffer cut inside the tag byte or the first line of any frame decodes
/// to `Incomplete`, whatever would have followed that line.
proof fn lemma_trunc_in_line(tag: u8, content: Seq<u8>, tail: Seq<u8>, k: int, d: nat)
    requires
        line_ok(content),
        tag == TAG_SIMPLE || tag == TAG_ERROR || tag == TAG_INTEGER || tag == TAG_BOOLEAN || tag
            == TAG_NULL || tag == TAG_DOUBLE || tag == TAG_BULK || tag == TAG_BULK_ERROR || tag
            == TAG_ARRAY || tag == TAG_MAP || tag == TAG_SET,
        0 <= k < 1 + content.len() + 2,
    ensures
        dec_frame((seq![tag] + content + crlf() + tail).take(k), d) == DecStep::Incomplete,
{
    let s = (seq![tag] + content + crlf() + tail).take(k);
    if k == 0 {
        assert(s =~= Seq::<u8>::empty());
    } else {
        assert(s[0] == tag);
        assert(s.drop_first() =~= (content + crlf()).take(k - 1));
        lemma_scan_line_trunc(content, k - 1);
    }
}

/// A length-prefixed frame cut anywhere before its final CRLF decodes to
/// `Incomplete`.
proof fn lemma_trunc_bulk(p: Seq<u8>, tag: u8, k: int, d: nat)
    requires
        p.len() <= MAX_LEN,
        tag == TAG_BULK || tag == TAG_BULK_ERROR,
    ensures
        ({
            let whole = seq![tag] + (dec_rep(p.len()) + crlf() + (p + crlf()));
            0 <= k < whole.len() ==> dec_frame(whole.take(k), d) == DecStep::Incomplete
        }),
{
    let dl = dec_rep(p.len());
    lemma_len_field_digits(p.len());
    let whole = seq![tag] + (dl + crlf() + (p + crlf()));
    let header = 1 + dl.len() as int + 2;
    if 0 <= k < whole.len() {
        if k < header {
            lemma_trunc_in_line(tag, dl, p + crlf(), k, d);
            assert(whole.take(k) =~= (seq![tag] + dl + crlf() + (p + crlf())).take(k));
        } else {
            let s = whole.take(k);
            assert(s.drop_first() =~= dl + crlf() + (p + crlf()).take(k - header));
            lemma_scan_line_exact(dl, (p + crlf()).take(k - header));
            assert(s.skip(header) =~= (p + crlf()).take(k - header));
        }
    }
}

/// An array cut anywhere inside decodes to `Incomplete`.
proof fn lemma_trunc_array(els: Seq<FrameV>, d: nat, k: int)
    requires
        d > 0,
        els.len() <= MAX_LEN,
        wf_seq_at(els, (d - 1) as nat),
        0 <= k < enc(FrameV::Array(els)).len(),
    ensures
        dec_frame(enc(FrameV::Array(els)).take(k), d) == DecStep::Incomplete,
    decreases els, 3nat,
{
    let dl = dec_rep(els.len());
    lemma_len_field_digits(els.len());
    let whole = enc(FrameV::Array(els));
    let header = 1 + dl.len() as int + 2;
    if k < header {
        lemma_trunc_in_line(TAG_ARRAY, dl, enc_seq(els), k, d);
        assert(whole.take(k) =~= (seq![TAG_ARRAY] + dl + crlf() + enc_seq(els)).take(k));
    } else {
        let s = whole.take(k);
        assert(s.drop_first() =~= dl + crlf() + enc_seq(els).take(k - header));
        lemma_scan_line_exact(dl, enc_seq(els).take(k - header));
        assert(s.skip(header) =~= enc_seq(els).take(k - header));
        lemma_trunc_elems(els, (d - 1) as nat, k - header);
    }
}

/// A map cut anywhere inside decodes to `Incomplete`.
#[verifier::rlimit(50)]
#[verifier::spinoff_prover]
proof fn lemma_trunc_map(es: Seq<(Seq<u8>, FrameV)>, d: nat, k: int)
    requires
        d > 0,
        es.len() <= MAX_LEN,
        keys_sorted(es),
        wf_entries_at(es, (d - 1) as nat),
        0 <= k < enc(FrameV::MapFrame(es)).len(),
    ensures
        dec_frame(enc(FrameV::MapFrame(es)).take(k), d) == DecStep::Incomplete,
    decreases es, 3nat,
{
    let dl = dec_rep(es.len());
    lemma_len_field_digits(es.len());
    let whole = enc(FrameV::MapFrame(es));
    let header = 1 + dl.len() as int + 2;
    if k < header {
        lemma_trunc_in_line(TAG_MAP, dl, enc_entries(es), k, d);
        assert(whole.take(k) =~= (seq![TAG_MAP] + dl + crlf() + enc_entries(es)).take(k));
    } else {
        let s = whole.take(k);
        assert(s.drop_first() =~= dl + crlf() + enc_entries(es).take(k - header));
        lemma_scan_line_exact(dl, enc_entries(es).take(k - header));
        assert(s.skip(header) =~= enc_entries(es).take(k - header));
        assert(Seq::<(Seq<u8>, FrameV)>::empty() + es =~= es);
        lemma_trunc_entries(es, (d - 1) as nat, k - header, Seq::empty());
    }
}

/// A set cut anywhere inside decodes to `Incomplete`.
#[verifier::rlimit(50)]
#[verifier::spinoff_prover]
proof fn lemma_trunc_set(els: Seq<FrameV>, d: nat, k: int)
    requires
        d > 0,
        els.len() <= MAX_LEN,
        elems_sorted(els),
        wf_seq_at(els, (d - 1) as nat),
        0 <= k < enc(FrameV::SetFrame(els)).len(),
    ensures
        dec_frame(enc(FrameV::SetFrame(els)).take(k), d) == DecStep::Incomplete,
    decreases els, 3nat,
{
    let dl = dec_rep(els.len());
    lemma_len_field_digits(els.len());
    let whole = enc(FrameV::SetFrame(els));
    let header = 1 + dl.len() as int + 2;
    if k < header {
        lemma_trunc_in_line(TAG_SET, dl, enc_seq(els), k, d);
        assert(whole.take(k) =~= (seq![TAG_SET] + dl + crlf() + enc_seq(els)).take(k));
    } else {
        let s = whole.take(k);
        assert(s.drop_first() =~= dl + crlf() + enc_seq(els).take(k - header));
        lemma_scan_line_exact(dl, enc_seq(els).take(k - header));
        assert(s.skip(header) =~= enc_seq(els).take(k - header));
        assert(Seq::<FrameV>::empty() + els =~= els);
        lemma_trunc_members(els, (d - 1) as nat, k - header, Seq::empty());
    }
}

/// A run of array elements cut anywhere inside decodes to `Incomplete`.
proof fn lemma_trunc_elems(els: Seq<FrameV>, d: nat, k: int)
    requires
        wf_seq_at(els, d),
        0 <= k < enc_seq(els).len(),
    ensures
        dec_elems(enc_seq(els).take(k), els.len(), d) == ElemsStep::Incomplete,
    decreases els, 2nat,
{
    let f0 = els[0];
    let tail = els.drop_first();
    let e0len = enc(f0).len() as int;
    if k < e0len {
        assert(enc_seq(els).take(k) =~= enc(f0).take(k));
        lemma_trunc_frame(f0, d, k);
    } else {
        let s = enc_seq(els).take(k);
        assert(s =~= enc(f0) + enc_seq(tail).take(k - e0len));
        lemma_rt_frame(f0, d, enc_seq(tail).take(k - e0len));
        assert(s.skip(e0len) =~= enc_seq(tail).take(k - e0len));
        lemma_trunc_elems(tail, d, k - e0len);
    }
}

/// A run of map entries cut anywhere inside decodes to `Incomplete`.
proof fn lemma_trunc_entries(es: Seq<(Seq<u8>, FrameV)>, d: nat, k: int, acc: Seq<(Seq<u8>, FrameV)>)
    requires
        wf_entries_at(es, d),
        keys_sorted(acc + es),
        0 <= k < enc_entries(es).len(),
    ensures
        dec_entries(enc_entries(es).take(k), es.len(), d, acc) == EntriesStep::Incomplete,
    decreases es, 2nat,
{
    let key = es[0].0;
    let v = es[0].1;
    let tail = es.drop_first();
    let keyenc = enc_line(TAG_SIMPLE, key);
    let klen = keyenc.len() as int;
    let vlen = enc(v).len() as int;
    let s = enc_entries(es).take(k);
    if k < klen {
        assert(s =~= (seq![TAG_SIMPLE] + key + crlf() + (enc(v) + enc_entries(tail))).take(k));
        lemma_trunc_in_line(TAG_SIMPLE, key, enc(v) + enc_entries(tail), k, d);
    } else if k < klen + vlen {
        assert(s =~= keyenc + enc(v).take(k - klen));
        assert(s.drop_first() =~= key + crlf() + enc(v).take(k - klen));
        lemma_scan_line_exact(key, enc(v).take(k - klen));
        assert(dec_frame(s, d) == DecStep::Complete(FrameV::SimpleString(key), klen));
        assert(s.skip(klen) =~= enc(v).take(k - klen));
        lemma_trunc_frame(v, d, k - klen);
    } else {
        assert(s =~= keyenc + (enc(v) + enc_entries(tail).take(k - klen - vlen)));
        assert(s.drop_first() =~= key + crlf() + (enc(v) + enc_entries(tail).take(
            k - klen - vlen,
        )));
        lemma_scan_line_exact(key, enc(v) + enc_entries(tail).take(k - klen - vlen));
        assert(dec_frame(s, d) == DecStep::Complete(FrameV::SimpleString(key), klen));
        assert(s.skip(klen) =~= enc(v) + enc_entries(tail).take(k - klen - vlen));
        lemma_rt_frame(v, d, enc_entries(tail).take(k - klen - vlen));
        assert(s.skip(klen).skip(vlen) =~= enc_entries(tail).take(k - klen - vlen));
        assert forall|j: int| 0 <= j < acc.len() implies bytes_lt(
            (#[trigger] acc[j]).0,
            key,
        ) by {
            lemma_keys_sorted_chain(acc + es, j, acc.len() as int);
            assert((acc + es)[j] == acc[j]);
            assert((acc + es)[acc.len() as int] == es[0]);
        }
        lemma_map_insert_split(acc, key, v, acc.len() as int);
        assert(acc.skip(acc.len() as int) =~= Seq::<(Seq<u8>, FrameV)>::empty());
        assert(acc.take(acc.len() as int) =~= acc);
        let acc2 = acc + seq![(key, v)];
        assert(map_insert(acc, key, v) == acc2);
        assert(acc2 + tail =~= acc + es);
        lemma_trunc_entries(tail, d, k - klen - vlen, acc2);
    }
}

/// A run of set elements cut anywhere inside decodes to `Incomplete`.
proof fn lemma_trunc_members(els: Seq<FrameV>, d: nat, k: int, acc: Seq<FrameV>)
    requires
        wf_seq_at(els, d),
        elems_sorted(acc + els),
        0 <= k < enc_seq(els).len(),
    ensures
        dec_members(enc_seq(els).take(k), els.len(), d, acc) == MembersStep::Incomplete,
    decreases els, 2nat,
{
    let f0 = els[0];
    let tail = els.drop_first();
    let e0len = enc(f0).len() as int;
    let s = enc_seq(els).take(k);
    if k < e0len {
        assert(s =~= enc(f0).take(k));
        lemma_trunc_frame(f0, d, k);
    } else {
        assert(s =~= enc(f0) + enc_seq(tail).take(k - e0len));
        lemma_rt_frame(f0, d, enc_seq(tail).take(k - e0len));
        assert(s.skip(e0len) =~= enc_seq(tail).take(k - e0len));
        assert forall|j: int| 0 <= j < acc.len() implies frame_lt(#[trigger] acc[j], f0) by {
            lemma_elems_sorted_chain(acc + els, j, acc.len() as int);
            assert((acc + els)[j] == acc[j]);
            assert((acc + els)[acc.len() as int] == els[0]);
        }
        lemma_set_insert_split(acc, f0, acc.len() as int);
        assert(acc.skip(acc.len() as int) =~= Seq::<FrameV>::empty());
        assert(acc.take(acc.len() as int) =~= acc);
        let acc2 = acc + seq![f0];
        assert(set_insert(acc, f0) == acc2);
        assert(acc2 + tail =~= acc + els);
        lemma_trunc_members(tail, d, k - e0len, acc2);
    }
}

/// A cut simple string decodes to `Incomplete`.
proof fn lemma_trunc_simple(content: Seq<u8>, k: int, d: nat)
    requires
        line_ok(content),
        0 <= k < enc(FrameV::SimpleString(content)).len(),
    ensures
        dec_frame(enc(FrameV::SimpleString(content)).take(k), d) == DecStep::Incomplete,
{
    lemma_trunc_in_line(TAG_SIMPLE, content, Seq::empty(), k, d);
    assert(enc(FrameV::SimpleString(content)).take(k) =~= (seq![TAG_SIMPLE] + content + crlf()
        + Seq::<u8>::empty()).take(k));
}

/// A cut simple error decodes to `Incomplete`.
proof fn lemma_trunc_error(content: Seq<u8>, k: int, d: nat)
    requires
        line_ok(content),
        0 <= k < enc(FrameV::SimpleError(content)).len(),
    ensures
        dec_frame(enc(FrameV::SimpleError(content)).take(k), d) == DecStep::Incomplete,
{
    lemma_trunc_in_line(TAG_ERROR, content, Seq::empty(), k, d);
    assert(enc(FrameV::SimpleError(content)).take(k) =~= (seq![TAG_ERROR] + content + crlf()
        + Seq::<u8>::empty()).take(k));
}

/// A cut double decodes to `Incomplete`.
proof fn lemma_trunc_double(content: Seq<u8>, k: int, d: nat)
    requires
        line_ok(content),
        0 <= k < enc(FrameV::Double(content)).len(),
    ensures
        dec_frame(enc(FrameV::Double(content)).take(k), d) == DecStep::Incomplete,
{
    lemma_trunc_in_line(TAG_DOUBLE, content, Seq::empty(), k, d);
    assert(enc(FrameV::Double(content)).take(k) =~= (seq![TAG_DOUBLE] + content + crlf()
        + Seq::<u8>::empty()).take(k));
}

/// A cut integer decodes to `Incomplete`.
proof fn lemma_trunc_integer(n: int, k: int, d: nat)
    requires
        0 <= k < enc(FrameV::Integer(n)).len(),
    ensures
        dec_frame(enc(FrameV::Integer(n)).take(k), d) == DecStep::Incomplete,
{
    let mag: nat = if n < 0 {
        (-n) as nat
    } else {
        n as nat
    };
    let sign: u8 = if n < 0 {
        BYTE_MINUS
    } else {
        BYTE_PLUS
    };
    let content = seq![sign] + dec_rep(mag);
    lemma_dec_rep_val(mag);
    assert forall|i: int| 0 <= i < content.len() implies is_line_byte(#[trigger] content[i]) by {
        if i > 0 {
            assert(content[i] == dec_rep(mag)[i - 1]);
            assert(is_digit(content[i]));
        }
    }
    lemma_trunc_in_line(TAG_INTEGER, content, Seq::empty(), k, d);
    assert(enc(FrameV::Integer(n)).take(k) =~= (seq![TAG_INTEGER] + content + crlf()
        + Seq::<u8>::empty()).take(k));
}

/// A cut null, null array, null bulk string or boolean decodes to
/// `Incomplete`.
proof fn lemma_trunc_literal(f: FrameV, k: int, d: nat)
    requires
        f == FrameV::Null || f == FrameV::NullArray || f == FrameV::NullBulkString || f
            == FrameV::Boolean(true) || f == FrameV::Boolean(false),
        0 <= k < enc(f).len(),
    ensures
        dec_frame(enc(f).take(k), d) == DecStep::Incomplete,
{
    match f {
        FrameV::Null => {
            lemma_trunc_in_line(TAG_NULL, Seq::empty(), Seq::empty(), k, d);
            assert(enc(f).take(k) =~= (seq![TAG_NULL] + Seq::<u8>::empty() + crlf()
                + Seq::<u8>::empty()).take(k));
        },
        FrameV::NullArray => {
            lemma_trunc_in_line(TAG_ARRAY, seq![BYTE_MINUS, BYTE_ONE], Seq::empty(), k, d);
            assert(enc(f).take(k) =~= (seq![TAG_ARRAY] + seq![BYTE_MINUS, BYTE_ONE] + crlf()
                + Seq::<u8>::empty()).take(k));
        },
        FrameV::NullBulkString => {
            lemma_trunc_in_line(TAG_BULK, seq![BYTE_MINUS, BYTE_ONE], Seq::empty(), k, d);
            assert(enc(f).take(k) =~= (seq![TAG_BULK] + seq![BYTE_MINUS, BYTE_ONE] + crlf()
                + Seq::<u8>::empty()).take(k));
        },
        FrameV::Boolean(b) => {
            let content = seq![
                if b {
                    BYTE_LOWER_T
                } else {
                    BYTE_LOWER_F
                },
            ];
            lemma_trunc_in_line(TAG_BOOLEAN, content, Seq::empty(), k, d);
            assert(enc(f).take(k) =~= (seq![TAG_BOOLEAN] + content + crlf()
                + Seq::<u8>::empty()).take(k));
        },
        _ => {},
    }
}

/// A cut bulk string decodes to `Incomplete`.
proof fn lemma_trunc_bulk_string(p: Seq<u8>, k: int, d: nat)
    requires
        p.len() <= MAX_LEN,
        0 <= k < enc(FrameV::BulkString(p)).len(),
    ensures
        dec_frame(enc(FrameV::BulkString(p)).take(k), d) == DecStep::Incomplete,
{
    lemma_trunc_bulk(p, TAG_BULK, k, d);
    assert(enc(FrameV::BulkString(p)) =~= seq![TAG_BULK] + (dec_rep(p.len()) + crlf() + (p
        + crlf())));
}

/// A cut bulk error decodes to `Incomplete`.
proof fn lemma_trunc_bulk_error(p: Seq<u8>, k: int, d: nat)
    requires
        p.len() <= MAX_LEN,
        0 <= k < enc(FrameV::BulkError(p)).len(),
    ensures
        dec_frame(enc(FrameV::BulkError(p)).take(k), d) == DecStep::Incomplete,
{
    lemma_trunc_bulk(p, TAG_BULK_ERROR, k, d);
    assert(enc(FrameV::BulkError(p)) =~= seq![TAG_BULK_ERROR] + (dec_rep(p.len()) + crlf() + (p
        + crlf())));
}

/// Cutting the encoding of any well-formed frame anywhere leaves a buffer
/// that decodes to `Incomplete` at depth `d` — never `Malformed`, never
/// `Complete`.
pub proof fn lemma_trunc_frame(f: FrameV, d: nat, k: int)
    requires
        wf_at(f, d),
        0 <= k < enc(f).len(),
    ensures
        dec_frame(enc(f).take(k), d) == DecStep::Incomplete,
    decreases f, 4nat,
{
    match f {
        FrameV::SimpleString(content) => {
            lemma_trunc_simple(content, k, d);
        },
        FrameV::SimpleError(content) => {
            lemma_trunc_error(content, k, d);
        },
        FrameV::Integer(n) => {
            lemma_trunc_integer(n, k, d);
        },
        FrameV::BulkString(p) => {
            lemma_trunc_bulk_string(p, k, d);
        },
        FrameV::BulkError(p) => {
            lemma_trunc_bulk_error(p, k, d);
        },
        FrameV::Null => {
            lemma_trunc_literal(f, k, d);
        },
        FrameV::NullArray => {
            lemma_trunc_literal(f, k, d);
        },
        FrameV::NullBulkString => {
            lemma_trunc_literal(f, k, d);
        },
        FrameV::Boolean(_) => {
            lemma_trunc_literal(f, k, d);
        },
        FrameV::Double(p) => {
            lemma_trunc_double(p, k, d);
        },
        FrameV::Array(els) => {
            lemma_trunc_array(els, d, k);
        },
        FrameV::MapFrame(es) => {
            lemma_trunc_map(es, d, k);
        },
        FrameV::SetFrame(els) => {
            lemma_trunc_set(els, d, k);
        },
    }
}

/// Incomplete detection: a complete encoding cut short by any number of
/// bytes decodes to `Incomplete` — the caller may keep the buffer and wait.
pub proof fn lemma_truncation(f: FrameV, k: int)
    requires
        wf(f),
        0 <= k < enc(f).len(),
    ensures
        spec_decode(enc(f).take(k)) == DecStep::Incomplete,
{
    lemma_trunc_frame(f, MAX_DEPTH as nat, k);
}


/// The integer sign is always explicit on the wire: right after `:` stands
/// `+` or `-`, whichever matches the value's sign.
pub proof fn lemma_integer_sign_explicit(n: int)
    ensures
        enc(FrameV::Integer(n))[0] == TAG_INTEGER,
        n >= 0 ==> enc(FrameV::Integer(n))[1] == BYTE_PLUS,
        n < 0 ==> enc(FrameV::Integer(n))[1] == BYTE_MINUS,
{
    if n < 0 {
        assert(enc(FrameV::Integer(n)) =~= seq![TAG_INTEGER, BYTE_MINUS] + dec_rep((-n) as nat)
            + crlf());
    } else {
        assert(enc(FrameV::Integer(n)) =~= seq![TAG_INTEGER, BYTE_PLUS] + dec_rep(n as nat)
            + crlf());
    }
}


/// What a successful line scan hands back is line-safe and fits the buffer.
proof fn lemma_scan_line_wf(s: Seq<u8>)
    ensures
        scan_line(s) matches LineScan::Found(c, n) ==> line_ok(c) && 2 <= n <= s.len(),
{
    lemma_line_run_props(s);
    if let LineScan::Found(c, n) = scan_line(s) {
        assert forall|i: int| 0 <= i < c.len() implies is_line_byte(#[trigger] c[i]) by {
            assert(c[i] == s[i]);
        }
    }
}

/// Whatever one frame decodes to is well-formed at the depth it was read
/// at, and consumes at least one byte and at most the buffer.
proof fn lemma_dec_wf_frame(s: Seq<u8>, d: nat)
    ensures
        dec_frame(s, d) matches DecStep::Complete(f, n) ==> wf_at(f, d) && 0 < n <= s.len(),
    decreases d, 0nat, 0nat,
{
    if s.len() > 0 {
        let t = s[0];
        let rest = s.drop_first();
        lemma_scan_line_wf(rest);
        if t == TAG_BULK || t == TAG_BULK_ERROR {
            if let LineScan::Found(c, n) = scan_line(rest) {
                if let LenField::Len(len) = len_field(c) {
                    let body = s.skip(1 + n);
                    if body.len() >= len + 2 {
                        assert(body.take(len as int).len() == len);
                    }
                }
            }
        }
        if t == TAG_ARRAY && s.len() > 0 {
            if let LineScan::Found(c, n) = scan_line(rest) {
                if let LenField::Len(cnt) = len_field(c) {
                    if d > 0 {
                        lemma_dec_wf_elems(s.skip(1 + n), cnt, (d - 1) as nat);
                    }
                }
            }
        }
        if t == TAG_MAP {
            if let LineScan::Found(c, n) = scan_line(rest) {
                if let LenField::Len(cnt) = len_field(c) {
                    if d > 0 {
                        assert(keys_sorted(Seq::<(Seq<u8>, FrameV)>::empty()));
                        assert(wf_entries_at(Seq::<(Seq<u8>, FrameV)>::empty(), (d - 1) as nat));
                        lemma_dec_wf_entries(s.skip(1 + n), cnt, (d - 1) as nat, Seq::empty());
                    }
                }
            }
        }
        if t == TAG_SET {
            if let LineScan::Found(c, n) = scan_line(rest) {
                if let LenField::Len(cnt) = len_field(c) {
                    if d > 0 {
                        assert(elems_sorted(Seq::<FrameV>::empty()));
                        assert(wf_seq_at(Seq::<FrameV>::empty(), (d - 1) as nat));
                        lemma_dec_wf_members(s.skip(1 + n), cnt, (d - 1) as nat, Seq::empty());
                    }
                }
            }
        }
    }
}

/// Decoded array elements are well-formed, count out, and fit the buffer.
proof fn lemma_dec_wf_elems(s: Seq<u8>, cnt: nat, d: nat)
    ensures
        dec_elems(s, cnt, d) matches ElemsStep::Complete(fs, m) ==> wf_seq_at(fs, d) && fs.len()
            == cnt && 0 <= m <= s.len(),
    decreases d, 1nat, cnt,
{
    if cnt == 0 {
        assert(wf_seq_at(Seq::<FrameV>::empty(), d));
    } else {
        lemma_dec_wf_frame(s, d);
        if let DecStep::Complete(f, n) = dec_frame(s, d) {
            lemma_dec_wf_elems(s.skip(n), (cnt - 1) as nat, d);
            if let ElemsStep::Complete(fs, m) = dec_elems(s.skip(n), (cnt - 1) as nat, d) {
                assert((seq![f] + fs)[0] == f);
                assert((seq![f] + fs).drop_first() =~= fs);
            }
        }
    }
}

/// A decoded entry run keeps the accumulated map sorted and well-formed
/// and grows it by at most one entry per pair read.
proof fn lemma_dec_wf_entries(s: Seq<u8>, cnt: nat, d: nat, acc: Seq<(Seq<u8>, FrameV)>)
    requires
        keys_sorted(acc),
        wf_entries_at(acc, d),
    ensures
        dec_entries(s, cnt, d, acc) matches EntriesStep::Complete(es2, j) ==> keys_sorted(es2)
            && wf_entries_at(es2, d) && es2.len() <= acc.len() + cnt && 0 <= j <= s.len(),
    decreases d, 1nat, cnt,
{
    if cnt > 0 {
        lemma_dec_wf_frame(s, d);
        if let DecStep::Complete(k, n) = dec_frame(s, d) {
            if let FrameV::SimpleString(key) = k {
                lemma_dec_wf_frame(s.skip(n), d);
                if let DecStep::Complete(v, m) = dec_frame(s.skip(n), d) {
                    crate::order::lemma_map_insert_sorted(acc, key, v);
                    crate::order::lemma_map_insert_wf(acc, key, v, d);
                    lemma_dec_wf_entries(
                        s.skip(n).skip(m),
                        (cnt - 1) as nat,
                        d,
                        map_insert(acc, key, v),
                    );
                    assert(s.skip(n).skip(m) =~= s.skip(n + m));
                }
            }
        }
    }
}

/// A decoded member run keeps the accumulated set sorted and well-formed
/// and grows it by at most one element per frame read.
proof fn lemma_dec_wf_members(s: Seq<u8>, cnt: nat, d: nat, acc: Seq<FrameV>)
    requires
        elems_sorted(acc),
        wf_seq_at(acc, d),
    ensures
        dec_members(s, cnt, d, acc) matches MembersStep::Complete(els2, m) ==> elems_sorted(els2)
            && wf_seq_at(els2, d) && els2.len() <= acc.len() + cnt && 0 <= m <= s.len(),
    decreases d, 1nat, cnt,
{
    if cnt > 0 {
        lemma_dec_wf_frame(s, d);
        if let DecStep::Complete(f, n) = dec_frame(s, d) {
            crate::order::lemma_set_insert_sorted(acc, f);
            crate::order::lemma_set_insert_wf(acc, f, d);
            lemma_dec_wf_members(s.skip(n), (cnt - 1) as nat, d, set_insert(acc, f));
        }
    }
}

/// Whatever the decoder completes is a well-formed frame that consumed
/// between one byte and the whole buffer.
pub proof fn lemma_decode_wf(s: Seq<u8>)
    ensures
        spec_decode(s) matches DecStep::Complete(f, n) ==> wf(f) && 0 < n <= s.len(),
{
    lemma_dec_wf_frame(s, MAX_DEPTH as nat);
}

} // verus!
