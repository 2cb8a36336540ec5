//! The decoder: a spec function that fixes, for every buffer, whether its
//! front holds one complete frame, too few bytes, or bytes no continuation
//! could mend — and the executable decoder proved to agree with it.

use vstd::prelude::*;
use crate::model::{
    FrameV, CR, LF, TAG_SIMPLE, TAG_ERROR, TAG_INTEGER, TAG_BULK, TAG_ARRAY, TAG_NULL,
    TAG_BOOLEAN, TAG_DOUBLE, TAG_BULK_ERROR, TAG_MAP, TAG_SET, BYTE_MINUS, BYTE_ONE, BYTE_LOWER_T,
    BYTE_LOWER_F, MAX_LEN, MAX_DEPTH, is_digit_run, digits_val, double_lex, map_insert, set_insert,
    is_digit,
};
use crate::scan::{
    LineScan, scan_line, ScanLineRes, scan_line_at, digit_run_at, parse_digits_capped,
    parse_int_at, int_ok, double_check_at, lemma_digit_run_props,
};
use crate::frame::{
    RespFrame, SimpleString, SimpleError, BulkString, BulkError, Double, Array, RespNull,
    RespNullArray, RespNullBulkString, RespMap, RespSet, frame_view, frames_view, utf8_check,
};

verus! {

/// Why a buffer's front cannot be a RESP frame under any continuation.
#[derive(Clone, Copy, Debug, PartialEq, Eq, Structural)]
pub enum MalformedKind {
    /// The first byte is not a known tag.
    UnknownTag,
    /// A bare LF, or a CR not followed by LF, where a line must end.
    MissingCrlf,
    /// An integer line whose content is not a signed 64-bit decimal.
    BadInteger,
    /// A boolean line whose content is neither `t` nor `f`.
    BadBoolean,
    /// A double line whose content is not a decimal or exponential number.
    BadDouble,
    /// A null line that carries content.
    BadNull,
    /// A length field that is not a decimal number.
    BadLength,
    /// A negative length other than the legacy `-1` sentinels.
    NegativeLength,
    /// A declared length or count beyond the configured maximum.
    LengthLimit,
    /// Aggregates nested deeper than the configured maximum.
    DepthLimit,
    /// A bulk error payload that is not valid UTF-8.
    NotUtf8,
    /// A map key that is not a simple string frame.
    BadMapKey,
}

/// The outcome of decoding one frame from the front of a buffer.
pub enum DecStep {
    Complete(FrameV, int),
    Incomplete,
    Malformed(MalformedKind),
}

/// The outcome of decoding a run of array elements.
pub enum ElemsStep {
    Complete(Seq<FrameV>, int),
    Incomplete,
    Malformed(MalformedKind),
}

/// The outcome of decoding a run of map entries into an accumulated map.
pub enum EntriesStep {
    Complete(Seq<(Seq<u8>, FrameV)>, int),
    Incomplete,
    Malformed(MalformedKind),
}

/// The outcome of decoding a run of set elements into an accumulated set.
pub enum MembersStep {
    Complete(Seq<FrameV>, int),
    Incomplete,
    Malformed(MalformedKind),
}

/// What a length or count line's content denotes: the legacy `-1` sentinel,
/// another negative, a non-number, a number over the limit, or a length.
pub enum LenField {
    Sentinel,
    Neg,
    Bad,
    Over,
    Len(nat),
}

pub open spec fn len_field(c: Seq<u8>) -> LenField {
    if c == seq![BYTE_MINUS, BYTE_ONE] {
        LenField::Sentinel
    } else if c.len() > 0 && c[0] == BYTE_MINUS {
        LenField::Neg
    } else if !is_digit_run(c) {
        LenField::Bad
    } else if digits_val(c) > MAX_LEN {
        LenField::Over
    } else {
        LenField::Len(digits_val(c))
    }
}

/// Decode one frame from the front of `s`, following aggregates at most
/// `d` levels deep.
pub open spec fn dec_frame(s: Seq<u8>, d: nat) -> DecStep
    decreases d, 0nat, 0nat,
{
    if s.len() == 0 {
        DecStep::Incomplete
    } else {
        let t = s[0];
        let rest = s.drop_first();
        if t == TAG_SIMPLE {
            match scan_line(rest) {
                LineScan::Found(c, n) => DecStep::Complete(FrameV::SimpleString(c), 1 + n),
                LineScan::Partial => DecStep::Incomplete,
                LineScan::Broken => DecStep::Malformed(MalformedKind::MissingCrlf),
            }
        } else if t == TAG_ERROR {
            match scan_line(rest) {
                LineScan::Found(c, n) => DecStep::Complete(FrameV::SimpleError(c), 1 + n),
                LineScan::Partial => DecStep::Incomplete,
                LineScan::Broken => DecStep::Malformed(MalformedKind::MissingCrlf),
            }
        } else if t == TAG_INTEGER {
            match scan_line(rest) {
                LineScan::Found(c, n) => match int_ok(c) {
                    Some(v) => DecStep::Complete(FrameV::Integer(v), 1 + n),
                    None => DecStep::Malformed(MalformedKind::BadInteger),
                },
                LineScan::Partial => DecStep::Incomplete,
                LineScan::Broken => DecStep::Malformed(MalformedKind::MissingCrlf),
            }
        } else if t == TAG_BOOLEAN {
            match scan_line(rest) {
                LineScan::Found(c, n) => if c == seq![BYTE_LOWER_T] {
                    DecStep::Complete(FrameV::Boolean(true), 1 + n)
                } else if c == seq![BYTE_LOWER_F] {
                    DecStep::Complete(FrameV::Boolean(false), 1 + n)
                } else {
                    DecStep::Malformed(MalformedKind::BadBoolean)
                },
                LineScan::Partial => DecStep::Incomplete,
                LineScan::Broken => DecStep::Malformed(MalformedKind::MissingCrlf),
            }
        } else if t == TAG_NULL {
            match scan_line(rest) {
                LineScan::Found(c, n) => if c.len() == 0 {
                    DecStep::Complete(FrameV::Null, 1 + n)
                } else {
                    DecStep::Malformed(MalformedKind::BadNull)
                },
                LineScan::Partial => DecStep::Incomplete,
                LineScan::Broken => DecStep::Malformed(MalformedKind::MissingCrlf),
            }
        } else if t == TAG_DOUBLE {
            match scan_line(rest) {
                LineScan::Found(c, n) => if double_lex(c) {
                    DecStep::Complete(FrameV::Double(c), 1 + n)
                } else {
                    DecStep::Malformed(MalformedKind::BadDouble)
                },
                LineScan::Partial => DecStep::Incomplete,
                LineScan::Broken => DecStep::Malformed(MalformedKind::MissingCrlf),
            }
        } else if t == TAG_BULK {
            match scan_line(rest) {
                LineScan::Found(c, n) => match len_field(c) {
                    LenField::Sentinel => DecStep::Complete(FrameV::NullBulkString, 1 + n),
                    LenField::Neg => DecStep::Malformed(MalformedKind::NegativeLength),
                    LenField::Bad => DecStep::Malformed(MalformedKind::BadLength),
                    LenField::Over => DecStep::Malformed(MalformedKind::LengthLimit),
                    LenField::Len(len) => {
                        let body = s.skip(1 + n);
                        if body.len() < len + 2 {
                            DecStep::Incomplete
                        } else if body[len as int] == CR && body[len as int + 1] == LF {
                            DecStep::Complete(
                                FrameV::BulkString(body.take(len as int)),
                                1 + n + len + 2,
                            )
                        } else {
                            DecStep::Malformed(MalformedKind::MissingCrlf)
                        }
                    },
                },
                LineScan::Partial => DecStep::Incomplete,
                LineScan::Broken => DecStep::Malformed(MalformedKind::MissingCrlf),
            }
        } else if t == TAG_BULK_ERROR {
            match scan_line(rest) {
                LineScan::Found(c, n) => match len_field(c) {
                    LenField::Sentinel => DecStep::Malformed(MalformedKind::NegativeLength),
                    LenField::Neg => DecStep::Malformed(MalformedKind::NegativeLength),
                    LenField::Bad => DecStep::Malformed(MalformedKind::BadLength),
                    LenField::Over => DecStep::Malformed(MalformedKind::LengthLimit),
                    LenField::Len(len) => {
                        let body = s.skip(1 + n);
                        if body.len() < len + 2 {
                            DecStep::Incomplete
                        } else if !(body[len as int] == CR && body[len as int + 1] == LF) {
                            DecStep::Malformed(MalformedKind::MissingCrlf)
                        } else if !vstd::utf8::valid_utf8(body.take(len as int)) {
                            DecStep::Malformed(MalformedKind::NotUtf8)
                        } else {
                            DecStep::Complete(
                                FrameV::BulkError(body.take(len as int)),
                                1 + n + len + 2,
                            )
                        }
                    },
                },
                LineScan::Partial => DecStep::Incomplete,
                LineScan::Broken => DecStep::Malformed(MalformedKind::MissingCrlf),
            }
        } else if t == TAG_ARRAY {
            match scan_line(rest) {
                LineScan::Found(c, n) => match len_field(c) {
                    LenField::Sentinel => DecStep::Complete(FrameV::NullArray, 1 + n),
                    LenField::Neg => DecStep::Malformed(MalformedKind::NegativeLength),
                    LenField::Bad => DecStep::Malformed(MalformedKind::BadLength),
                    LenField::Over => DecStep::Malformed(MalformedKind::LengthLimit),
                    LenField::Len(cnt) => if d == 0 {
                        DecStep::Malformed(MalformedKind::DepthLimit)
                    } else {
                        match dec_elems(s.skip(1 + n), cnt, (d - 1) as nat) {
                            ElemsStep::Complete(fs, m) => DecStep::Complete(
                                FrameV::Array(fs),
                                1 + n + m,
                            ),
                            ElemsStep::Incomplete => DecStep::Incomplete,
                            ElemsStep::Malformed(k) => DecStep::Malformed(k),
                        }
                    },
                },
                LineScan::Partial => DecStep::Incomplete,
                LineScan::Broken => DecStep::Malformed(MalformedKind::MissingCrlf),
            }
        } else if t == TAG_MAP {
            match scan_line(rest) {
                LineScan::Found(c, n) => match len_field(c) {
                    LenField::Sentinel => DecStep::Malformed(MalformedKind::NegativeLength),
                    LenField::Neg => DecStep::Malformed(MalformedKind::NegativeLength),
                    LenField::Bad => DecStep::Malformed(MalformedKind::BadLength),
                    LenField::Over => DecStep::Malformed(MalformedKind::LengthLimit),
                    LenField::Len(cnt) => if d == 0 {
                        DecStep::Malformed(MalformedKind::DepthLimit)
                    } else {
                        match dec_entries(s.skip(1 + n), cnt, (d - 1) as nat, Seq::empty()) {
                            EntriesStep::Complete(es, m) => DecStep::Complete(
                                FrameV::MapFrame(es),
                                1 + n + m,
                            ),
                            EntriesStep::Incomplete => DecStep::Incomplete,
                            EntriesStep::Malformed(k) => DecStep::Malformed(k),
                        }
                    },
                },
                LineScan::Partial => DecStep::Incomplete,
                LineScan::Broken => DecStep::Malformed(MalformedKind::MissingCrlf),
            }
        } else if t == TAG_SET {
            match scan_line(rest) {
                LineScan::Found(c, n) => match len_field(c) {
                    LenField::Sentinel => DecStep::Malformed(MalformedKind::NegativeLength),
                    LenField::Neg => DecStep::Malformed(MalformedKind::NegativeLength),
                    LenField::Bad => DecStep::Malformed(MalformedKind::BadLength),
                    LenField::Over => DecStep::Malformed(MalformedKind::LengthLimit),
                    LenField::Len(cnt) => if d == 0 {
                        DecStep::Malformed(MalformedKind::DepthLimit)
                    } else {
                        match dec_members(s.skip(1 + n), cnt, (d - 1) as nat, Seq::empty()) {
                            MembersStep::Complete(els, m) => DecStep::Complete(
                                FrameV::SetFrame(els),
                                1 + n + m,
                            ),
                            MembersStep::Incomplete => DecStep::Incomplete,
                            MembersStep::Malformed(k) => DecStep::Malformed(k),
                        }
                    },
                },
                LineScan::Partial => DecStep::Incomplete,
                LineScan::Broken => DecStep::Malformed(MalformedKind::MissingCrlf),
            }
        } else {
            DecStep::Malformed(MalformedKind::UnknownTag)
        }
    }
}

/// Decode `cnt` consecutive frames, array style.
pub open spec fn dec_elems(s: Seq<u8>, cnt: nat, d: nat) -> ElemsStep
    decreases d, 1nat, cnt,
{
    if cnt == 0 {
        ElemsStep::Complete(Seq::empty(), 0)
    } else {
        match dec_frame(s, d) {
            DecStep::Complete(f, n) => match dec_elems(s.skip(n), (cnt - 1) as nat, d) {
                ElemsStep::Complete(fs, m) => ElemsStep::Complete(seq![f] + fs, n + m),
                ElemsStep::Incomplete => ElemsStep::Incomplete,
                ElemsStep::Malformed(k) => ElemsStep::Malformed(k),
            },
            DecStep::Incomplete => ElemsStep::Incomplete,
            DecStep::Malformed(k) => ElemsStep::Malformed(k),
        }
    }
}

/// Decode `cnt` key-value pairs, inserting each into the accumulated map;
/// a key that is not a simple string is malformed.
pub open spec fn dec_entries(s: Seq<u8>, cnt: nat, d: nat, acc: Seq<(Seq<u8>, FrameV)>) -> EntriesStep
    decreases d, 1nat, cnt,
{
    if cnt == 0 {
        EntriesStep::Complete(acc, 0)
    } else {
        match dec_frame(s, d) {
            DecStep::Complete(k, n) => match k {
                FrameV::SimpleString(key) => match dec_frame(s.skip(n), d) {
                    DecStep::Complete(v, m) => match dec_entries(
                        s.skip(n).skip(m),
                        (cnt - 1) as nat,
                        d,
                        map_insert(acc, key, v),
                    ) {
                        EntriesStep::Complete(es, j) => EntriesStep::Complete(es, n + m + j),
                        EntriesStep::Incomplete => EntriesStep::Incomplete,
                        EntriesStep::Malformed(kk) => EntriesStep::Malformed(kk),
                    },
                    DecStep::Incomplete => EntriesStep::Incomplete,
                    DecStep::Malformed(kk) => EntriesStep::Malformed(kk),
                },
                _ => EntriesStep::Malformed(MalformedKind::BadMapKey),
            },
            DecStep::Incomplete => EntriesStep::Incomplete,
            DecStep::Malformed(kk) => EntriesStep::Malformed(kk),
        }
    }
}

/// Decode `cnt` consecutive frames, inserting each into the accumulated set.
pub open spec fn dec_members(s: Seq<u8>, cnt: nat, d: nat, acc: Seq<FrameV>) -> MembersStep
    decreases d, 1nat, cnt,
{
    if cnt == 0 {
        MembersStep::Complete(acc, 0)
    } else {
        match dec_frame(s, d) {
            DecStep::Complete(f, n) => match dec_members(
                s.skip(n),
                (cnt - 1) as nat,
                d,
                set_insert(acc, f),
            ) {
                MembersStep::Complete(els, m) => MembersStep::Complete(els, n + m),
                MembersStep::Incomplete => MembersStep::Incomplete,
                MembersStep::Malformed(k) => MembersStep::Malformed(k),
            },
            DecStep::Incomplete => MembersStep::Incomplete,
            DecStep::Malformed(k) => MembersStep::Malformed(k),
        }
    }
}

/// What decoding the whole buffer's front yields at the configured limits.
pub open spec fn spec_decode(s: Seq<u8>) -> DecStep {
    dec_frame(s, MAX_DEPTH as nat)
}

/// What calling the decoder on a buffer yields: one complete frame and the
/// bytes it consumed, a report that more bytes are needed, or a report that
/// the stream is broken beyond repair.
#[derive(Debug, PartialEq, Eq)]
pub enum DecodeOutcome {
    Complete(RespFrame, usize),
    Incomplete,
    Malformed(MalformedKind),
}

/// The decoder agrees with the spec decoder on buffer `s` at depth `d`.
pub open spec fn decode_rel(s: Seq<u8>, d: nat, r: DecodeOutcome) -> bool {
    match r {
        DecodeOutcome::Complete(f, n) => dec_frame(s, d) == DecStep::Complete(
            frame_view(f),
            n as int,
        ) && n <= s.len(),
        DecodeOutcome::Incomplete => dec_frame(s, d) == DecStep::Incomplete,
        DecodeOutcome::Malformed(k) => dec_frame(s, d) == DecStep::Malformed(k),
    }
}

enum ElemsOutcome {
    Complete(Vec<RespFrame>, usize),
    Incomplete,
    Malformed(MalformedKind),
}

enum EntriesOutcome {
    Complete(RespMap, usize),
    Incomplete,
    Malformed(MalformedKind),
}

enum MembersOutcome {
    Complete(RespSet, usize),
    Incomplete,
    Malformed(MalformedKind),
}

enum LenFieldRes {
    Sentinel,
    Neg,
    Bad,
    Over,
    Len(usize),
}

/// Copy the bytes in `[from, to)` into an owned vector.
fn copy_range(data: &[u8], from: usize, to: usize) -> (r: Vec<u8>)
    requires
        from <= to <= data@.len(),
    ensures
        r@ == data@.subrange(from as int, to as int),
{
    vstd::slice::slice_to_vec(vstd::slice::slice_subrange(data, from, to))
}

/// Read the length or count line content in `[from, to)`.
fn len_field_at(data: &[u8], from: usize, to: usize) -> (r: LenFieldRes)
    requires
        from <= to <= data@.len(),
    ensures
        ({
            let c = data@.subrange(from as int, to as int);
            match r {
                LenFieldRes::Sentinel => len_field(c) == LenField::Sentinel,
                LenFieldRes::Neg => len_field(c) == LenField::Neg,
                LenFieldRes::Bad => len_field(c) == LenField::Bad,
                LenFieldRes::Over => len_field(c) == LenField::Over,
                LenFieldRes::Len(l) => len_field(c) == LenField::Len(l as nat) && l <= MAX_LEN,
            }
        }),
{
    let ghost c = data@.subrange(from as int, to as int);
    if to - from == 2 && data[from] == BYTE_MINUS && data[from + 1] == BYTE_ONE {
        proof {
            assert(c =~= seq![BYTE_MINUS, BYTE_ONE]);
        }
        return LenFieldRes::Sentinel;
    }
    proof {
        if c == seq![BYTE_MINUS, BYTE_ONE] {
            assert(c[0] == data@[from as int]);
            assert(c[1] == data@[from + 1]);
        }
    }
    if to > from && data[from] == BYTE_MINUS {
        proof {
            assert(c[0] == data@[from as int]);
        }
        return LenFieldRes::Neg;
    }
    proof {
        if c.len() > 0 {
            assert(c[0] == data@[from as int]);
        }
    }
    let run: usize = digit_run_at(data, from, to);
    if run == 0 || from + run != to {
        proof {
            lemma_digit_run_props(c);
            if is_digit_run(c) {
                assert(crate::model::digit_run(c) == c.len()) by {
                    if crate::model::digit_run(c) < c.len() {
                        assert(is_digit(c[crate::model::digit_run(c) as int]));
                    }
                }
            }
        }
        return LenFieldRes::Bad;
    }
    proof {
        lemma_digit_run_props(c);
        assert(crate::model::all_digits(c));
    }
    match parse_digits_capped(data, from, to, MAX_LEN as u64) {
        None => LenFieldRes::Over,
        Some(v) => LenFieldRes::Len(v as usize),
    }
}

/// Decode a one-line frame (status, error, integer, boolean, null, double).
fn dec_line_at(data: &[u8], pos: usize, d: u32) -> (r: DecodeOutcome)
    requires
        pos < data@.len(),
        data@[pos as int] == TAG_SIMPLE || data@[pos as int] == TAG_ERROR || data@[pos as int]
            == TAG_INTEGER || data@[pos as int] == TAG_BOOLEAN || data@[pos as int] == TAG_NULL
            || data@[pos as int] == TAG_DOUBLE,
    ensures
        decode_rel(data@.skip(pos as int), d as nat, r),
{
    let ghost s = data@.skip(pos as int);
    let t: u8 = data[pos];
    proof {
        assert(s[0] == data@[pos as int]);
        assert(s.drop_first() =~= data@.skip(pos + 1));
    }
    match scan_line_at(data, pos + 1) {
        ScanLineRes::Partial => DecodeOutcome::Incomplete,
        ScanLineRes::Broken => DecodeOutcome::Malformed(MalformedKind::MissingCrlf),
        ScanLineRes::Found(end) => {
            let ghost c = data@.subrange(pos + 1, end as int);
            let consumed: usize = end + 2 - pos;
            if t == TAG_SIMPLE {
                let content: Vec<u8> = copy_range(data, pos + 1, end);
                DecodeOutcome::Complete(
                    RespFrame::SimpleString(SimpleString { data: content }),
                    consumed,
                )
            } else if t == TAG_ERROR {
                let content: Vec<u8> = copy_range(data, pos + 1, end);
                DecodeOutcome::Complete(
                    RespFrame::SimpleError(SimpleError { data: content }),
                    consumed,
                )
            } else if t == TAG_INTEGER {
                match parse_int_at(data, pos + 1, end) {
                    Some(v) => DecodeOutcome::Complete(RespFrame::Integer(v), consumed),
                    None => DecodeOutcome::Malformed(MalformedKind::BadInteger),
                }
            } else if t == TAG_BOOLEAN {
                if end > pos + 1 {
                    proof {
                        assert(c[0] == data@[pos + 1]);
                    }
                }
                if end == pos + 2 {
                    proof {
                        assert(c =~= seq![data@[pos + 1]]);
                    }
                    if data[pos + 1] == BYTE_LOWER_T {
                        DecodeOutcome::Complete(RespFrame::Boolean(true), consumed)
                    } else if data[pos + 1] == BYTE_LOWER_F {
                        DecodeOutcome::Complete(RespFrame::Boolean(false), consumed)
                    } else {
                        DecodeOutcome::Malformed(MalformedKind::BadBoolean)
                    }
                } else {
                    proof {
                        assert(c.len() != 1);
                    }
                    DecodeOutcome::Malformed(MalformedKind::BadBoolean)
                }
            } else if t == TAG_NULL {
                if end == pos + 1 {
                    DecodeOutcome::Complete(RespFrame::Null(RespNull), consumed)
                } else {
                    DecodeOutcome::Malformed(MalformedKind::BadNull)
                }
            } else {
                if double_check_at(data, pos + 1, end) {
                    let content: Vec<u8> = copy_range(data, pos + 1, end);
                    DecodeOutcome::Complete(RespFrame::Double(Double { data: content }), consumed)
                } else {
                    DecodeOutcome::Malformed(MalformedKind::BadDouble)
                }
            }
        },
    }
}

/// Decode a length-prefixed frame (bulk string or bulk error).
fn dec_payload_at(data: &[u8], pos: usize, d: u32) -> (r: DecodeOutcome)
    requires
        pos < data@.len(),
        data@[pos as int] == TAG_BULK || data@[pos as int] == TAG_BULK_ERROR,
    ensures
        decode_rel(data@.skip(pos as int), d as nat, r),
{
    let ghost s = data@.skip(pos as int);
    let t: u8 = data[pos];
    proof {
        assert(s[0] == data@[pos as int]);
        assert(s.drop_first() =~= data@.skip(pos + 1));
    }
    match scan_line_at(data, pos + 1) {
        ScanLineRes::Partial => DecodeOutcome::Incomplete,
        ScanLineRes::Broken => DecodeOutcome::Malformed(MalformedKind::MissingCrlf),
        ScanLineRes::Found(end) => {
            let ghost c = data@.subrange(pos + 1, end as int);
            match len_field_at(data, pos + 1, end) {
                LenFieldRes::Sentinel => {
                    if t == TAG_BULK {
                        DecodeOutcome::Complete(
                            RespFrame::NullBulkString(RespNullBulkString),
                            end + 2 - pos,
                        )
                    } else {
                        DecodeOutcome::Malformed(MalformedKind::NegativeLength)
                    }
                },
                LenFieldRes::Neg => DecodeOutcome::Malformed(MalformedKind::NegativeLength),
                LenFieldRes::Bad => DecodeOutcome::Malformed(MalformedKind::BadLength),
                LenFieldRes::Over => DecodeOutcome::Malformed(MalformedKind::LengthLimit),
                LenFieldRes::Len(l) => {
                    let body_start: usize = end + 2;
                    let ghost body = s.skip(body_start - pos);
                    proof {
                        assert(body =~= data@.skip(body_start as int));
                    }
                    if data.len() - body_start < l + 2 {
                        DecodeOutcome::Incomplete
                    } else {
                        proof {
                            assert(body[l as int] == data@[body_start + l]);
                            assert(body[l as int + 1] == data@[body_start + l + 1]);
                        }
                        if data[body_start + l] == CR && data[body_start + l + 1] == LF {
                            let payload: Vec<u8> = copy_range(data, body_start, body_start + l);
                            proof {
                                assert(payload@ =~= body.take(l as int));
                            }
                            let consumed: usize = body_start + l + 2 - pos;
                            if t == TAG_BULK {
                                DecodeOutcome::Complete(
                                    RespFrame::BulkString(BulkString { data: payload }),
                                    consumed,
                                )
                            } else {
                                if utf8_check(payload.as_slice()) {
                                    DecodeOutcome::Complete(
                                        RespFrame::BulkError(BulkError { data: payload }),
                                        consumed,
                                    )
                                } else {
                                    DecodeOutcome::Malformed(MalformedKind::NotUtf8)
                                }
                            }
                        } else {
                            DecodeOutcome::Malformed(MalformedKind::MissingCrlf)
                        }
                    }
                },
            }
        },
    }
}

/// Decode one frame from position `pos`, following aggregates at most `d`
/// levels deep.
fn dec_at(data: &[u8], pos: usize, d: u32) -> (r: DecodeOutcome)
    requires
        pos <= data@.len(),
    ensures
        decode_rel(data@.skip(pos as int), d as nat, r),
    decreases d, 0nat, 0nat,
{
    let ghost s = data@.skip(pos as int);
    if pos == data.len() {
        return DecodeOutcome::Incomplete;
    }
    let t: u8 = data[pos];
    proof {
        assert(s[0] == data@[pos as int]);
        assert(s.drop_first() =~= data@.skip(pos + 1));
    }
    if t == TAG_SIMPLE || t == TAG_ERROR || t == TAG_INTEGER || t == TAG_BOOLEAN || t == TAG_NULL
        || t == TAG_DOUBLE {
        dec_line_at(data, pos, d)
    } else if t == TAG_BULK || t == TAG_BULK_ERROR {
        dec_payload_at(data, pos, d)
    } else if t == TAG_ARRAY || t == TAG_MAP || t == TAG_SET {
        match scan_line_at(data, pos + 1) {
            ScanLineRes::Partial => DecodeOutcome::Incomplete,
            ScanLineRes::Broken => DecodeOutcome::Malformed(MalformedKind::MissingCrlf),
            ScanLineRes::Found(end) => {
                let ghost c = data@.subrange(pos + 1, end as int);
                match len_field_at(data, pos + 1, end) {
                    LenFieldRes::Sentinel => {
                        if t == TAG_ARRAY {
                            DecodeOutcome::Complete(
                                RespFrame::NullArray(RespNullArray),
                                end + 2 - pos,
                            )
                        } else {
                            DecodeOutcome::Malformed(MalformedKind::NegativeLength)
                        }
                    },
                    LenFieldRes::Neg => DecodeOutcome::Malformed(MalformedKind::NegativeLength),
                    LenFieldRes::Bad => DecodeOutcome::Malformed(MalformedKind::BadLength),
                    LenFieldRes::Over => DecodeOutcome::Malformed(MalformedKind::LengthLimit),
                    LenFieldRes::Len(cnt) => {
                        if d == 0 {
                            return DecodeOutcome::Malformed(MalformedKind::DepthLimit);
                        }
                        let body_start: usize = end + 2;
                        proof {
                            assert(s.skip(body_start - pos) =~= data@.skip(body_start as int));
                        }
                        if t == TAG_ARRAY {
                            match dec_elems_at(data, body_start, cnt, d - 1) {
                                ElemsOutcome::Complete(fs, m) => DecodeOutcome::Complete(
                                    RespFrame::Array(Array { elems: fs }),
                                    end + 2 - pos + m,
                                ),
                                ElemsOutcome::Incomplete => DecodeOutcome::Incomplete,
                                ElemsOutcome::Malformed(k) => DecodeOutcome::Malformed(k),
                            }
                        } else if t == TAG_MAP {
                            match dec_entries_at(data, body_start, cnt, d - 1, RespMap::new()) {
                                EntriesOutcome::Complete(mm, m) => DecodeOutcome::Complete(
                                    RespFrame::MapFrame(mm),
                                    end + 2 - pos + m,
                                ),
                                EntriesOutcome::Incomplete => DecodeOutcome::Incomplete,
                                EntriesOutcome::Malformed(k) => DecodeOutcome::Malformed(k),
                            }
                        } else {
                            match dec_members_at(data, body_start, cnt, d - 1, RespSet::new()) {
                                MembersOutcome::Complete(ss, m) => DecodeOutcome::Complete(
                                    RespFrame::SetFrame(ss),
                                    end + 2 - pos + m,
                                ),
                                MembersOutcome::Incomplete => DecodeOutcome::Incomplete,
                                MembersOutcome::Malformed(k) => DecodeOutcome::Malformed(k),
                            }
                        }
                    },
                }
            },
        }
    } else {
        DecodeOutcome::Malformed(MalformedKind::UnknownTag)
    }
}

/// Decode `cnt` consecutive frames from `pos`, array style.
fn dec_elems_at(data: &[u8], pos: usize, cnt: usize, d: u32) -> (r: ElemsOutcome)
    requires
        pos <= data@.len(),
    ensures
        ({
            let s = data@.skip(pos as int);
            match r {
                ElemsOutcome::Complete(fs, m) => dec_elems(s, cnt as nat, d as nat)
                    == ElemsStep::Complete(frames_view(fs@), m as int) && m <= s.len(),
                ElemsOutcome::Incomplete => dec_elems(s, cnt as nat, d as nat)
                    == ElemsStep::Incomplete,
                ElemsOutcome::Malformed(k) => dec_elems(s, cnt as nat, d as nat)
                    == ElemsStep::Malformed(k),
            }
        }),
    decreases d, 1nat, cnt,
{
    // pin the buffer length into usize so that offset sums stay in bounds
    let total: usize = data.len();
    proof {
        assert(total == data@.len());
    }
    if cnt == 0 {
        return ElemsOutcome::Complete(Vec::new(), 0);
    }
    match dec_at(data, pos, d) {
        DecodeOutcome::Complete(f, n) => {
            proof {
                assert(n <= data@.skip(pos as int).len());
                assert(data@.skip(pos as int).len() == data@.len() - pos);
                assert(data@.skip(pos as int).skip(n as int) =~= data@.skip(pos + n));
            }
            match dec_elems_at(data, pos + n, cnt - 1, d) {
                ElemsOutcome::Complete(fs, m) => {
                    let ghost tail = fs@;
                    let ghost fv = frame_view(f);
                    let mut fs2: Vec<RespFrame> = fs;
                    fs2.insert(0, f);
                    proof {
                        assert(fs2@[0] == fs2@.index(0));
                        assert(fs2@.drop_first() =~= tail);
                        assert(frames_view(fs2@) == seq![fv] + frames_view(tail));
                    }
                    ElemsOutcome::Complete(fs2, n + m)
                },
                ElemsOutcome::Incomplete => ElemsOutcome::Incomplete,
                ElemsOutcome::Malformed(k) => ElemsOutcome::Malformed(k),
            }
        },
        DecodeOutcome::Incomplete => ElemsOutcome::Incomplete,
        DecodeOutcome::Malformed(k) => ElemsOutcome::Malformed(k),
    }
}

/// Decode `cnt` key-value pairs from `pos` into the accumulated map.
fn dec_entries_at(data: &[u8], pos: usize, cnt: usize, d: u32, acc: RespMap) -> (r: EntriesOutcome)
    requires
        pos <= data@.len(),
    ensures
        ({
            let s = data@.skip(pos as int);
            match r {
                EntriesOutcome::Complete(mm, j) => dec_entries(s, cnt as nat, d as nat, acc@)
                    == EntriesStep::Complete(mm@, j as int) && j <= s.len(),
                EntriesOutcome::Incomplete => dec_entries(s, cnt as nat, d as nat, acc@)
                    == EntriesStep::Incomplete,
                EntriesOutcome::Malformed(k) => dec_entries(s, cnt as nat, d as nat, acc@)
                    == EntriesStep::Malformed(k),
            }
        }),
    decreases d, 1nat, cnt,
{
    // pin the buffer length into usize so that offset sums stay in bounds
    let total: usize = data.len();
    proof {
        assert(total == data@.len());
    }
    if cnt == 0 {
        return EntriesOutcome::Complete(acc, 0);
    }
    match dec_at(data, pos, d) {
        DecodeOutcome::Complete(kf, n) => {
            proof {
                assert(n <= data@.skip(pos as int).len());
                assert(data@.skip(pos as int).skip(n as int) =~= data@.skip(pos + n));
            }
            match kf {
                RespFrame::SimpleString(ss) => {
                    match dec_at(data, pos + n, d) {
                        DecodeOutcome::Complete(vf, m) => {
                            let ghost accv = acc@;
                            let ghost keyv = ss.data@;
                            let ghost vv = frame_view(vf);
                            let mut acc2: RespMap = acc;
                            acc2.insert(ss.data, vf);
                            proof {
                                assert(m <= data@.skip((pos + n) as int).len());
                                assert(data@.skip(pos + n).skip(m as int) =~= data@.skip(
                                    pos + n + m,
                                ));
                                assert(data@.skip(pos as int).skip(n as int).skip(m as int)
                                    =~= data@.skip(pos + n + m));
                            }
                            match dec_entries_at(data, pos + n + m, cnt - 1, d, acc2) {
                                EntriesOutcome::Complete(mm, j) => EntriesOutcome::Complete(
                                    mm,
                                    n + m + j,
                                ),
                                EntriesOutcome::Incomplete => EntriesOutcome::Incomplete,
                                EntriesOutcome::Malformed(k) => EntriesOutcome::Malformed(k),
                            }
                        },
                        DecodeOutcome::Incomplete => EntriesOutcome::Incomplete,
                        DecodeOutcome::Malformed(k) => EntriesOutcome::Malformed(k),
                    }
                },
                _ => EntriesOutcome::Malformed(MalformedKind::BadMapKey),
            }
        },
        DecodeOutcome::Incomplete => EntriesOutcome::Incomplete,
        DecodeOutcome::Malformed(k) => EntriesOutcome::Malformed(k),
    }
}

/// Decode `cnt` consecutive frames from `pos` into the accumulated set.
fn dec_members_at(data: &[u8], pos: usize, cnt: usize, d: u32, acc: RespSet) -> (r: MembersOutcome)
    requires
        pos <= data@.len(),
    ensures
        ({
            let s = data@.skip(pos as int);
            match r {
                MembersOutcome::Complete(ss, m) => dec_members(s, cnt as nat, d as nat, acc@)
                    == MembersStep::Complete(ss@, m as int) && m <= s.len(),
                MembersOutcome::Incomplete => dec_members(s, cnt as nat, d as nat, acc@)
                    == MembersStep::Incomplete,
                MembersOutcome::Malformed(k) => dec_members(s, cnt as nat, d as nat, acc@)
                    == MembersStep::Malformed(k),
            }
        }),
    decreases d, 1nat, cnt,
{
    // pin the buffer length into usize so that offset sums stay in bounds
    let total: usize = data.len();
    proof {
        assert(total == data@.len());
    }
    if cnt == 0 {
        return MembersOutcome::Complete(acc, 0);
    }
    match dec_at(data, pos, d) {
        DecodeOutcome::Complete(f, n) => {
            let ghost accv = acc@;
            let ghost fv = frame_view(f);
            let mut acc2: RespSet = acc;
            acc2.insert(f);
            proof {
                assert(n <= data@.skip(pos as int).len());
                assert(data@.skip(pos as int).skip(n as int) =~= data@.skip(pos + n));
            }
            match dec_members_at(data, pos + n, cnt - 1, d, acc2) {
                MembersOutcome::Complete(ss, m) => MembersOutcome::Complete(ss, n + m),
                MembersOutcome::Incomplete => MembersOutcome::Incomplete,
                MembersOutcome::Malformed(k) => MembersOutcome::Malformed(k),
            }
        },
        DecodeOutcome::Incomplete => MembersOutcome::Incomplete,
        DecodeOutcome::Malformed(k) => MembersOutcome::Malformed(k),
    }
}

/// Decode one frame from the front of `data`.  `Complete` carries the frame
/// and how many bytes it consumed; `Incomplete` means the front is a valid
/// frame start that needs more bytes; `Malformed` means no continuation of
/// the buffer can be a frame, and names why.
pub fn decode(data: &[u8]) -> (r: DecodeOutcome)
    ensures
        decode_rel(data@, MAX_DEPTH as nat, r),
        r matches DecodeOutcome::Complete(f, n) ==> crate::model::wf(f@) && 0 < n <= data@.len(),
{
    proof {
        assert(data@.skip(0) =~= data@);
        crate::laws::lemma_decode_wf(data@);
    }
    dec_at(data, 0, MAX_DEPTH)
}

/// A type whose values can be decoded from the front of a byte buffer.
pub trait RespDecode {
    /// Decode one frame, reporting the bytes consumed, or that more bytes
    /// are needed, or that the stream is broken.
    fn decode(data: &[u8]) -> (r: DecodeOutcome)
        ensures
            decode_rel(data@, MAX_DEPTH as nat, r),
    ;
}

impl RespDecode for RespFrame {
    fn decode(data: &[u8]) -> (r: DecodeOutcome) {
        crate::decode::decode(data)
    }
}

} // verus!
