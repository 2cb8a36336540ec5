//! The encoder: the canonical byte sequence of a frame, as a spec function
//! over the model, and the executable serialiser proved to produce it.

use vstd::prelude::*;
use crate::model::{
    FrameV, CR, LF, TAG_SIMPLE, TAG_ERROR, TAG_INTEGER, TAG_BULK, TAG_ARRAY, TAG_NULL,
    TAG_BOOLEAN, TAG_DOUBLE, TAG_BULK_ERROR, TAG_MAP, TAG_SET, BYTE_PLUS, BYTE_MINUS, BYTE_ONE,
    BYTE_ZERO, BYTE_LOWER_T, BYTE_LOWER_F,
};
use crate::frame::{
    RespFrame, SimpleString, SimpleError, BulkString, BulkError, Double, Array, RespNull,
    RespNullArray, RespNullBulkString, RespMap, RespSet, frame_view, frames_view, entries_view,
};

verus! {

pub open spec fn crlf() -> Seq<u8> {
    seq![CR, LF]
}

/// The decimal digits of `n`, most significant first, no sign, no padding.
pub open spec fn dec_rep(n: nat) -> Seq<u8>
    decreases n,
{
    if n < 10 {
        seq![(BYTE_ZERO + n) as u8]
    } else {
        dec_rep(n / 10).push((BYTE_ZERO + n % 10) as u8)
    }
}

/// A one-line frame: tag, content, CRLF.
pub open spec fn enc_line(tag: u8, content: Seq<u8>) -> Seq<u8> {
    seq![tag] + content + crlf()
}

/// A tag followed by a decimal length or count and CRLF.
pub open spec fn enc_header(tag: u8, n: nat) -> Seq<u8> {
    seq![tag] + dec_rep(n) + crlf()
}

/// A length-prefixed payload: header, raw bytes, CRLF.
pub open spec fn enc_bulk(tag: u8, p: Seq<u8>) -> Seq<u8> {
    enc_header(tag, p.len()) + p + crlf()
}

/// An integer line: `:`, an explicit sign, the magnitude, CRLF.
pub open spec fn enc_int_line(n: int) -> Seq<u8> {
    if n < 0 {
        seq![TAG_INTEGER, BYTE_MINUS] + dec_rep((-n) as nat) + crlf()
    } else {
        seq![TAG_INTEGER, BYTE_PLUS] + dec_rep(n as nat) + crlf()
    }
}

/// The canonical encoding of a frame value.
pub open spec fn enc(f: FrameV) -> Seq<u8>
    decreases f, 0nat,
{
    match f {
        FrameV::SimpleString(s) => enc_line(TAG_SIMPLE, s),
        FrameV::SimpleError(s) => enc_line(TAG_ERROR, s),
        FrameV::Integer(n) => enc_int_line(n),
        FrameV::BulkString(p) => enc_bulk(TAG_BULK, p),
        FrameV::Array(els) => enc_header(TAG_ARRAY, els.len()) + enc_seq(els),
        FrameV::Null => seq![TAG_NULL, CR, LF],
        FrameV::NullArray => seq![TAG_ARRAY, BYTE_MINUS, BYTE_ONE, CR, LF],
        FrameV::NullBulkString => seq![TAG_BULK, BYTE_MINUS, BYTE_ONE, CR, LF],
        FrameV::Boolean(b) => seq![
            TAG_BOOLEAN,
            if b {
                BYTE_LOWER_T
            } else {
                BYTE_LOWER_F
            },
            CR,
            LF,
        ],
        FrameV::Double(s) => enc_line(TAG_DOUBLE, s),
        FrameV::BulkError(p) => enc_bulk(TAG_BULK_ERROR, p),
        FrameV::MapFrame(es) => enc_header(TAG_MAP, es.len()) + enc_entries(es),
        FrameV::SetFrame(els) => enc_header(TAG_SET, els.len()) + enc_seq(els),
    }
}

/// The elements of an aggregate, encoded in order and concatenated.
pub open spec fn enc_seq(s: Seq<FrameV>) -> Seq<u8>
    decreases s, 1nat,
{
    if s.len() == 0 {
        Seq::empty()
    } else {
        enc(s[0]) + enc_seq(s.drop_first())
    }
}

/// The entries of a map: each key as a simple-string line, then its value.
pub open spec fn enc_entries(es: Seq<(Seq<u8>, FrameV)>) -> Seq<u8>
    decreases es, 1nat,
{
    if es.len() == 0 {
        Seq::empty()
    } else {
        enc_line(TAG_SIMPLE, es[0].0) + enc(es[0].1) + enc_entries(es.drop_first())
    }
}

/// Append every byte of `data` to `out`.
fn push_all(out: &mut Vec<u8>, data: &[u8])
    ensures
        final(out)@ == old(out)@ + data@,
{
    let n: usize = data.len();
    let mut i: usize = 0;
    while i < n
        invariant
            0 <= i <= n,
            n == data@.len(),
            out@ == old(out)@ + data@.take(i as int),
        decreases n - i,
    {
        out.push(data[i]);
        proof {
            assert(data@.take(i + 1) =~= data@.take(i as int).push(data@[i as int]));
        }
        i = i + 1;
    }
    proof {
        assert(data@.take(n as int) =~= data@);
    }
}

/// Append CR LF to `out`.
fn push_crlf(out: &mut Vec<u8>)
    ensures
        final(out)@ == old(out)@ + crlf(),
{
    out.push(CR);
    out.push(LF);
    proof {
        assert(out@ =~= old(out)@ + crlf());
    }
}

/// Append the decimal digits of `n` to `out`.
fn push_dec(n: u64, out: &mut Vec<u8>)
    ensures
        final(out)@ == old(out)@ + dec_rep(n as nat),
    decreases n,
{
    if n < 10 {
        out.push(BYTE_ZERO + n as u8);
        proof {
            assert(out@ =~= old(out)@ + dec_rep(n as nat));
        }
    } else {
        push_dec(n / 10, out);
        out.push(BYTE_ZERO + (n % 10) as u8);
        proof {
            assert(out@ =~= old(out)@ + dec_rep(n as nat));
        }
    }
}

/// Append one whole frame's canonical encoding to `out`.
pub(crate) fn push_frame(f: &RespFrame, out: &mut Vec<u8>)
    ensures
        final(out)@ == old(out)@ + enc(frame_view(*f)),
    decreases *f, 0nat, 0nat,
{
    match f {
        RespFrame::SimpleString(s) => {
            out.push(TAG_SIMPLE);
            push_all(out, s.data.as_slice());
            push_crlf(out);
            proof {
                assert(out@ =~= old(out)@ + enc_line(TAG_SIMPLE, s.data@));
            }
        },
        RespFrame::SimpleError(s) => {
            out.push(TAG_ERROR);
            push_all(out, s.data.as_slice());
            push_crlf(out);
            proof {
                assert(out@ =~= old(out)@ + enc_line(TAG_ERROR, s.data@));
            }
        },
        RespFrame::Integer(n) => {
            out.push(TAG_INTEGER);
            let neg: bool = *n < 0;
            let mag: u64 = if *n == i64::MIN {
                crate::scan::I64_MAG_CAP
            } else if *n < 0 {
                (-*n) as u64
            } else {
                *n as u64
            };
            if neg {
                out.push(BYTE_MINUS);
            } else {
                out.push(BYTE_PLUS);
            }
            push_dec(mag, out);
            push_crlf(out);
            proof {
                assert(out@ =~= old(out)@ + enc_int_line(*n as int));
            }
        },
        RespFrame::BulkString(b) => {
            out.push(TAG_BULK);
            push_dec(b.data.len() as u64, out);
            push_crlf(out);
            push_all(out, b.data.as_slice());
            push_crlf(out);
            proof {
                assert(out@ =~= old(out)@ + enc_bulk(TAG_BULK, b.data@));
            }
        },
        RespFrame::BulkError(b) => {
            out.push(TAG_BULK_ERROR);
            push_dec(b.data.len() as u64, out);
            push_crlf(out);
            push_all(out, b.data.as_slice());
            push_crlf(out);
            proof {
                assert(out@ =~= old(out)@ + enc_bulk(TAG_BULK_ERROR, b.data@));
            }
        },
        RespFrame::Array(a) => {
            out.push(TAG_ARRAY);
            push_dec(a.elems.len() as u64, out);
            push_crlf(out);
            push_frames_from(&a.elems, 0, out);
            proof {
                crate::frame::lemma_frames_view_len(a.elems@);
                assert(a.elems@.skip(0) =~= a.elems@);
                assert(out@ =~= old(out)@ + (enc_header(TAG_ARRAY, a.elems@.len())
                    + enc_seq(frames_view(a.elems@))));
            }
        },
        RespFrame::Null(_) => {
            out.push(TAG_NULL);
            push_crlf(out);
            proof {
                assert(out@ =~= old(out)@ + enc(FrameV::Null));
            }
        },
        RespFrame::NullArray(_) => {
            out.push(TAG_ARRAY);
            out.push(BYTE_MINUS);
            out.push(BYTE_ONE);
            push_crlf(out);
            proof {
                assert(out@ =~= old(out)@ + enc(FrameV::NullArray));
            }
        },
        RespFrame::NullBulkString(_) => {
            out.push(TAG_BULK);
            out.push(BYTE_MINUS);
            out.push(BYTE_ONE);
            push_crlf(out);
            proof {
                assert(out@ =~= old(out)@ + enc(FrameV::NullBulkString));
            }
        },
        RespFrame::Boolean(b) => {
            out.push(TAG_BOOLEAN);
            if *b {
                out.push(BYTE_LOWER_T);
            } else {
                out.push(BYTE_LOWER_F);
            }
            push_crlf(out);
            proof {
                assert(out@ =~= old(out)@ + enc(FrameV::Boolean(*b)));
            }
        },
        RespFrame::Double(d) => {
            out.push(TAG_DOUBLE);
            push_all(out, d.data.as_slice());
            push_crlf(out);
            proof {
                assert(out@ =~= old(out)@ + enc_line(TAG_DOUBLE, d.data@));
            }
        },
        RespFrame::MapFrame(m) => {
            out.push(TAG_MAP);
            push_dec(m.entries.len() as u64, out);
            push_crlf(out);
            push_entries_from(&m.entries, 0, out);
            proof {
                crate::frame::lemma_entries_view_len(m.entries@);
                assert(m.entries@.skip(0) =~= m.entries@);
                assert(out@ =~= old(out)@ + (enc_header(TAG_MAP, m.entries@.len())
                    + enc_entries(entries_view(m.entries@))));
            }
        },
        RespFrame::SetFrame(s) => {
            out.push(TAG_SET);
            push_dec(s.elems.len() as u64, out);
            push_crlf(out);
            push_frames_from(&s.elems, 0, out);
            proof {
                crate::frame::lemma_frames_view_len(s.elems@);
                assert(s.elems@.skip(0) =~= s.elems@);
                assert(out@ =~= old(out)@ + (enc_header(TAG_SET, s.elems@.len())
                    + enc_seq(frames_view(s.elems@))));
            }
        },
    }
}

/// Append the encodings of `v[i..]`, in order.
fn push_frames_from(v: &Vec<RespFrame>, i: usize, out: &mut Vec<u8>)
    requires
        i <= v@.len(),
    ensures
        final(out)@ == old(out)@ + enc_seq(frames_view(v@.skip(i as int))),
    decreases v@, 1nat, v@.len() - i,
{
    if i < v.len() {
        push_frame(&v[i], out);
        push_frames_from(v, i + 1, out);
        proof {
            let s = v@.skip(i as int);
            assert(s[0] == v@[i as int]);
            assert(s.drop_first() =~= v@.skip(i + 1));
            assert(frames_view(s)[0] == frame_view(v@[i as int]));
            assert(frames_view(s).drop_first() =~= frames_view(v@.skip(i + 1)));
            assert(out@ =~= old(out)@ + enc_seq(frames_view(s)));
        }
    } else {
        proof {
            assert(v@.skip(i as int) =~= Seq::<RespFrame>::empty());
            assert(out@ =~= old(out)@ + enc_seq(frames_view(v@.skip(i as int))));
        }
    }
}

/// Append the encodings of the map entries `es[i..]`, in order.
fn push_entries_from(es: &Vec<(Vec<u8>, RespFrame)>, i: usize, out: &mut Vec<u8>)
    requires
        i <= es@.len(),
    ensures
        final(out)@ == old(out)@ + enc_entries(entries_view(es@.skip(i as int))),
    decreases es@, 1nat, es@.len() - i,
{
    if i < es.len() {
        out.push(TAG_SIMPLE);
        push_all(out, es[i].0.as_slice());
        push_crlf(out);
        push_frame(&es[i].1, out);
        push_entries_from(es, i + 1, out);
        proof {
            let s = es@.skip(i as int);
            assert(s[0] == es@[i as int]);
            assert(s.drop_first() =~= es@.skip(i + 1));
            assert(entries_view(s)[0] == (es@[i as int].0@, frame_view(es@[i as int].1)));
            assert(entries_view(s).drop_first() =~= entries_view(es@.skip(i + 1)));
            assert(out@ =~= old(out)@ + enc_entries(entries_view(s)));
        }
    } else {
        proof {
            assert(es@.skip(i as int) =~= Seq::<(Vec<u8>, RespFrame)>::empty());
            assert(out@ =~= old(out)@ + enc_entries(entries_view(es@.skip(i as int))));
        }
    }
}

/// A value that has a canonical RESP wire form.
pub trait RespEncode: Sized {
    /// The canonical wire bytes of this value.
    spec fn wire(&self) -> Seq<u8>;

    /// Serialise to the canonical wire bytes; encoding never fails.
    fn encode(self) -> (out: Vec<u8>)
        ensures
            out@ == self.wire(),
    ;
}

impl RespEncode for RespFrame {
    open spec fn wire(&self) -> Seq<u8> {
        enc(frame_view(*self))
    }

    fn encode(self) -> (out: Vec<u8>)
        ensures
            out@ == self.wire(),
    {
        let mut out: Vec<u8> = Vec::new();
        push_frame(&self, &mut out);
        proof {
            assert(out@ =~= enc(frame_view(self)));
        }
        out
    }
}

impl RespEncode for SimpleString {
    open spec fn wire(&self) -> Seq<u8> {
        enc(FrameV::SimpleString(self.data@))
    }

    fn encode(self) -> (out: Vec<u8>)
        ensures
            out@ == self.wire(),
    {
        RespFrame::SimpleString(self).encode()
    }
}

impl RespEncode for SimpleError {
    open spec fn wire(&self) -> Seq<u8> {
        enc(FrameV::SimpleError(self.data@))
    }

    fn encode(self) -> (out: Vec<u8>)
        ensures
            out@ == self.wire(),
    {
        RespFrame::SimpleError(self).encode()
    }
}

impl RespEncode for i64 {
    open spec fn wire(&self) -> Seq<u8> {
        enc(FrameV::Integer(*self as int))
    }

    fn encode(self) -> (out: Vec<u8>)
        ensures
            out@ == self.wire(),
    {
        RespFrame::Integer(self).encode()
    }
}

impl RespEncode for BulkString {
    open spec fn wire(&self) -> Seq<u8> {
        enc(FrameV::BulkString(self.data@))
    }

    fn encode(self) -> (out: Vec<u8>)
        ensures
            out@ == self.wire(),
    {
        RespFrame::BulkString(self).encode()
    }
}

impl RespEncode for BulkError {
    open spec fn wire(&self) -> Seq<u8> {
        enc(FrameV::BulkError(self.data@))
    }

    fn encode(self) -> (out: Vec<u8>)
        ensures
            out@ == self.wire(),
    {
        RespFrame::BulkError(self).encode()
    }
}

impl RespEncode for Array {
    open spec fn wire(&self) -> Seq<u8> {
        enc(FrameV::Array(frames_view(self.elems@)))
    }

    fn encode(self) -> (out: Vec<u8>)
        ensures
            out@ == self.wire(),
    {
        RespFrame::Array(self).encode()
    }
}

impl RespEncode for RespNull {
    open spec fn wire(&self) -> Seq<u8> {
        enc(FrameV::Null)
    }

    fn encode(self) -> (out: Vec<u8>)
        ensures
            out@ == self.wire(),
    {
        RespFrame::Null(self).encode()
    }
}

impl RespEncode for RespNullArray {
    open spec fn wire(&self) -> Seq<u8> {
        enc(FrameV::NullArray)
    }

    fn encode(self) -> (out: Vec<u8>)
        ensures
            out@ == self.wire(),
    {
        RespFrame::NullArray(self).encode()
    }
}

impl RespEncode for RespNullBulkString {
    open spec fn wire(&self) -> Seq<u8> {
        enc(FrameV::NullBulkString)
    }

    fn encode(self) -> (out: Vec<u8>)
        ensures
            out@ == self.wire(),
    {
        RespFrame::NullBulkString(self).encode()
    }
}

impl RespEncode for bool {
    open spec fn wire(&self) -> Seq<u8> {
        enc(FrameV::Boolean(*self))
    }

    fn encode(self) -> (out: Vec<u8>)
        ensures
            out@ == self.wire(),
    {
        RespFrame::Boolean(self).encode()
    }
}

impl RespEncode for Double {
    open spec fn wire(&self) -> Seq<u8> {
        enc(FrameV::Double(self.data@))
    }

    fn encode(self) -> (out: Vec<u8>)
        ensures
            out@ == self.wire(),
    {
        RespFrame::Double(self).encode()
    }
}

impl RespEncode for RespMap {
    open spec fn wire(&self) -> Seq<u8> {
        enc(FrameV::MapFrame(entries_view(self.entries@)))
    }

    fn encode(self) -> (out: Vec<u8>)
        ensures
            out@ == self.wire(),
    {
        RespFrame::MapFrame(self).encode()
    }
}

impl RespEncode for RespSet {
    open spec fn wire(&self) -> Seq<u8> {
        enc(FrameV::SetFrame(frames_view(self.elems@)))
    }

    fn encode(self) -> (out: Vec<u8>)
        ensures
            out@ == self.wire(),
    {
        RespFrame::SetFrame(self).encode()
    }
}

} // verus!
