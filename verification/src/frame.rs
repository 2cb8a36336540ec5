//! The RESP frame value types: one struct per payload-carrying variant and
//! the `RespFrame` union over them, each with its ghost view into the model.

use vstd::prelude::*;
use crate::model::{FrameV, line_ok, double_lex};

verus! {

/// Why a frame value could not be constructed from the given payload.
#[derive(Clone, Copy, Debug, PartialEq, Eq, Structural)]
pub enum FrameError {
    /// The payload holds a CR or LF, which a line-oriented variant cannot carry.
    IllegalLineByte,
    /// The payload is not the decimal or exponential text of a double.
    BadDoubleText,
    /// The payload is not valid UTF-8, which a bulk error must be.
    NotUtf8,
}

/// A status line, e.g. `+OK\r\n`; its text carries no CR or LF.
#[derive(Clone, Debug, PartialEq, Eq)]
pub struct SimpleString {
    pub data: Vec<u8>,
}

/// A one-line error, e.g. `-Error message\r\n`; its text carries no CR or LF.
#[derive(Clone, Debug, PartialEq, Eq)]
pub struct SimpleError {
    pub data: Vec<u8>,
}

/// A length-prefixed payload of arbitrary bytes, e.g. `$5\r\nhello\r\n`.
#[derive(Clone, Debug, PartialEq, Eq)]
pub struct BulkString {
    pub data: Vec<u8>,
}

/// A length-prefixed error text, e.g. `!13\r\nError message\r\n`; UTF-8.
#[derive(Clone, Debug, PartialEq, Eq)]
pub struct BulkError {
    pub data: Vec<u8>,
}

/// A double, carried as the text between `,` and the terminator, e.g. `123.456`.
#[derive(Clone, Debug, PartialEq, Eq)]
pub struct Double {
    pub data: Vec<u8>,
}

/// An ordered sequence of frames, e.g. `*2\r\n...`.
#[derive(Debug, PartialEq, Eq)]
pub struct Array {
    pub elems: Vec<RespFrame>,
}

/// The RESP3 generic null, `_\r\n`.
#[derive(Clone, Copy, Debug, PartialEq, Eq, Structural)]
pub struct RespNull;

/// The legacy null bulk string, `$-1\r\n`.
#[derive(Clone, Copy, Debug, PartialEq, Eq, Structural)]
pub struct RespNullBulkString;

/// The legacy null array, `*-1\r\n`.
#[derive(Clone, Copy, Debug, PartialEq, Eq, Structural)]
pub struct RespNullArray;

/// A mapping from simple-string keys to frames, kept in ascending key order
/// so that its encoding is deterministic.
#[derive(Debug, PartialEq, Eq)]
pub struct RespMap {
    pub entries: Vec<(Vec<u8>, RespFrame)>,
}

/// A collection of distinct frames, kept ascending in the frame order so
/// that its encoding is deterministic.
#[derive(Debug, PartialEq, Eq)]
pub struct RespSet {
    pub elems: Vec<RespFrame>,
}

/// One RESP frame of any shape.
#[derive(Debug, PartialEq, Eq)]
pub enum RespFrame {
    SimpleString(SimpleString),
    SimpleError(SimpleError),
    Integer(i64),
    BulkString(BulkString),
    Array(Array),
    Null(RespNull),
    NullArray(RespNullArray),
    NullBulkString(RespNullBulkString),
    Boolean(bool),
    Double(Double),
    BulkError(BulkError),
    MapFrame(RespMap),
    SetFrame(RespSet),
}

/// The model value a frame denotes.
pub open spec fn frame_view(f: RespFrame) -> FrameV
    decreases f, 0nat,
{
    match f {
        RespFrame::SimpleString(s) => FrameV::SimpleString(s.data@),
        RespFrame::SimpleError(s) => FrameV::SimpleError(s.data@),
        RespFrame::Integer(n) => FrameV::Integer(n as int),
        RespFrame::BulkString(b) => FrameV::BulkString(b.data@),
        RespFrame::Array(a) => FrameV::Array(frames_view(a.elems@)),
        RespFrame::Null(_) => FrameV::Null,
        RespFrame::NullArray(_) => FrameV::NullArray,
        RespFrame::NullBulkString(_) => FrameV::NullBulkString,
        RespFrame::Boolean(b) => FrameV::Boolean(b),
        RespFrame::Double(d) => FrameV::Double(d.data@),
        RespFrame::BulkError(b) => FrameV::BulkError(b.data@),
        RespFrame::MapFrame(m) => FrameV::MapFrame(entries_view(m.entries@)),
        RespFrame::SetFrame(s) => FrameV::SetFrame(frames_view(s.elems@)),
    }
}

pub open spec fn frames_view(s: Seq<RespFrame>) -> Seq<FrameV>
    decreases s, 1nat,
{
    if s.len() == 0 {
        Seq::empty()
    } else {
        seq![frame_view(s[0])] + frames_view(s.drop_first())
    }
}

pub open spec fn entries_view(es: Seq<(Vec<u8>, RespFrame)>) -> Seq<(Seq<u8>, FrameV)>
    decreases es, 1nat,
{
    if es.len() == 0 {
        Seq::empty()
    } else {
        seq![(es[0].0@, frame_view(es[0].1))] + entries_view(es.drop_first())
    }
}

/// A sequence of frames and its view have the same length, element by element.
pub proof fn lemma_frames_view_len(s: Seq<RespFrame>)
    ensures
        frames_view(s).len() == s.len(),
        forall|i: int| 0 <= i < s.len() ==> #[trigger] frames_view(s)[i] == frame_view(s[i]),
    decreases s.len(),
{
    if s.len() > 0 {
        lemma_frames_view_len(s.drop_first());
        assert forall|i: int| 0 <= i < s.len() implies #[trigger] frames_view(s)[i] == frame_view(
            s[i],
        ) by {
            if i > 0 {
                assert(s.drop_first()[i - 1] == s[i]);
            }
        }
    }
}

/// An entry list and its view have the same length, entry by entry.
pub proof fn lemma_entries_view_len(es: Seq<(Vec<u8>, RespFrame)>)
    ensures
        entries_view(es).len() == es.len(),
        forall|i: int| 0 <= i < es.len() ==> #[trigger] entries_view(es)[i] == (es[i].0@,
        frame_view(es[i].1)),
    decreases es.len(),
{
    if es.len() > 0 {
        lemma_entries_view_len(es.drop_first());
        assert forall|i: int| 0 <= i < es.len() implies #[trigger] entries_view(es)[i] == (
        es[i].0@, frame_view(es[i].1)) by {
            if i > 0 {
                assert(es.drop_first()[i - 1] == es[i]);
            }
        }
    }
}

impl View for RespFrame {
    type V = FrameV;

    open spec fn view(&self) -> FrameV {
        frame_view(*self)
    }
}

impl View for SimpleString {
    type V = Seq<u8>;

    open spec fn view(&self) -> Seq<u8> {
        self.data@
    }
}

impl View for SimpleError {
    type V = Seq<u8>;

    open spec fn view(&self) -> Seq<u8> {
        self.data@
    }
}

impl View for BulkString {
    type V = Seq<u8>;

    open spec fn view(&self) -> Seq<u8> {
        self.data@
    }
}

impl View for BulkError {
    type V = Seq<u8>;

    open spec fn view(&self) -> Seq<u8> {
        self.data@
    }
}

impl View for Double {
    type V = Seq<u8>;

    open spec fn view(&self) -> Seq<u8> {
        self.data@
    }
}

impl View for Array {
    type V = Seq<FrameV>;

    open spec fn view(&self) -> Seq<FrameV> {
        frames_view(self.elems@)
    }
}

impl View for RespMap {
    type V = Seq<(Seq<u8>, FrameV)>;

    open spec fn view(&self) -> Seq<(Seq<u8>, FrameV)> {
        entries_view(self.entries@)
    }
}

impl View for RespSet {
    type V = Seq<FrameV>;

    open spec fn view(&self) -> Seq<FrameV> {
        frames_view(self.elems@)
    }
}

/// Relies on `core::str::from_utf8`: it returns `Ok` exactly when the bytes
/// are valid UTF-8, the property `vstd::utf8::valid_utf8` states.
#[verifier::external_body]
pub(crate) fn utf8_check(data: &[u8]) -> (r: bool)
    ensures
        r == vstd::utf8::valid_utf8(data@),
{
    core::str::from_utf8(data).is_ok()
}

/// Whether the bytes may stand inside a CRLF-terminated line.
pub(crate) fn line_check(data: &[u8]) -> (r: bool)
    ensures
        r == line_ok(data@),
{
    let n: usize = data.len();
    let mut i: usize = 0;
    while i < n
        invariant
            0 <= i <= n,
            n == data@.len(),
            forall|j: int| 0 <= j < i ==> crate::model::is_line_byte(#[trigger] data@[j]),
        decreases n - i,
    {
        if data[i] == crate::model::CR || data[i] == crate::model::LF {
            return false;
        }
        i = i + 1;
    }
    true
}

impl SimpleString {
    /// Accepts the text of a status line; text holding CR or LF is refused.
    pub fn try_new(data: Vec<u8>) -> (r: Result<SimpleString, FrameError>)
        ensures
            line_ok(data@) ==> (r matches Ok(s) && s@ == data@),
            !line_ok(data@) ==> (r matches Err(e) && e == FrameError::IllegalLineByte),
    {
        if line_check(data.as_slice()) {
            Ok(SimpleString { data })
        } else {
            Err(FrameError::IllegalLineByte)
        }
    }
}

impl SimpleError {
    /// Accepts the text of a one-line error; text holding CR or LF is refused.
    pub fn try_new(data: Vec<u8>) -> (r: Result<SimpleError, FrameError>)
        ensures
            line_ok(data@) ==> (r matches Ok(s) && s@ == data@),
            !line_ok(data@) ==> (r matches Err(e) && e == FrameError::IllegalLineByte),
    {
        if line_check(data.as_slice()) {
            Ok(SimpleError { data })
        } else {
            Err(FrameError::IllegalLineByte)
        }
    }
}

impl BulkString {
    /// Wraps arbitrary payload bytes; a bulk string refuses nothing.
    pub fn new(data: Vec<u8>) -> (r: BulkString)
        ensures
            r@ == data@,
    {
        BulkString { data }
    }
}

impl BulkError {
    /// Accepts the text of a bulk error; bytes that are not UTF-8 are refused.
    pub fn try_new(data: Vec<u8>) -> (r: Result<BulkError, FrameError>)
        ensures
            vstd::utf8::valid_utf8(data@) ==> (r matches Ok(b) && b@ == data@),
            !vstd::utf8::valid_utf8(data@) ==> (r matches Err(e) && e == FrameError::NotUtf8),
    {
        if utf8_check(data.as_slice()) {
            Ok(BulkError { data })
        } else {
            Err(FrameError::NotUtf8)
        }
    }
}

impl Double {
    /// Accepts the decimal or exponential text of a double; anything else
    /// is refused.
    pub fn try_new(data: Vec<u8>) -> (r: Result<Double, FrameError>)
        ensures
            double_lex(data@) ==> (r matches Ok(d) && d@ == data@),
            !double_lex(data@) ==> (r matches Err(e) && e == FrameError::BadDoubleText),
    {
        proof {
            assert(data@.subrange(0, data@.len() as int) =~= data@);
        }
        if crate::scan::double_check_at(data.as_slice(), 0, data.len()) {
            Ok(Double { data })
        } else {
            Err(FrameError::BadDoubleText)
        }
    }
}

impl Array {
    pub fn new(elems: Vec<RespFrame>) -> (r: Array)
        ensures
            r@ == frames_view(elems@),
    {
        Array { elems }
    }
}

} // verus!
