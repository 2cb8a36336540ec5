//! Ordering support: the executable three-way comparator for frames and
//! the sorted insertion that keeps maps and sets deterministic.

use vstd::prelude::*;
use crate::model::{
    FrameV, bytes_cmp, bytes_lt, frame_cmp, frames_cmp, entries_cmp, frame_lt, rank, map_insert,
    set_insert,
};
use crate::frame::{
    RespFrame, RespMap, RespSet, frame_view, frames_view, entries_view, lemma_frames_view_len,
    lemma_entries_view_len,
};

verus! {

/// Byte comparison ignores an equal prefix.
pub proof fn lemma_bytes_cmp_skip(a: Seq<u8>, b: Seq<u8>, i: int)
    requires
        0 <= i <= a.len(),
        i <= b.len(),
        forall|j: int| 0 <= j < i ==> a[j] == b[j],
    ensures
        bytes_cmp(a, b) == bytes_cmp(a.skip(i), b.skip(i)),
    decreases i,
{
    if i > 0 {
        lemma_bytes_cmp_skip(a.drop_first(), b.drop_first(), i - 1);
        assert(a.drop_first().skip(i - 1) =~= a.skip(i));
        assert(b.drop_first().skip(i - 1) =~= b.skip(i));
        assert(forall|j: int|
            0 <= j < i - 1 ==> #[trigger] a.drop_first()[j] == b.drop_first()[j]);
    } else {
        assert(a.skip(0) =~= a);
        assert(b.skip(0) =~= b);
    }
}

/// Swapping the operands flips the byte comparison.
pub proof fn lemma_bytes_cmp_antisym(a: Seq<u8>, b: Seq<u8>)
    ensures
        bytes_cmp(b, a) == -bytes_cmp(a, b),
    decreases a.len(),
{
    if a.len() > 0 && b.len() > 0 && a[0] == b[0] {
        lemma_bytes_cmp_antisym(a.drop_first(), b.drop_first());
    }
}

/// Byte sequences that compare equal are equal.
pub proof fn lemma_bytes_cmp_zero(a: Seq<u8>, b: Seq<u8>)
    requires
        bytes_cmp(a, b) == 0,
    ensures
        a == b,
    decreases a.len(),
{
    if a.len() > 0 && b.len() > 0 {
        lemma_bytes_cmp_zero(a.drop_first(), b.drop_first());
        assert(a.drop_first().len() == b.drop_first().len());
        assert(a.len() == b.len());
        assert forall|i: int| 0 <= i < a.len() implies a[i] == b[i] by {
            if i > 0 {
                assert(a[i] == a.drop_first()[i - 1]);
                assert(b[i] == b.drop_first()[i - 1]);
            }
        }
        assert(a =~= b);
    } else {
        assert(a =~= b);
    }
}

/// A byte comparison is one of -1, 0, 1.
pub proof fn lemma_bytes_cmp_range(a: Seq<u8>, b: Seq<u8>)
    ensures
        -1 <= bytes_cmp(a, b) <= 1,
    decreases a.len(),
{
    if a.len() > 0 && b.len() > 0 && a[0] == b[0] {
        lemma_bytes_cmp_range(a.drop_first(), b.drop_first());
    }
}

/// A frame comparison is one of -1, 0, 1.
pub proof fn lemma_frame_cmp_range(a: FrameV, b: FrameV)
    ensures
        -1 <= frame_cmp(a, b) <= 1,
    decreases a, 0nat,
{
    if rank(a) == rank(b) {
        match (a, b) {
            (FrameV::SimpleString(x), FrameV::SimpleString(y)) => {
                lemma_bytes_cmp_range(x, y);
            },
            (FrameV::SimpleError(x), FrameV::SimpleError(y)) => {
                lemma_bytes_cmp_range(x, y);
            },
            (FrameV::BulkString(x), FrameV::BulkString(y)) => {
                lemma_bytes_cmp_range(x, y);
            },
            (FrameV::Array(x), FrameV::Array(y)) => {
                lemma_frames_cmp_range(x, y);
            },
            (FrameV::Double(x), FrameV::Double(y)) => {
                lemma_bytes_cmp_range(x, y);
            },
            (FrameV::BulkError(x), FrameV::BulkError(y)) => {
                lemma_bytes_cmp_range(x, y);
            },
            (FrameV::MapFrame(x), FrameV::MapFrame(y)) => {
                lemma_entries_cmp_range(x, y);
            },
            (FrameV::SetFrame(x), FrameV::SetFrame(y)) => {
                lemma_frames_cmp_range(x, y);
            },
            _ => {},
        }
    }
}

pub proof fn lemma_frames_cmp_range(x: Seq<FrameV>, y: Seq<FrameV>)
    ensures
        -1 <= frames_cmp(x, y) <= 1,
    decreases x, 1nat,
{
    if x.len() > 0 && y.len() > 0 {
        lemma_frame_cmp_range(x[0], y[0]);
        lemma_frames_cmp_range(x.drop_first(), y.drop_first());
    }
}

pub proof fn lemma_entries_cmp_range(x: Seq<(Seq<u8>, FrameV)>, y: Seq<(Seq<u8>, FrameV)>)
    ensures
        -1 <= entries_cmp(x, y) <= 1,
    decreases x, 1nat,
{
    if x.len() > 0 && y.len() > 0 {
        lemma_bytes_cmp_range(x[0].0, y[0].0);
        lemma_frame_cmp_range(x[0].1, y[0].1);
        lemma_entries_cmp_range(x.drop_first(), y.drop_first());
    }
}

/// Swapping the operands flips the frame comparison.
pub proof fn lemma_frame_cmp_antisym(a: FrameV, b: FrameV)
    ensures
        frame_cmp(b, a) == -frame_cmp(a, b),
    decreases a, 0nat,
{
    if rank(a) == rank(b) {
        match (a, b) {
            (FrameV::SimpleString(x), FrameV::SimpleString(y)) => {
                lemma_bytes_cmp_antisym(x, y);
            },
            (FrameV::SimpleError(x), FrameV::SimpleError(y)) => {
                lemma_bytes_cmp_antisym(x, y);
            },
            (FrameV::BulkString(x), FrameV::BulkString(y)) => {
                lemma_bytes_cmp_antisym(x, y);
            },
            (FrameV::Array(x), FrameV::Array(y)) => {
                lemma_frames_cmp_antisym(x, y);
            },
            (FrameV::Double(x), FrameV::Double(y)) => {
                lemma_bytes_cmp_antisym(x, y);
            },
            (FrameV::BulkError(x), FrameV::BulkError(y)) => {
                lemma_bytes_cmp_antisym(x, y);
            },
            (FrameV::MapFrame(x), FrameV::MapFrame(y)) => {
                lemma_entries_cmp_antisym(x, y);
            },
            (FrameV::SetFrame(x), FrameV::SetFrame(y)) => {
                lemma_frames_cmp_antisym(x, y);
            },
            _ => {},
        }
    }
}

pub proof fn lemma_frames_cmp_antisym(x: Seq<FrameV>, y: Seq<FrameV>)
    ensures
        frames_cmp(y, x) == -frames_cmp(x, y),
    decreases x, 1nat,
{
    if x.len() > 0 && y.len() > 0 {
        lemma_frame_cmp_antisym(x[0], y[0]);
        lemma_frames_cmp_antisym(x.drop_first(), y.drop_first());
    }
}

pub proof fn lemma_entries_cmp_antisym(x: Seq<(Seq<u8>, FrameV)>, y: Seq<(Seq<u8>, FrameV)>)
    ensures
        entries_cmp(y, x) == -entries_cmp(x, y),
    decreases x, 1nat,
{
    if x.len() > 0 && y.len() > 0 {
        lemma_bytes_cmp_antisym(x[0].0, y[0].0);
        lemma_frame_cmp_antisym(x[0].1, y[0].1);
        lemma_entries_cmp_antisym(x.drop_first(), y.drop_first());
    }
}

/// Three-way lexicographic comparison of byte strings.
pub(crate) fn cmp_bytes_exec(a: &[u8], b: &[u8]) -> (r: i8)
    ensures
        r as int == bytes_cmp(a@, b@),
{
    let an: usize = a.len();
    let bn: usize = b.len();
    let mut i: usize = 0;
    while i < an && i < bn && a[i] == b[i]
        invariant
            0 <= i <= an,
            i <= bn,
            an == a@.len(),
            bn == b@.len(),
            forall|j: int| 0 <= j < i ==> a@[j] == b@[j],
        decreases an - i,
    {
        i = i + 1;
    }
    proof {
        lemma_bytes_cmp_skip(a@, b@, i as int);
        if i < an && i < bn {
            assert(a@.skip(i as int)[0] == a@[i as int]);
            assert(b@.skip(i as int)[0] == b@[i as int]);
        }
    }
    if i == an && i == bn {
        0
    } else if i == an {
        -1
    } else if i == bn {
        1
    } else if a[i] < b[i] {
        -1
    } else {
        1
    }
}

/// The rank of a frame's variant in the total order.
fn rank_of(f: &RespFrame) -> (r: i8)
    ensures
        r as int == rank(frame_view(*f)),
{
    match f {
        RespFrame::SimpleString(_) => 0,
        RespFrame::SimpleError(_) => 1,
        RespFrame::Integer(_) => 2,
        RespFrame::BulkString(_) => 3,
        RespFrame::Array(_) => 4,
        RespFrame::Null(_) => 5,
        RespFrame::NullArray(_) => 6,
        RespFrame::NullBulkString(_) => 7,
        RespFrame::Boolean(_) => 8,
        RespFrame::Double(_) => 9,
        RespFrame::BulkError(_) => 10,
        RespFrame::MapFrame(_) => 11,
        RespFrame::SetFrame(_) => 12,
    }
}

/// Three-way comparison of frames in the total order of the model.
pub fn cmp_frames(a: &RespFrame, b: &RespFrame) -> (r: i8)
    ensures
        r as int == frame_cmp(frame_view(*a), frame_view(*b)),
    decreases *a, 0nat, 0nat,
{
    let ra: i8 = rank_of(a);
    let rb: i8 = rank_of(b);
    if ra < rb {
        return -1;
    }
    if ra > rb {
        return 1;
    }
    match (a, b) {
        (RespFrame::SimpleString(x), RespFrame::SimpleString(y)) => cmp_bytes_exec(
            x.data.as_slice(),
            y.data.as_slice(),
        ),
        (RespFrame::SimpleError(x), RespFrame::SimpleError(y)) => cmp_bytes_exec(
            x.data.as_slice(),
            y.data.as_slice(),
        ),
        (RespFrame::Integer(x), RespFrame::Integer(y)) => {
            if *x < *y {
                -1
            } else if *x > *y {
                1
            } else {
                0
            }
        },
        (RespFrame::BulkString(x), RespFrame::BulkString(y)) => cmp_bytes_exec(
            x.data.as_slice(),
            y.data.as_slice(),
        ),
        (RespFrame::Array(x), RespFrame::Array(y)) => {
            let r2: i8 = cmp_elems(&x.elems, &y.elems, 0);
            proof {
                assert(frames_view(x.elems@).skip(0) =~= frames_view(x.elems@));
                assert(frames_view(y.elems@).skip(0) =~= frames_view(y.elems@));
            }
            r2
        },
        (RespFrame::Boolean(x), RespFrame::Boolean(y)) => {
            if !*x && *y {
                -1
            } else if *x && !*y {
                1
            } else {
                0
            }
        },
        (RespFrame::Double(x), RespFrame::Double(y)) => cmp_bytes_exec(
            x.data.as_slice(),
            y.data.as_slice(),
        ),
        (RespFrame::BulkError(x), RespFrame::BulkError(y)) => cmp_bytes_exec(
            x.data.as_slice(),
            y.data.as_slice(),
        ),
        (RespFrame::MapFrame(x), RespFrame::MapFrame(y)) => {
            let r2: i8 = cmp_entries(&x.entries, &y.entries, 0);
            proof {
                assert(entries_view(x.entries@).skip(0) =~= entries_view(x.entries@));
                assert(entries_view(y.entries@).skip(0) =~= entries_view(y.entries@));
            }
            r2
        },
        (RespFrame::SetFrame(x), RespFrame::SetFrame(y)) => {
            let r2: i8 = cmp_elems(&x.elems, &y.elems, 0);
            proof {
                assert(frames_view(x.elems@).skip(0) =~= frames_view(x.elems@));
                assert(frames_view(y.elems@).skip(0) =~= frames_view(y.elems@));
            }
            r2
        },
        _ => 0,
    }
}

/// Compare two element vectors from position `i` on.
fn cmp_elems(x: &Vec<RespFrame>, y: &Vec<RespFrame>, i: usize) -> (r: i8)
    requires
        i <= x@.len(),
        i <= y@.len(),
    ensures
        r as int == frames_cmp(frames_view(x@).skip(i as int), frames_view(y@).skip(i as int)),
    decreases x@, 1nat, x@.len() - i,
{
    proof {
        lemma_frames_view_len(x@);
        lemma_frames_view_len(y@);
    }
    let ghost sx = frames_view(x@).skip(i as int);
    let ghost sy = frames_view(y@).skip(i as int);
    if i == x.len() && i == y.len() {
        0
    } else if i == x.len() {
        -1
    } else if i == y.len() {
        1
    } else {
        proof {
            assert(sx[0] == frames_view(x@)[i as int]);
            assert(sy[0] == frames_view(y@)[i as int]);
        }
        let c: i8 = cmp_frames(&x[i], &y[i]);
        if c != 0 {
            c
        } else {
            let r2: i8 = cmp_elems(x, y, i + 1);
            proof {
                assert(sx.drop_first() =~= frames_view(x@).skip(i + 1));
                assert(sy.drop_first() =~= frames_view(y@).skip(i + 1));
            }
            r2
        }
    }
}

/// Compare two entry vectors from position `i` on: key first, then value.
fn cmp_entries(x: &Vec<(Vec<u8>, RespFrame)>, y: &Vec<(Vec<u8>, RespFrame)>, i: usize) -> (r: i8)
    requires
        i <= x@.len(),
        i <= y@.len(),
    ensures
        r as int == entries_cmp(entries_view(x@).skip(i as int), entries_view(y@).skip(i as int)),
    decreases x@, 1nat, x@.len() - i,
{
    proof {
        lemma_entries_view_len(x@);
        lemma_entries_view_len(y@);
    }
    let ghost sx = entries_view(x@).skip(i as int);
    let ghost sy = entries_view(y@).skip(i as int);
    if i == x.len() && i == y.len() {
        0
    } else if i == x.len() {
        -1
    } else if i == y.len() {
        1
    } else {
        proof {
            assert(sx[0] == entries_view(x@)[i as int]);
            assert(sy[0] == entries_view(y@)[i as int]);
        }
        let ck: i8 = cmp_bytes_exec(x[i].0.as_slice(), y[i].0.as_slice());
        if ck != 0 {
            ck
        } else {
            let cv: i8 = cmp_frames(&x[i].1, &y[i].1);
            if cv != 0 {
                cv
            } else {
                let r2: i8 = cmp_entries(x, y, i + 1);
                proof {
                    assert(sx.drop_first() =~= entries_view(x@).skip(i + 1));
                    assert(sy.drop_first() =~= entries_view(y@).skip(i + 1));
                }
                r2
            }
        }
    }
}

/// Insertion skips past entries whose keys lie below the new key.
pub proof fn lemma_map_insert_split(es: Seq<(Seq<u8>, FrameV)>, k: Seq<u8>, v: FrameV, i: int)
    requires
        0 <= i <= es.len(),
        forall|j: int| 0 <= j < i ==> bytes_lt((#[trigger] es[j]).0, k),
    ensures
        map_insert(es, k, v) == es.take(i) + map_insert(es.skip(i), k, v),
    decreases i,
{
    if i > 0 {
        lemma_bytes_cmp_antisym(k, es[0].0);
        if k == es[0].0 {
            lemma_bytes_cmp_zero(es[0].0, k);
            assert(false);
        }
        lemma_map_insert_split(es.drop_first(), k, v, i - 1);
        assert(forall|j: int|
            0 <= j < i - 1 ==> bytes_lt((#[trigger] es.drop_first()[j]).0, k));
        assert(es.drop_first().take(i - 1) =~= es.take(i).drop_first());
        assert(es.drop_first().skip(i - 1) =~= es.skip(i));
        assert(seq![es[0]] + (es.take(i).drop_first() + map_insert(es.skip(i), k, v)) =~= es.take(
            i,
        ) + map_insert(es.skip(i), k, v));
    } else {
        assert(es.take(0) =~= Seq::<(Seq<u8>, FrameV)>::empty());
        assert(es.skip(0) =~= es);
        assert(es.take(0) + map_insert(es, k, v) =~= map_insert(es, k, v));
    }
}

/// Insertion skips past elements that lie below the new element.
pub proof fn lemma_set_insert_split(els: Seq<FrameV>, f: FrameV, i: int)
    requires
        0 <= i <= els.len(),
        forall|j: int| 0 <= j < i ==> frame_lt(#[trigger] els[j], f),
    ensures
        set_insert(els, f) == els.take(i) + set_insert(els.skip(i), f),
    decreases i,
{
    if i > 0 {
        lemma_frame_cmp_antisym(f, els[0]);
        lemma_set_insert_split(els.drop_first(), f, i - 1);
        assert(forall|j: int| 0 <= j < i - 1 ==> frame_lt(#[trigger] els.drop_first()[j], f));
        assert(els.drop_first().take(i - 1) =~= els.take(i).drop_first());
        assert(els.drop_first().skip(i - 1) =~= els.skip(i));
        assert(seq![els[0]] + (els.take(i).drop_first() + set_insert(els.skip(i), f)) =~= els.take(
            i,
        ) + set_insert(els.skip(i), f));
    } else {
        assert(els.take(0) =~= Seq::<FrameV>::empty());
        assert(els.skip(0) =~= els);
        assert(els.take(0) + set_insert(els, f) =~= set_insert(els, f));
    }
}

impl RespMap {
    /// The empty map.
    pub fn new() -> (r: RespMap)
        ensures
            r@ == Seq::<(Seq<u8>, FrameV)>::empty(),
    {
        RespMap { entries: Vec::new() }
    }

    pub fn len(&self) -> (r: usize)
        ensures
            r == self@.len(),
    {
        proof {
            lemma_entries_view_len(self.entries@);
        }
        self.entries.len()
    }

    /// Where `key` belongs: the first index whose key is not below it.
    fn key_position(&self, key: &[u8]) -> (r: usize)
        ensures
            r <= self.entries@.len(),
            forall|j: int| 0 <= j < r ==> bytes_lt((#[trigger] self.entries@[j]).0@, key@),
            r < self.entries@.len() ==> bytes_cmp(self.entries@[r as int].0@, key@) != -1,
    {
        let n: usize = self.entries.len();
        let mut i: usize = 0;
        while i < n
            invariant
                0 <= i <= n,
                n == self.entries@.len(),
                forall|j: int| 0 <= j < i ==> bytes_lt((#[trigger] self.entries@[j]).0@, key@),
            decreases n - i,
        {
            let c: i8 = cmp_bytes_exec(self.entries[i].0.as_slice(), key);
            if c != -1 {
                return i;
            }
            i = i + 1;
        }
        i
    }

    /// Put `value` under `key`, keeping entries in ascending key order; a
    /// value already under an equal key is replaced.
    pub fn insert(&mut self, key: Vec<u8>, value: RespFrame)
        ensures
            final(self)@ == map_insert(old(self)@, key@, frame_view(value)),
    {
        let n: usize = self.entries.len();
        let i: usize = self.key_position(key.as_slice());
        proof {
            lemma_entries_view_len(self.entries@);
            assert(forall|j: int|
                0 <= j < i ==> bytes_lt((#[trigger] entries_view(self.entries@)[j]).0, key@));
            lemma_map_insert_split(entries_view(self.entries@), key@, frame_view(value), i as int);
        }
        let ghost ev = entries_view(old(self).entries@);
        let ghost kv = key@;
        let ghost fv = frame_view(value);
        if i == n {
            self.entries.push((key, value));
            proof {
                lemma_entries_view_len(self.entries@);
                assert(ev.skip(n as int) =~= Seq::<(Seq<u8>, FrameV)>::empty());
                assert(ev.take(n as int) =~= ev);
                assert(entries_view(self.entries@) =~= ev + map_insert(ev.skip(n as int), kv, fv));
            }
        } else {
            let c: i8 = cmp_bytes_exec(self.entries[i].0.as_slice(), key.as_slice());
            proof {
                lemma_bytes_cmp_antisym(key@, self.entries@[i as int].0@);
                lemma_bytes_cmp_range(self.entries@[i as int].0@, key@);
                assert(ev.skip(i as int)[0] == ev[i as int]);
            }
            if c == 0 {
                proof {
                    lemma_bytes_cmp_zero(self.entries@[i as int].0@, key@);
                }
                self.entries.remove(i);
                self.entries.insert(i, (key, value));
                proof {
                    lemma_entries_view_len(self.entries@);
                    assert(ev.skip(i as int).drop_first() =~= ev.skip(i + 1));
                    assert(entries_view(self.entries@) =~= ev.take(i as int) + (seq![(kv, fv)]
                        + ev.skip(i + 1)));
                    assert(map_insert(ev.skip(i as int), kv, fv) == seq![(kv, fv)] + ev.skip(
                        i as int,
                    ).drop_first());
                    assert(entries_view(self.entries@) == map_insert(ev, kv, fv));
                }
            } else {
                self.entries.insert(i, (key, value));
                proof {
                    lemma_entries_view_len(self.entries@);
                    assert(entries_view(self.entries@) =~= ev.take(i as int) + (seq![(kv, fv)]
                        + ev.skip(i as int)));
                    assert(map_insert(ev.skip(i as int), kv, fv) == seq![(kv, fv)] + ev.skip(
                        i as int,
                    ));
                    assert(entries_view(self.entries@) == map_insert(ev, kv, fv));
                }
            }
        }
    }
}

impl RespSet {
    /// The empty set.
    pub fn new() -> (r: RespSet)
        ensures
            r@ == Seq::<FrameV>::empty(),
    {
        RespSet { elems: Vec::new() }
    }

    pub fn len(&self) -> (r: usize)
        ensures
            r == self@.len(),
    {
        proof {
            lemma_frames_view_len(self.elems@);
        }
        self.elems.len()
    }

    /// Where `value` belongs: the first index whose element is not below it.
    fn elem_position(&self, value: &RespFrame) -> (r: usize)
        ensures
            r <= self.elems@.len(),
            forall|j: int| 0 <= j < r ==> frame_lt(frame_view(#[trigger] self.elems@[j]),
            frame_view(*value)),
            r < self.elems@.len() ==> frame_cmp(
                frame_view(self.elems@[r as int]),
                frame_view(*value),
            ) != -1,
    {
        let n: usize = self.elems.len();
        let mut i: usize = 0;
        while i < n
            invariant
                0 <= i <= n,
                n == self.elems@.len(),
                forall|j: int| 0 <= j < i ==> frame_lt(frame_view(#[trigger] self.elems@[j]),
                frame_view(*value)),
            decreases n - i,
        {
            let c: i8 = cmp_frames(&self.elems[i], value);
            if c != -1 {
                return i;
            }
            i = i + 1;
        }
        i
    }

    /// Put `value` at its place in the frame order; an element it compares
    /// equal to is replaced, so elements stay distinct.
    pub fn insert(&mut self, value: RespFrame)
        ensures
            final(self)@ == set_insert(old(self)@, frame_view(value)),
    {
        let n: usize = self.elems.len();
        let i: usize = self.elem_position(&value);
        proof {
            lemma_frames_view_len(self.elems@);
            assert(forall|j: int|
                0 <= j < i ==> frame_lt(#[trigger] frames_view(self.elems@)[j], frame_view(value)));
            lemma_set_insert_split(frames_view(self.elems@), frame_view(value), i as int);
        }
        let ghost ev = frames_view(old(self).elems@);
        let ghost fv = frame_view(value);
        if i == n {
            self.elems.push(value);
            proof {
                lemma_frames_view_len(self.elems@);
                assert(ev.skip(n as int) =~= Seq::<FrameV>::empty());
                assert(ev.take(n as int) =~= ev);
                assert(frames_view(self.elems@) =~= ev + set_insert(ev.skip(n as int), fv));
            }
        } else {
            let c: i8 = cmp_frames(&self.elems[i], &value);
            proof {
                lemma_frame_cmp_antisym(frame_view(value), frame_view(self.elems@[i as int]));
                lemma_frame_cmp_range(frame_view(self.elems@[i as int]), frame_view(value));
                assert(ev.skip(i as int)[0] == ev[i as int]);
            }
            if c == 0 {
                self.elems.remove(i);
                self.elems.insert(i, value);
                proof {
                    lemma_frames_view_len(self.elems@);
                    assert(ev.skip(i as int).drop_first() =~= ev.skip(i + 1));
                    assert(frames_view(self.elems@) =~= ev.take(i as int) + (seq![fv] + ev.skip(
                        i + 1,
                    )));
                    assert(set_insert(ev.skip(i as int), fv) == seq![fv] + ev.skip(
                        i as int,
                    ).drop_first());
                    assert(frames_view(self.elems@) == set_insert(ev, fv));
                }
            } else {
                self.elems.insert(i, value);
                proof {
                    lemma_frames_view_len(self.elems@);
                    assert(frames_view(self.elems@) =~= ev.take(i as int) + (seq![fv] + ev.skip(
                        i as int,
                    )));
                    assert(set_insert(ev.skip(i as int), fv) == seq![fv] + ev.skip(i as int));
                    assert(frames_view(self.elems@) == set_insert(ev, fv));
                }
            }
        }
    }
}


/// Frames that compare equal are equal.
pub proof fn lemma_frame_cmp_zero(a: FrameV, b: FrameV)
    requires
        frame_cmp(a, b) == 0,
    ensures
        a == b,
    decreases a, 0nat,
{
    match (a, b) {
        (FrameV::SimpleString(x), FrameV::SimpleString(y)) => {
            lemma_bytes_cmp_zero(x, y);
        },
        (FrameV::SimpleError(x), FrameV::SimpleError(y)) => {
            lemma_bytes_cmp_zero(x, y);
        },
        (FrameV::BulkString(x), FrameV::BulkString(y)) => {
            lemma_bytes_cmp_zero(x, y);
        },
        (FrameV::Array(x), FrameV::Array(y)) => {
            lemma_frames_cmp_zero(x, y);
        },
        (FrameV::Double(x), FrameV::Double(y)) => {
            lemma_bytes_cmp_zero(x, y);
        },
        (FrameV::BulkError(x), FrameV::BulkError(y)) => {
            lemma_bytes_cmp_zero(x, y);
        },
        (FrameV::MapFrame(x), FrameV::MapFrame(y)) => {
            lemma_entries_cmp_zero(x, y);
        },
        (FrameV::SetFrame(x), FrameV::SetFrame(y)) => {
            lemma_frames_cmp_zero(x, y);
        },
        _ => {},
    }
}

pub proof fn lemma_frames_cmp_zero(x: Seq<FrameV>, y: Seq<FrameV>)
    requires
        frames_cmp(x, y) == 0,
    ensures
        x == y,
    decreases x, 1nat,
{
    if x.len() > 0 && y.len() > 0 {
        lemma_frame_cmp_zero(x[0], y[0]);
        lemma_frames_cmp_zero(x.drop_first(), y.drop_first());
        assert(x.drop_first().len() == y.drop_first().len());
        assert forall|i: int| 0 <= i < x.len() implies x[i] == y[i] by {
            if i > 0 {
                assert(x[i] == x.drop_first()[i - 1]);
                assert(y[i] == y.drop_first()[i - 1]);
            }
        }
        assert(x =~= y);
    } else {
        assert(x =~= y);
    }
}

pub proof fn lemma_entries_cmp_zero(x: Seq<(Seq<u8>, FrameV)>, y: Seq<(Seq<u8>, FrameV)>)
    requires
        entries_cmp(x, y) == 0,
    ensures
        x == y,
    decreases x, 1nat,
{
    if x.len() > 0 && y.len() > 0 {
        lemma_bytes_cmp_zero(x[0].0, y[0].0);
        lemma_frame_cmp_zero(x[0].1, y[0].1);
        lemma_entries_cmp_zero(x.drop_first(), y.drop_first());
        assert(x.drop_first().len() == y.drop_first().len());
        assert forall|i: int| 0 <= i < x.len() implies x[i] == y[i] by {
            if i > 0 {
                assert(x[i] == x.drop_first()[i - 1]);
                assert(y[i] == y.drop_first()[i - 1]);
            }
        }
        assert(x =~= y);
    } else {
        assert(x =~= y);
    }
}

/// Byte order composes: a chain of below-or-equal steps with at least one
/// strict step stays strictly below.
pub proof fn lemma_bytes_cmp_trans(a: Seq<u8>, b: Seq<u8>, c: Seq<u8>)
    ensures
        bytes_cmp(a, b) == -1 && bytes_cmp(b, c) == -1 ==> bytes_cmp(a, c) == -1,
        bytes_cmp(a, b) == -1 && bytes_cmp(b, c) == 0 ==> bytes_cmp(a, c) == -1,
        bytes_cmp(a, b) == 0 && bytes_cmp(b, c) == -1 ==> bytes_cmp(a, c) == -1,
    decreases a.len(),
{
    if bytes_cmp(a, b) == 0 {
        lemma_bytes_cmp_zero(a, b);
    }
    if bytes_cmp(b, c) == 0 {
        lemma_bytes_cmp_zero(b, c);
    }
    if a.len() > 0 && b.len() > 0 && c.len() > 0 {
        lemma_bytes_cmp_trans(a.drop_first(), b.drop_first(), c.drop_first());
    }
}

/// Frame order composes in the same way.
pub proof fn lemma_frame_cmp_trans(a: FrameV, b: FrameV, c: FrameV)
    ensures
        frame_cmp(a, b) == -1 && frame_cmp(b, c) == -1 ==> frame_cmp(a, c) == -1,
        frame_cmp(a, b) == -1 && frame_cmp(b, c) == 0 ==> frame_cmp(a, c) == -1,
        frame_cmp(a, b) == 0 && frame_cmp(b, c) == -1 ==> frame_cmp(a, c) == -1,
    decreases a, 0nat,
{
    if frame_cmp(a, b) == 0 {
        lemma_frame_cmp_zero(a, b);
    }
    if frame_cmp(b, c) == 0 {
        lemma_frame_cmp_zero(b, c);
    }
    if rank(a) == rank(b) && rank(b) == rank(c) {
        match (a, b, c) {
            (FrameV::SimpleString(x), FrameV::SimpleString(y), FrameV::SimpleString(z)) => {
                lemma_bytes_cmp_trans(x, y, z);
            },
            (FrameV::SimpleError(x), FrameV::SimpleError(y), FrameV::SimpleError(z)) => {
                lemma_bytes_cmp_trans(x, y, z);
            },
            (FrameV::BulkString(x), FrameV::BulkString(y), FrameV::BulkString(z)) => {
                lemma_bytes_cmp_trans(x, y, z);
            },
            (FrameV::Array(x), FrameV::Array(y), FrameV::Array(z)) => {
                lemma_frames_cmp_trans(x, y, z);
            },
            (FrameV::Double(x), FrameV::Double(y), FrameV::Double(z)) => {
                lemma_bytes_cmp_trans(x, y, z);
            },
            (FrameV::BulkError(x), FrameV::BulkError(y), FrameV::BulkError(z)) => {
                lemma_bytes_cmp_trans(x, y, z);
            },
            (FrameV::MapFrame(x), FrameV::MapFrame(y), FrameV::MapFrame(z)) => {
                lemma_entries_cmp_trans(x, y, z);
            },
            (FrameV::SetFrame(x), FrameV::SetFrame(y), FrameV::SetFrame(z)) => {
                lemma_frames_cmp_trans(x, y, z);
            },
            _ => {},
        }
    }
}

pub proof fn lemma_frames_cmp_trans(x: Seq<FrameV>, y: Seq<FrameV>, z: Seq<FrameV>)
    ensures
        frames_cmp(x, y) == -1 && frames_cmp(y, z) == -1 ==> frames_cmp(x, z) == -1,
        frames_cmp(x, y) == -1 && frames_cmp(y, z) == 0 ==> frames_cmp(x, z) == -1,
        frames_cmp(x, y) == 0 && frames_cmp(y, z) == -1 ==> frames_cmp(x, z) == -1,
    decreases x, 1nat,
{
    if frames_cmp(x, y) == 0 {
        lemma_frames_cmp_zero(x, y);
    }
    if frames_cmp(y, z) == 0 {
        lemma_frames_cmp_zero(y, z);
    }
    if x.len() > 0 && y.len() > 0 && z.len() > 0 {
        lemma_frame_cmp_trans(x[0], y[0], z[0]);
        if frame_cmp(x[0], y[0]) == 0 {
            lemma_frame_cmp_zero(x[0], y[0]);
        }
        if frame_cmp(y[0], z[0]) == 0 {
            lemma_frame_cmp_zero(y[0], z[0]);
        }
        lemma_frames_cmp_trans(x.drop_first(), y.drop_first(), z.drop_first());
    }
}

pub proof fn lemma_entries_cmp_trans(
    x: Seq<(Seq<u8>, FrameV)>,
    y: Seq<(Seq<u8>, FrameV)>,
    z: Seq<(Seq<u8>, FrameV)>,
)
    ensures
        entries_cmp(x, y) == -1 && entries_cmp(y, z) == -1 ==> entries_cmp(x, z) == -1,
        entries_cmp(x, y) == -1 && entries_cmp(y, z) == 0 ==> entries_cmp(x, z) == -1,
        entries_cmp(x, y) == 0 && entries_cmp(y, z) == -1 ==> entries_cmp(x, z) == -1,
    decreases x, 1nat,
{
    if entries_cmp(x, y) == 0 {
        lemma_entries_cmp_zero(x, y);
    }
    if entries_cmp(y, z) == 0 {
        lemma_entries_cmp_zero(y, z);
    }
    if x.len() > 0 && y.len() > 0 && z.len() > 0 {
        lemma_bytes_cmp_trans(x[0].0, y[0].0, z[0].0);
        if bytes_cmp(x[0].0, y[0].0) == 0 {
            lemma_bytes_cmp_zero(x[0].0, y[0].0);
        }
        if bytes_cmp(y[0].0, z[0].0) == 0 {
            lemma_bytes_cmp_zero(y[0].0, z[0].0);
        }
        lemma_frame_cmp_trans(x[0].1, y[0].1, z[0].1);
        if frame_cmp(x[0].1, y[0].1) == 0 {
            lemma_frame_cmp_zero(x[0].1, y[0].1);
        }
        if frame_cmp(y[0].1, z[0].1) == 0 {
            lemma_frame_cmp_zero(y[0].1, z[0].1);
        }
        lemma_entries_cmp_trans(x.drop_first(), y.drop_first(), z.drop_first());
    }
}

/// In a key-sorted entry list, every earlier key lies below every later one.
pub proof fn lemma_keys_sorted_chain(es: Seq<(Seq<u8>, FrameV)>, i: int, j: int)
    requires
        crate::model::keys_sorted(es),
        0 <= i < j < es.len(),
    ensures
        bytes_lt(es[i].0, es[j].0),
    decreases j - i,
{
    if j > i + 1 {
        lemma_keys_sorted_chain(es, i, j - 1);
        lemma_bytes_cmp_trans(es[i].0, es[j - 1].0, es[j].0);
    }
}

/// In a sorted element list, every earlier element lies below every later one.
pub proof fn lemma_elems_sorted_chain(els: Seq<FrameV>, i: int, j: int)
    requires
        crate::model::elems_sorted(els),
        0 <= i < j < els.len(),
    ensures
        frame_lt(els[i], els[j]),
    decreases j - i,
{
    if j > i + 1 {
        lemma_elems_sorted_chain(els, i, j - 1);
        lemma_frame_cmp_trans(els[i], els[j - 1], els[j]);
    }
}


/// Sorted insertion keeps keys strictly ascending.
pub proof fn lemma_map_insert_sorted(es: Seq<(Seq<u8>, FrameV)>, k: Seq<u8>, v: FrameV)
    requires
        crate::model::keys_sorted(es),
    ensures
        crate::model::keys_sorted(map_insert(es, k, v)),
        map_insert(es, k, v).len() <= es.len() + 1,
    decreases es.len(),
{
    let r = map_insert(es, k, v);
    if es.len() == 0 {
    } else {
        let e0 = es[0];
        let rest = es.drop_first();
        lemma_bytes_cmp_range(k, e0.0);
        lemma_bytes_cmp_antisym(k, e0.0);
        if bytes_cmp(k, e0.0) == 0 {
            lemma_bytes_cmp_zero(k, e0.0);
        }
        assert(forall|i: int|
            0 <= i < rest.len() - 1 ==> bytes_lt((#[trigger] rest[i]).0, rest[i + 1].0)) by {
            assert(forall|i: int|
                0 <= i < rest.len() - 1 ==> rest[i] == es[i + 1] && #[trigger] rest[i + 1]
                    == es[i + 2]);
        }
        if bytes_lt(k, e0.0) {
            assert forall|i: int| 0 <= i < r.len() - 1 implies bytes_lt(
                (#[trigger] r[i]).0,
                r[i + 1].0,
            ) by {
                if i > 0 {
                    assert(r[i] == es[i - 1]);
                    assert(r[i + 1] == es[i]);
                }
            }
        } else if k == e0.0 {
            assert forall|i: int| 0 <= i < r.len() - 1 implies bytes_lt(
                (#[trigger] r[i]).0,
                r[i + 1].0,
            ) by {
                if i == 0 {
                    assert(r[1] == es[1]);
                } else {
                    assert(r[i] == es[i]);
                    assert(r[i + 1] == es[i + 1]);
                }
            }
        } else {
            lemma_map_insert_sorted(rest, k, v);
            let ins = map_insert(rest, k, v);
            // the head of the inserted tail is the new pair or the old head
            if rest.len() == 0 {
                assert(ins =~= seq![(k, v)]);
            } else {
                lemma_bytes_cmp_range(k, rest[0].0);
                lemma_bytes_cmp_antisym(k, rest[0].0);
                if bytes_cmp(k, rest[0].0) == 0 {
                    lemma_bytes_cmp_zero(k, rest[0].0);
                }
            }
            assert(ins.len() > 0 && (ins[0] == (k, v) || ins[0] == rest[0]));
            assert forall|i: int| 0 <= i < r.len() - 1 implies bytes_lt(
                (#[trigger] r[i]).0,
                r[i + 1].0,
            ) by {
                if i == 0 {
                    assert(r[1] == ins[0]);
                } else {
                    assert(r[i] == ins[i - 1]);
                    assert(r[i + 1] == ins[i]);
                }
            }
        }
    }
}

/// Sorted insertion keeps set elements strictly ascending.
pub proof fn lemma_set_insert_sorted(els: Seq<FrameV>, f: FrameV)
    requires
        crate::model::elems_sorted(els),
    ensures
        crate::model::elems_sorted(set_insert(els, f)),
        set_insert(els, f).len() <= els.len() + 1,
    decreases els.len(),
{
    let r = set_insert(els, f);
    if els.len() == 0 {
    } else {
        let e0 = els[0];
        let rest = els.drop_first();
        lemma_frame_cmp_range(f, e0);
        lemma_frame_cmp_antisym(f, e0);
        if frame_cmp(f, e0) == 0 {
            lemma_frame_cmp_zero(f, e0);
        }
        assert(forall|i: int|
            0 <= i < rest.len() - 1 ==> frame_lt(#[trigger] rest[i], rest[i + 1])) by {
            assert(forall|i: int|
                0 <= i < rest.len() - 1 ==> rest[i] == els[i + 1] && #[trigger] rest[i + 1]
                    == els[i + 2]);
        }
        if frame_lt(f, e0) {
            assert forall|i: int| 0 <= i < r.len() - 1 implies frame_lt(
                #[trigger] r[i],
                r[i + 1],
            ) by {
                if i > 0 {
                    assert(r[i] == els[i - 1]);
                    assert(r[i + 1] == els[i]);
                }
            }
        } else if frame_cmp(f, e0) == 0 {
            assert forall|i: int| 0 <= i < r.len() - 1 implies frame_lt(
                #[trigger] r[i],
                r[i + 1],
            ) by {
                if i == 0 {
                    assert(r[1] == els[1]);
                } else {
                    assert(r[i] == els[i]);
                    assert(r[i + 1] == els[i + 1]);
                }
            }
        } else {
            lemma_set_insert_sorted(rest, f);
            let ins = set_insert(rest, f);
            if rest.len() == 0 {
                assert(ins =~= seq![f]);
            } else {
                lemma_frame_cmp_range(f, rest[0]);
                lemma_frame_cmp_antisym(f, rest[0]);
                if frame_cmp(f, rest[0]) == 0 {
                    lemma_frame_cmp_zero(f, rest[0]);
                }
            }
            assert(ins.len() > 0 && (ins[0] == f || ins[0] == rest[0]));
            assert forall|i: int| 0 <= i < r.len() - 1 implies frame_lt(
                #[trigger] r[i],
                r[i + 1],
            ) by {
                if i == 0 {
                    assert(r[1] == ins[0]);
                } else {
                    assert(r[i] == ins[i - 1]);
                    assert(r[i + 1] == ins[i]);
                }
            }
        }
    }
}

/// Insertion keeps every entry's key line-safe and its value well-formed.
pub proof fn lemma_map_insert_wf(es: Seq<(Seq<u8>, FrameV)>, k: Seq<u8>, v: FrameV, d: nat)
    requires
        crate::model::wf_entries_at(es, d),
        crate::model::line_ok(k),
        crate::model::wf_at(v, d),
    ensures
        crate::model::wf_entries_at(map_insert(es, k, v), d),
    decreases es.len(),
{
    let r = map_insert(es, k, v);
    assert(crate::model::wf_entries_at(Seq::<(Seq<u8>, FrameV)>::empty(), d));
    if es.len() == 0 {
        assert(r[0] == (k, v));
        assert(r.drop_first() =~= Seq::<(Seq<u8>, FrameV)>::empty());
    } else if bytes_lt(k, es[0].0) {
        assert(r[0] == (k, v));
        assert(r.drop_first() =~= es);
    } else if k == es[0].0 {
        assert(r[0] == (k, v));
        assert(r.drop_first() =~= es.drop_first());
    } else {
        lemma_map_insert_wf(es.drop_first(), k, v, d);
        assert(r[0] == es[0]);
        assert(r.drop_first() =~= map_insert(es.drop_first(), k, v));
    }
}

/// Insertion keeps every set element well-formed.
pub proof fn lemma_set_insert_wf(els: Seq<FrameV>, f: FrameV, d: nat)
    requires
        crate::model::wf_seq_at(els, d),
        crate::model::wf_at(f, d),
    ensures
        crate::model::wf_seq_at(set_insert(els, f), d),
    decreases els.len(),
{
    let r = set_insert(els, f);
    assert(crate::model::wf_seq_at(Seq::<FrameV>::empty(), d));
    if els.len() == 0 {
        assert(r[0] == f);
        assert(r.drop_first() =~= Seq::<FrameV>::empty());
    } else if frame_lt(f, els[0]) {
        assert(r[0] == f);
        assert(r.drop_first() =~= els);
    } else if frame_cmp(f, els[0]) == 0 {
        assert(r[0] == f);
        assert(r.drop_first() =~= els.drop_first());
    } else {
        lemma_set_insert_wf(els.drop_first(), f, d);
        assert(r[0] == els[0]);
        assert(r.drop_first() =~= set_insert(els.drop_first(), f));
    }
}

} // verus!
