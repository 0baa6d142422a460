//! A cursor over the values of a bitmap, in increasing order, that can move
//! both ways and rests on a ghost position before the first value or after
//! the last one.
use crate::bitmap::{greatest_at_or_before, least_at_or_after, Bitmap};
use vstd::prelude::*;

verus! {

/// Where a cursor rests.
#[derive(Debug, Clone, Copy, PartialEq, Eq, Structural)]
pub enum CursorPosition {
    /// The ghost position before the first value.
    BeforeStart,
    /// On a value of the bitmap.
    At(u32),
    /// The ghost position after the last value.
    AfterEnd,
}

/// The value under a position, if any.
pub open spec fn value_at(p: CursorPosition) -> Option<u32> {
    match p {
        CursorPosition::At(v) => Some(v),
        _ => None,
    }
}

/// The position on the least value of `s` from `x` on, or after the end.
pub open spec fn forward_to(s: Set<u32>, x: int, p: CursorPosition) -> bool {
    &&& p !is BeforeStart
    &&& least_at_or_after(s, x, value_at(p))
}

/// The position on the greatest value of `s` up to `x`, or before the start.
pub open spec fn backward_to(s: Set<u32>, x: int, p: CursorPosition) -> bool {
    &&& p !is AfterEnd
    &&& greatest_at_or_before(s, x, value_at(p))
}

/// Moving forward from `p` lands on `q`.
pub open spec fn moved_next(s: Set<u32>, p: CursorPosition, q: CursorPosition) -> bool {
    match p {
        CursorPosition::BeforeStart => forward_to(s, 0, q),
        CursorPosition::At(v) => forward_to(s, v + 1, q),
        CursorPosition::AfterEnd => q is AfterEnd,
    }
}

/// Moving backward from `p` lands on `q`.
pub open spec fn moved_prev(s: Set<u32>, p: CursorPosition, q: CursorPosition) -> bool {
    match p {
        CursorPosition::BeforeStart => q is BeforeStart,
        CursorPosition::At(v) => backward_to(s, v - 1, q),
        CursorPosition::AfterEnd => backward_to(s, u32::MAX as int, q),
    }
}

/// From `p`, the cursor read the values `vals` one after another and came to
/// rest on `q`.
pub open spec fn walked(s: Set<u32>, p: CursorPosition, vals: Seq<u32>, q: CursorPosition) -> bool {
    &&& vals.len() == 0 ==> q == p
    &&& vals.len() > 0 ==> {
        &&& p == CursorPosition::At(vals[0])
        &&& forall|i: int| 0 <= i < vals.len() - 1 ==> least_at_or_after(s, vals[i] + 1, Some(#[trigger] vals[i + 1]))
        &&& moved_next(s, CursorPosition::At(vals.last()), q)
    }
}

/// A cursor over the values of a bitmap.
pub struct BitmapCursor<'a> {
    bitmap: &'a Bitmap,
    pos: CursorPosition,
}

impl<'a> BitmapCursor<'a> {
    #[verifier::type_invariant]
    spec fn well_placed(self) -> bool {
        self.pos matches CursorPosition::At(v) ==> self.bitmap@.contains(v)
    }

    /// The values the cursor walks over.
    pub closed spec fn values(self) -> Set<u32> {
        self.bitmap@
    }

    /// Where the cursor rests.
    pub closed spec fn position(self) -> CursorPosition {
        self.pos
    }

    fn forward(bitmap: &'a Bitmap, x: u32) -> (r: Self)
        ensures
            r.values() == bitmap@,
            forward_to(bitmap@, x as int, r.position()),
    {
        let pos = match bitmap.least_at_or_after(x) {
            Some(v) => CursorPosition::At(v),
            None => CursorPosition::AfterEnd,
        };
        BitmapCursor { bitmap, pos }
    }

    fn backward(bitmap: &'a Bitmap, x: u32) -> (r: Self)
        ensures
            r.values() == bitmap@,
            backward_to(bitmap@, x as int, r.position()),
    {
        let pos = match bitmap.greatest_at_or_before(x) {
            Some(v) => CursorPosition::At(v),
            None => CursorPosition::BeforeStart,
        };
        BitmapCursor { bitmap, pos }
    }

    /// Whether the cursor is on a value (not on a ghost position).
    pub fn has_value(&self) -> (r: bool)
        ensures
            r == self.position() is At,
    {
        match self.pos {
            CursorPosition::At(_) => true,
            _ => false,
        }
    }

    /// The value under the cursor, if any.
    pub fn current(&self) -> (r: Option<u32>)
        ensures
            r == value_at(self.position()),
    {
        match self.pos {
            CursorPosition::At(v) => Some(v),
            _ => None,
        }
    }

    /// Moves the cursor to the next value. Past the end it stays; from the
    /// ghost position before the start it moves to the first value.
    pub fn move_next(&mut self)
        ensures
            final(self).values() == old(self).values(),
            moved_next(old(self).values(), old(self).position(), final(self).position()),
    {
        let bitmap = self.bitmap;
        let next = match self.pos {
            CursorPosition::BeforeStart => Self::forward(bitmap, 0),
            CursorPosition::At(v) => {
                if v == u32::MAX {
                    proof {
                        assert forall|y: u32| #[trigger] bitmap@.contains(y) implies y < v + 1 by {}
                    }
                    BitmapCursor { bitmap, pos: CursorPosition::AfterEnd }
                } else {
                    Self::forward(bitmap, v + 1)
                }
            },
            CursorPosition::AfterEnd => BitmapCursor { bitmap, pos: CursorPosition::AfterEnd },
        };
        *self = next;
    }

    /// Moves the cursor to the next value and returns it.
    pub fn next(&mut self) -> (r: Option<u32>)
        ensures
            final(self).values() == old(self).values(),
            moved_next(old(self).values(), old(self).position(), final(self).position()),
            r == value_at(final(self).position()),
    {
        self.move_next();
        self.current()
    }

    /// Moves the cursor to the previous value. Before the start it stays;
    /// from the ghost position after the end it moves to the last value.
    pub fn move_prev(&mut self)
        ensures
            final(self).values() == old(self).values(),
            moved_prev(old(self).values(), old(self).position(), final(self).position()),
    {
        let bitmap = self.bitmap;
        let prev = match self.pos {
            CursorPosition::BeforeStart => BitmapCursor { bitmap, pos: CursorPosition::BeforeStart },
            CursorPosition::At(v) => {
                if v == 0 {
                    proof {
                        assert forall|y: u32| #[trigger] bitmap@.contains(y) implies v - 1 < y by {}
                    }
                    BitmapCursor { bitmap, pos: CursorPosition::BeforeStart }
                } else {
                    Self::backward(bitmap, v - 1)
                }
            },
            CursorPosition::AfterEnd => Self::backward(bitmap, u32::MAX),
        };
        *self = prev;
    }

    /// Moves the cursor to the previous value and returns it.
    pub fn prev(&mut self) -> (r: Option<u32>)
        ensures
            final(self).values() == old(self).values(),
            moved_prev(old(self).values(), old(self).position(), final(self).position()),
            r == value_at(final(self).position()),
    {
        self.move_prev();
        self.current()
    }

    /// Reads values into `dst`, starting with the value under the cursor and
    /// moving forward, until `dst` is full or the values run out; returns how
    /// many were read.
    pub fn read_many(&mut self, dst: &mut [u32]) -> (r: usize)
        ensures
            final(self).values() == old(self).values(),
            r <= old(dst)@.len(),
            final(dst)@.len() == old(dst)@.len(),
            forall|i: int| r <= i < old(dst)@.len() ==> #[trigger] final(dst)@[i] == old(dst)@[i],
            walked(old(self).values(), old(self).position(), final(dst)@.take(r as int), final(self).position()),
            r < old(dst)@.len() ==> final(self).position() !is At,
    {
        let ghost s = self.values();
        let ghost p0 = self.position();
        let mut i: usize = 0;
        proof {
            assert(dst@.take(0) =~= Seq::<u32>::empty());
        }
        while i < dst.len()
            invariant
                self.values() == s,
                i <= dst@.len(),
                dst@.len() == old(dst)@.len(),
                forall|j: int| i <= j < old(dst)@.len() ==> #[trigger] dst@[j] == old(dst)@[j],
                walked(s, p0, dst@.take(i as int), self.position()),
            ensures
                self.values() == s,
                i <= dst@.len(),
                dst@.len() == old(dst)@.len(),
                forall|j: int| i <= j < old(dst)@.len() ==> #[trigger] dst@[j] == old(dst)@[j],
                walked(s, p0, dst@.take(i as int), self.position()),
                i < dst@.len() ==> self.position() !is At,
            decreases dst@.len() - i,
        {
            let v = match self.pos {
                CursorPosition::At(v) => v,
                _ => break,
            };
            let ghost before = dst@.take(i as int);
            let ghost p = self.position();
            dst[i] = v;
            self.move_next();
            proof {
                let t = dst@.take(i + 1);
                assert(t =~= before.push(v));
                if i > 0 {
                    assert(moved_next(s, CursorPosition::At(before.last()), p));
                    assert forall|k: int| 0 <= k < t.len() - 1 implies least_at_or_after(s, t[k] + 1, Some(#[trigger] t[k + 1])) by {
                        if k < before.len() - 1 {
                            assert(t[k] == before[k] && t[k + 1] == before[k + 1]);
                        } else {
                            assert(t[k] == before.last() && t[k + 1] == v);
                        }
                    }
                }
            }
            i = i + 1;
        }
        i
    }

    /// A cursor on the first value of `bitmap`.
    pub fn reset_to_first(self, bitmap: &Bitmap) -> (r: BitmapCursor<'_>)
        ensures
            r.values() == bitmap@,
            forward_to(bitmap@, 0, r.position()),
    {
        BitmapCursor::forward(bitmap, 0)
    }

    /// A cursor on the last value of `bitmap`.
    pub fn reset_to_last(self, bitmap: &Bitmap) -> (r: BitmapCursor<'_>)
        ensures
            r.values() == bitmap@,
            backward_to(bitmap@, u32::MAX as int, r.position()),
    {
        BitmapCursor::backward(bitmap, u32::MAX)
    }

    /// Moves the cursor to the first value that is at least `val`, forwards
    /// or backwards.
    pub fn reset_at_or_after(&mut self, val: u32)
        ensures
            final(self).values() == old(self).values(),
            forward_to(old(self).values(), val as int, final(self).position()),
    {
        let next = Self::forward(self.bitmap, val);
        *self = next;
    }
}

impl<'a> Clone for BitmapCursor<'a> {
    fn clone(&self) -> (r: Self)
        ensures
            r.values() == self.values(),
            r.position() == self.position(),
    {
        proof {
            use_type_invariant(self);
        }
        BitmapCursor { bitmap: self.bitmap, pos: self.pos }
    }
}

impl Bitmap {
    /// A cursor on the first value of the bitmap (after the end when it is
    /// empty).
    pub fn cursor(&self) -> (r: BitmapCursor<'_>)
        ensures
            r.values() == self@,
            forward_to(self@, 0, r.position()),
    {
        BitmapCursor::forward(self, 0)
    }

    /// A cursor on the last value of the bitmap (before the start when it is
    /// empty).
    pub fn cursor_to_last(&self) -> (r: BitmapCursor<'_>)
        ensures
            r.values() == self@,
            backward_to(self@, u32::MAX as int, r.position()),
    {
        BitmapCursor::backward(self, u32::MAX)
    }
}

/// An iterator over the values of a bitmap, in increasing order.
pub struct BitmapIterator<'a> {
    cursor: BitmapCursor<'a>,
}

impl<'a> BitmapIterator<'a> {
    /// The values the iterator walks over.
    pub closed spec fn values(self) -> Set<u32> {
        self.cursor.values()
    }

    /// Where the iterator rests: on the value it gives next, or after the
    /// end.
    pub closed spec fn position(self) -> CursorPosition {
        self.cursor.position()
    }

    /// The value the iterator gives next, if any; the iterator then moves
    /// past it.
    pub fn next(&mut self) -> (r: Option<u32>)
        ensures
            final(self).values() == old(self).values(),
            r == value_at(old(self).position()),
            r is Some ==> moved_next(old(self).values(), old(self).position(), final(self).position()),
            r is None ==> final(self).position() == old(self).position(),
    {
        match self.cursor.current() {
            Some(v) => {
                self.cursor.move_next();
                Some(v)
            },
            None => None,
        }
    }

    /// Reads values into `dst` until it is full or the values run out;
    /// returns how many were read.
    pub fn next_many(&mut self, dst: &mut [u32]) -> (r: usize)
        ensures
            final(self).values() == old(self).values(),
            r <= old(dst)@.len(),
            final(dst)@.len() == old(dst)@.len(),
            forall|i: int| r <= i < old(dst)@.len() ==> #[trigger] final(dst)@[i] == old(dst)@[i],
            walked(old(self).values(), old(self).position(), final(dst)@.take(r as int), final(self).position()),
            r < old(dst)@.len() ==> final(self).position() !is At,
    {
        self.cursor.read_many(dst)
    }

    /// Moves the iterator to the first value that is at least `val`.
    pub fn reset_at_or_after(&mut self, val: u32)
        ensures
            final(self).values() == old(self).values(),
            forward_to(old(self).values(), val as int, final(self).position()),
    {
        self.cursor.reset_at_or_after(val);
    }

    /// The value the iterator gives next, without moving.
    pub fn peek(&self) -> (r: Option<u32>)
        ensures
            r == value_at(self.position()),
    {
        self.cursor.current()
    }
}

impl<'a> BitmapIterator<'a> {
    /// Chunks of at most `chunk_size` values, read from where the iterator
    /// rests; the size must not be zero.
    pub fn chunks(self, chunk_size: usize) -> (r: BitmapChunks<'a>)
        requires
            chunk_size != 0,
        ensures
            r.values() == self.values(),
            r.position() == self.position(),
            r.size() == chunk_size,
    {
        BitmapChunks::new(self, chunk_size)
    }
}

/// Successive chunks of values read from a bitmap iterator.
pub struct BitmapChunks<'a> {
    iterator: BitmapIterator<'a>,
    size: usize,
}

impl<'a> BitmapChunks<'a> {
    /// The values walked over.
    pub closed spec fn values(self) -> Set<u32> {
        self.iterator.values()
    }

    /// Where the walk rests.
    pub closed spec fn position(self) -> CursorPosition {
        self.iterator.position()
    }

    /// The most values a chunk holds.
    pub closed spec fn size(self) -> nat {
        self.size as nat
    }

    /// Chunks of at most `size` values read from `iterator`.
    pub fn new(iterator: BitmapIterator<'a>, size: usize) -> (r: Self)
        ensures
            r.values() == iterator.values(),
            r.position() == iterator.position(),
            r.size() == size,
    {
        BitmapChunks { iterator, size }
    }

    /// The next chunk: the next values of the walk, as many as fit; `None`
    /// once the values have run out.
    pub fn next(&mut self) -> (r: Option<Vec<u32>>)
        requires
            old(self).size() <= u32::MAX,
        ensures
            final(self).values() == old(self).values(),
            final(self).size() == old(self).size(),
            r is None ==> final(self).position() == old(self).position() && (old(self).size() == 0
                || old(self).position() !is At),
            r matches Some(v) ==> 0 < v@.len() <= old(self).size() && walked(
                old(self).values(),
                old(self).position(),
                v@,
                final(self).position(),
            ) && (v@.len() < old(self).size() ==> final(self).position() !is At),
    {
        let mut buffer: Vec<u32> = vec![0u32; self.size];
        let n = self.iterator.next_many(buffer.as_mut_slice());
        buffer.truncate(n);
        if buffer.len() == 0 {
            None
        } else {
            Some(buffer)
        }
    }
}

impl Bitmap {
    /// An iterator over the values of the bitmap, in increasing order.
    pub fn iter(&self) -> (r: BitmapIterator<'_>)
        ensures
            r.values() == self@,
            forward_to(self@, 0, r.position()),
    {
        BitmapIterator { cursor: self.cursor() }
    }
}

} // verus!
