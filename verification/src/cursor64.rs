//! A cursor over the values of a 64-bit bitmap, in increasing order, that can
//! move both ways and rests on a ghost position before the first value or
//! after the last one.
use crate::bitmap64::{greatest64, least64, Bitmap64};
use vstd::prelude::*;

verus! {

/// Where a cursor rests.
#[derive(Debug, Clone, Copy, PartialEq, Eq, Structural)]
pub enum Cursor64Position {
    /// The ghost position before the first value.
    BeforeStart,
    /// On a value of the bitmap.
    At(u64),
    /// The ghost position after the last value.
    AfterEnd,
}

/// The value under a position, if any.
pub open spec fn value_at(p: Cursor64Position) -> Option<u64> {
    match p {
        Cursor64Position::At(v) => Some(v),
        _ => None,
    }
}

/// The position on the least value of `s` from `x` on, or after the end.
pub open spec fn forward_to(s: Set<u64>, x: int, p: Cursor64Position) -> bool {
    &&& p !is BeforeStart
    &&& least64(s, x, value_at(p))
}

/// The position on the greatest value of `s` up to `x`, or before the start.
pub open spec fn backward_to(s: Set<u64>, x: int, p: Cursor64Position) -> bool {
    &&& p !is AfterEnd
    &&& greatest64(s, x, value_at(p))
}

/// Moving forward from `p` lands on `q`.
pub open spec fn moved_next(s: Set<u64>, p: Cursor64Position, q: Cursor64Position) -> bool {
    match p {
        Cursor64Position::BeforeStart => forward_to(s, 0, q),
        Cursor64Position::At(v) => forward_to(s, v + 1, q),
        Cursor64Position::AfterEnd => q is AfterEnd,
    }
}

/// Moving backward from `p` lands on `q`.
pub open spec fn moved_prev(s: Set<u64>, p: Cursor64Position, q: Cursor64Position) -> bool {
    match p {
        Cursor64Position::BeforeStart => q is BeforeStart,
        Cursor64Position::At(v) => backward_to(s, v - 1, q),
        Cursor64Position::AfterEnd => backward_to(s, u64::MAX as int, q),
    }
}

/// From `p`, the cursor read the values `vals` one after another and came to
/// rest on `q`.
pub open spec fn walked(s: Set<u64>, p: Cursor64Position, vals: Seq<u64>, q: Cursor64Position) -> bool {
    &&& vals.len() == 0 ==> q == p
    &&& vals.len() > 0 ==> {
        &&& p == Cursor64Position::At(vals[0])
        &&& forall|i: int| 0 <= i < vals.len() - 1 ==> least64(s, vals[i] + 1, Some(#[trigger] vals[i + 1]))
        &&& moved_next(s, Cursor64Position::At(vals.last()), q)
    }
}

/// A cursor over the values of a 64-bit bitmap.
pub struct Bitmap64Cursor<'a> {
    bitmap: &'a Bitmap64,
    pos: Cursor64Position,
}

impl<'a> Bitmap64Cursor<'a> {
    #[verifier::type_invariant]
    spec fn well_placed(self) -> bool {
        self.pos matches Cursor64Position::At(v) ==> self.bitmap@.contains(v)
    }

    /// The values the cursor walks over.
    pub closed spec fn values(self) -> Set<u64> {
        self.bitmap@
    }

    /// Where the cursor rests.
    pub closed spec fn position(self) -> Cursor64Position {
        self.pos
    }

    fn forward(bitmap: &'a Bitmap64, x: u64) -> (r: Self)
        ensures
            r.values() == bitmap@,
            forward_to(bitmap@, x as int, r.position()),
    {
        let pos = match bitmap.least_at_or_after(x) {
            Some(v) => Cursor64Position::At(v),
            None => Cursor64Position::AfterEnd,
        };
        Bitmap64Cursor { bitmap, pos }
    }

    fn backward(bitmap: &'a Bitmap64, x: u64) -> (r: Self)
        ensures
            r.values() == bitmap@,
            backward_to(bitmap@, x as int, r.position()),
    {
        let pos = match bitmap.greatest_at_or_before(x) {
            Some(v) => Cursor64Position::At(v),
            None => Cursor64Position::BeforeStart,
        };
        Bitmap64Cursor { bitmap, pos }
    }

    /// Whether the cursor is on a value (not on a ghost position).
    pub fn has_value(&self) -> (r: bool)
        ensures
            r == self.position() is At,
    {
        match self.pos {
            Cursor64Position::At(_) => true,
            _ => false,
        }
    }

    /// The value under the cursor, if any.
    pub fn current(&self) -> (r: Option<u64>)
        ensures
            r == value_at(self.position()),
    {
        match self.pos {
            Cursor64Position::At(v) => Some(v),
            _ => None,
        }
    }

    /// Moves the cursor to the next value. Past the end it stays; from the
    /// ghost position before the start it moves to the first value.
    pub fn move_next(&mut self)
        ensures
            final(self).values() == old(self).values(),
            moved_next(old(self).values(), old(self).position(), final(self).position()),
    {
        let bitmap = self.bitmap;
        let next = match self.pos {
            Cursor64Position::BeforeStart => Self::forward(bitmap, 0),
            Cursor64Position::At(v) => {
                if v == u64::MAX {
                    proof {
                        assert forall|y: u64| #[trigger] bitmap@.contains(y) implies y < v + 1 by {}
                    }
                    Bitmap64Cursor { bitmap, pos: Cursor64Position::AfterEnd }
                } else {
                    Self::forward(bitmap, v + 1)
                }
            },
            Cursor64Position::AfterEnd => Bitmap64Cursor { bitmap, pos: Cursor64Position::AfterEnd },
        };
        *self = next;
    }

    /// Moves the cursor to the next value and returns it.
    pub fn next(&mut self) -> (r: Option<u64>)
        ensures
            final(self).values() == old(self).values(),
            moved_next(old(self).values(), old(self).position(), final(self).position()),
            r == value_at(final(self).position()),
    {
        self.move_next();
        self.current()
    }

    /// Moves the cursor to the previous value. Before the start it stays;
    /// from the ghost position after the end it moves to the last value.
    pub fn move_prev(&mut self)
        ensures
            final(self).values() == old(self).values(),
            moved_prev(old(self).values(), old(self).position(), final(self).position()),
    {
        let bitmap = self.bitmap;
        let prev = match self.pos {
            Cursor64Position::BeforeStart => Bitmap64Cursor { bitmap, pos: Cursor64Position::BeforeStart },
            Cursor64Position::At(v) => {
                if v == 0 {
                    proof {
                        assert forall|y: u64| #[trigger] bitmap@.contains(y) implies v - 1 < y by {}
                    }
                    Bitmap64Cursor { bitmap, pos: Cursor64Position::BeforeStart }
                } else {
                    Self::backward(bitmap, v - 1)
                }
            },
            Cursor64Position::AfterEnd => Self::backward(bitmap, u64::MAX),
        };
        *self = prev;
    }

    /// Moves the cursor to the previous value and returns it.
    pub fn prev(&mut self) -> (r: Option<u64>)
        ensures
            final(self).values() == old(self).values(),
            moved_prev(old(self).values(), old(self).position(), final(self).position()),
            r == value_at(final(self).position()),
    {
        self.move_prev();
        self.current()
    }

    /// Reads values into `dst`, starting with the value under the cursor and
    /// moving forward, until `dst` is full or the values run out; returns how
    /// many were read.
    pub fn read_many(&mut self, dst: &mut [u64]) -> (r: usize)
        ensures
            final(self).values() == old(self).values(),
            r <= old(dst)@.len(),
            final(dst)@.len() == old(dst)@.len(),
            forall|i: int| r <= i < old(dst)@.len() ==> #[trigger] final(dst)@[i] == old(dst)@[i],
            walked(old(self).values(), old(self).position(), final(dst)@.take(r as int), final(self).position()),
            r < old(dst)@.len() ==> final(self).position() !is At,
    {
        let ghost s = self.values();
        let ghost p0 = self.position();
        let mut i: usize = 0;
        proof {
            assert(dst@.take(0) =~= Seq::<u64>::empty());
        }
        while i < dst.len()
            invariant
                self.values() == s,
                i <= dst@.len(),
                dst@.len() == old(dst)@.len(),
                forall|j: int| i <= j < old(dst)@.len() ==> #[trigger] dst@[j] == old(dst)@[j],
                walked(s, p0, dst@.take(i as int), self.position()),
            ensures
                self.values() == s,
                i <= dst@.len(),
                dst@.len() == old(dst)@.len(),
                forall|j: int| i <= j < old(dst)@.len() ==> #[trigger] dst@[j] == old(dst)@[j],
                walked(s, p0, dst@.take(i as int), self.position()),
                i < dst@.len() ==> self.position() !is At,
            decreases dst@.len() - i,
        {
            let v = match self.pos {
                Cursor64Position::At(v) => v,
                _ => break,
            };
            let ghost before = dst@.take(i as int);
            let ghost p = self.position();
            dst[i] = v;
            self.move_next();
            proof {
                let t = dst@.take(i + 1);
                assert(t =~= before.push(v));
                if i > 0 {
                    assert(moved_next(s, Cursor64Position::At(before.last()), p));
                    assert forall|k: int| 0 <= k < t.len() - 1 implies least64(s, t[k] + 1, Some(#[trigger] t[k + 1])) by {
                        if k < before.len() - 1 {
                            assert(t[k] == before[k] && t[k + 1] == before[k + 1]);
                        } else {
                            assert(t[k] == before.last() && t[k + 1] == v);
                        }
                    }
                }
            }
            i = i + 1;
        }
        i
    }

    /// A cursor on the first value of `bitmap`.
    pub fn reset_to_first(self, bitmap: &Bitmap64) -> (r: Bitmap64Cursor<'_>)
        ensures
            r.values() == bitmap@,
            forward_to(bitmap@, 0, r.position()),
    {
        Bitmap64Cursor::forward(bitmap, 0)
    }

    /// A cursor on the last value of `bitmap`.
    pub fn reset_to_last(self, bitmap: &Bitmap64) -> (r: Bitmap64Cursor<'_>)
        ensures
            r.values() == bitmap@,
            backward_to(bitmap@, u64::MAX as int, r.position()),
    {
        Bitmap64Cursor::backward(bitmap, u64::MAX)
    }

    /// Moves the cursor to the first value that is at least `val`, forwards
    /// or backwards.
    pub fn reset_at_or_after(&mut self, val: u64)
        ensures
            final(self).values() == old(self).values(),
            forward_to(old(self).values(), val as int, final(self).position()),
    {
        let next = Self::forward(self.bitmap, val);
        *self = next;
    }
}

impl<'a> Clone for Bitmap64Cursor<'a> {
    fn clone(&self) -> (r: Self)
        ensures
            r.values() == self.values(),
            r.position() == self.position(),
    {
        proof {
            use_type_invariant(self);
        }
        Bitmap64Cursor { bitmap: self.bitmap, pos: self.pos }
    }
}

impl Bitmap64 {
    /// A cursor on the first value of the bitmap (after the end when it is
    /// empty).
    pub fn cursor(&self) -> (r: Bitmap64Cursor<'_>)
        ensures
            r.values() == self@,
            forward_to(self@, 0, r.position()),
    {
        Bitmap64Cursor::forward(self, 0)
    }

    /// A cursor on the last value of the bitmap (before the start when it is
    /// empty).
    pub fn cursor_to_last(&self) -> (r: Bitmap64Cursor<'_>)
        ensures
            r.values() == self@,
            backward_to(self@, u64::MAX as int, r.position()),
    {
        Bitmap64Cursor::backward(self, u64::MAX)
    }
}

/// An iterator over the values of a bitmap, in increasing order.
pub struct Bitmap64Iterator<'a> {
    cursor: Bitmap64Cursor<'a>,
}

impl<'a> Bitmap64Iterator<'a> {
    /// The values the iterator walks over.
    pub closed spec fn values(self) -> Set<u64> {
        self.cursor.values()
    }

    /// Where the iterator rests: on the value it gives next, or after the
    /// end.
    pub closed spec fn position(self) -> Cursor64Position {
        self.cursor.position()
    }

    /// The value the iterator gives next, if any; the iterator then moves
    /// past it.
    pub fn next(&mut self) -> (r: Option<u64>)
        ensures
            final(self).values() == old(self).values(),
            r == value_at(old(self).position()),
            r is Some ==> moved_next(old(self).values(), old(self).position(), final(self).position()),
            r is None ==> final(self).position() == old(self).position(),
    {
        match self.cursor.current() {
            Some(v) => {
                self.cursor.move_next();
                Some(v)
            },
            None => None,
        }
    }

    /// Reads values into `dst` until it is full or the values run out;
    /// returns how many were read.
    pub fn next_many(&mut self, dst: &mut [u64]) -> (r: usize)
        ensures
            final(self).values() == old(self).values(),
            r <= old(dst)@.len(),
            final(dst)@.len() == old(dst)@.len(),
            forall|i: int| r <= i < old(dst)@.len() ==> #[trigger] final(dst)@[i] == old(dst)@[i],
            walked(old(self).values(), old(self).position(), final(dst)@.take(r as int), final(self).position()),
            r < old(dst)@.len() ==> final(self).position() !is At,
    {
        self.cursor.read_many(dst)
    }

    /// Moves the iterator to the first value that is at least `val`.
    pub fn reset_at_or_after(&mut self, val: u64)
        ensures
            final(self).values() == old(self).values(),
            forward_to(old(self).values(), val as int, final(self).position()),
    {
        self.cursor.reset_at_or_after(val);
    }

    /// The value the iterator gives next, without moving.
    pub fn peek(&self) -> (r: Option<u64>)
        ensures
            r == value_at(self.position()),
    {
        self.cursor.current()
    }
}

impl Bitmap64 {
    /// An iterator over the values of the bitmap, in increasing order.
    pub fn iter(&self) -> (r: Bitmap64Iterator<'_>)
        ensures
            r.values() == self@,
            forward_to(self@, 0, r.position()),
    {
        Bitmap64Iterator { cursor: self.cursor() }
    }
}

} // verus!
