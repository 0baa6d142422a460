//! Operations on 64-bit bitmaps drawn by a fuzzer, applied to 64-bit bitmaps
//! and to treemaps, and the checks that both agree.
use crate::bitmap64::{below64, Bitmap64};
use crate::cursor64::{backward_to, forward_to, moved_next, moved_prev, walked, Bitmap64Cursor, Cursor64Position};
use crate::range::{interval64, RangeInclusive};
use crate::serialization::Portable;
use crate::treemap::{lemma_same_values_same_keys, no_empty_bitmaps, runs_agree, sym_diff64, Treemap};
use vstd::prelude::*;

verus! {

/// A value drawn below [`MAX_NUM`].
#[derive(Debug, Clone, Copy, PartialEq, Eq, Structural)]
pub struct Num(pub u64);

/// Values drawn by the fuzzer lie below this bound.
pub const MAX_NUM: u64 = 0x104_0000;

/// The high bits of the values added by [`MutableBitmapOperation::AddToMax`].
pub const UPPER_BITS: u64 = 0xFFFF_FFFF_FFFF_0000;

/// An operation that changes a 64-bit bitmap.
pub enum MutableBitmapOperation {
    Add(Num),
    AddChecked(Num),
    AddMany(Vec<Num>),
    AddRange(RangeInclusive<Num>),
    RemoveRange(RangeInclusive<Num>),
    FlipRange(RangeInclusive<Num>),
    Copy,
    Clear,
    Remove(Num),
    RemoveChecked(Num),
    RunOptimize,
    RemoveRunCompression,
    MakeDeep,
    MakeWide,
    ShrinkToFit,
    AddToMax(u16),
}

/// An operation that changes a bitmap, alone or with a second one.
pub enum MutableRhsBitmapOperation {
    MutateSelf(MutableBitmapOperation),
    MutBinaryOp(BitmapMutBinop),
}

/// A set operation that combines a second bitmap into the first.
#[derive(Debug, Clone, Copy, PartialEq, Eq, Structural)]
pub enum BitmapMutBinop {
    And,
    Or,
    Xor,
    AndNot,
}

/// An operation that compares two 64-bit bitmaps.
#[derive(Debug, Clone, Copy, PartialEq, Eq, Structural)]
pub enum BitmapCompOperation {
    Eq,
    IsSubset,
    IsStrictSubset,
    Intersect,
    JacardIndex,
    And,
    Or,
    Xor,
    AndNot,
}

/// A step of a cursor over a 64-bit bitmap.
#[derive(Debug, Clone, Copy, PartialEq, Eq, Structural)]
pub enum IteratorOp {
    HasValue,
    Current,
    MoveNext,
    Next,
    MovePrev,
    Prev,
    ResetToFirst,
    ResetToLast,
    Clone,
    ReadMany(Num),
    ResetAtOrAfter(u64),
}

/// An operation that only reads a 64-bit bitmap.
pub enum ReadBitmapOp {
    ContainsRange(RangeInclusive<u64>),
    Contains(u64),
    RangeCardinality(RangeInclusive<u64>),
    Cardinality,
    ToVec,
    GetPortableSerializedSizeInBytes,
    PortableSerialize,
    GetFrozenSerializedSizeInBytes,
    FrozenSerialize,
    IsEmpty,
    IntersectWithRange(RangeInclusive<u64>),
    Minimum,
    Maximum,
    Rank(u64),
    Index(u64),
    Select(u64),
    Clone,
    Debug,
}

/// The values of a range of numbers.
pub open spec fn num_range(r: RangeInclusive<Num>) -> Set<u64> {
    interval64(r.start.0 as int, r.last.0 as int)
}

/// Zero and one value in each of the upper six bytes' lowest bit.
pub open spec fn deep_values() -> Set<u64> {
    set![0u64, 0x1_0000u64, 0x100_0000u64, 0x1_0000_0000u64, 0x100_0000_0000u64, 0x1_0000_0000_0000u64, 0x100_0000_0000_0000u64]
}

/// The first 200 multiples of `2^16`.
pub open spec fn wide_values() -> Set<u64> {
    Set::new(|x: u64| x % 0x1_0000 == 0 && x < 200 * 0x1_0000)
}

/// The values of a treemap after `op`.
pub open spec fn mutated(op: MutableBitmapOperation, s: Set<u64>) -> Set<u64> {
    match op {
        MutableBitmapOperation::Add(i) => s.insert(i.0),
        MutableBitmapOperation::AddChecked(i) => s.insert(i.0),
        MutableBitmapOperation::AddMany(items) => s.union(items@.map_values(|n: Num| n.0).to_set()),
        MutableBitmapOperation::AddRange(r) => s.union(num_range(r)),
        MutableBitmapOperation::RemoveRange(r) => s.difference(num_range(r)),
        MutableBitmapOperation::FlipRange(r) => sym_diff64(s, num_range(r)),
        MutableBitmapOperation::Copy => s,
        MutableBitmapOperation::Clear => Set::empty(),
        MutableBitmapOperation::Remove(i) => s.remove(i.0),
        MutableBitmapOperation::RemoveChecked(i) => s.remove(i.0),
        MutableBitmapOperation::RunOptimize => s,
        MutableBitmapOperation::RemoveRunCompression => s,
        MutableBitmapOperation::MakeDeep => s.union(deep_values()),
        MutableBitmapOperation::MakeWide => s.union(wide_values()),
        MutableBitmapOperation::ShrinkToFit => s,
        MutableBitmapOperation::AddToMax(low) => s.insert((UPPER_BITS + low) as u64),
    }
}

/// The values of the first treemap after `op` combines the second into it.
pub open spec fn combined(op: BitmapMutBinop, lhs: Set<u64>, rhs: Set<u64>) -> Set<u64> {
    match op {
        BitmapMutBinop::And => lhs.intersect(rhs),
        BitmapMutBinop::Or => lhs.union(rhs),
        BitmapMutBinop::Xor => sym_diff64(lhs, rhs),
        BitmapMutBinop::AndNot => lhs.difference(rhs),
    }
}

fn num_range_exec(r: &RangeInclusive<Num>) -> (out: RangeInclusive<u64>)
    ensures
        out.start == r.start.0,
        out.last == r.last.0,
{
    RangeInclusive { start: r.start.0, last: r.last.0 }
}

impl MutableBitmapOperation {
    /// Applies the operation to `t`.
    pub fn on_treemap(&self, t: &mut Treemap)
        ensures
            final(t)@ == mutated(*self, old(t)@),
    {
        match self {
            MutableBitmapOperation::Add(i) => {
                t.add(i.0);
            },
            MutableBitmapOperation::AddChecked(i) => {
                t.add(i.0);
            },
            MutableBitmapOperation::AddMany(items) => {
                let ghost s0 = t@;
                let mut k: usize = 0;
                while k < items.len()
                    invariant
                        k <= items@.len(),
                        t@ == s0.union(items@.take(k as int).map_values(|n: Num| n.0).to_set()),
                    decreases items@.len() - k,
                {
                    t.add(items[k].0);
                    proof {
                        let q = items@.take(k as int).map_values(|n: Num| n.0);
                        let q1 = items@.take(k + 1).map_values(|n: Num| n.0);
                        let x = items@[k as int].0;
                        assert(q1 =~= q.push(x));
                        assert forall|v: u64| q1.to_set().contains(v) == (q.to_set().contains(v) || v == x) by {
                            if q1.contains(v) {
                                let j = choose|j: int| 0 <= j < q1.len() && q1[j] == v;
                                if j < q.len() {
                                    assert(q[j] == v);
                                }
                            }
                            if q.contains(v) {
                                let j = choose|j: int| 0 <= j < q.len() && q[j] == v;
                                assert(q1[j] == v);
                            }
                            if v == x {
                                assert(q1[q.len() as int] == v);
                            }
                        }
                        assert(t@ =~= s0.union(q1.to_set()));
                    }
                    k = k + 1;
                }
                proof {
                    assert(items@.take(items@.len() as int) == items@);
                }
            },
            MutableBitmapOperation::AddRange(r) => {
                t.add_range(num_range_exec(r));
            },
            MutableBitmapOperation::RemoveRange(r) => {
                t.remove_range(num_range_exec(r));
            },
            MutableBitmapOperation::FlipRange(r) => {
                let mut range = Treemap::new();
                range.add_range(num_range_exec(r));
                t.xor_inplace(&range);
            },
            MutableBitmapOperation::Copy => {
                let copy = t.clone();
                *t = copy;
            },
            MutableBitmapOperation::Clear => {
                t.clear();
            },
            MutableBitmapOperation::Remove(i) => {
                t.remove(i.0);
            },
            MutableBitmapOperation::RemoveChecked(i) => {
                t.remove(i.0);
            },
            MutableBitmapOperation::RunOptimize => {
                t.run_optimize();
            },
            MutableBitmapOperation::RemoveRunCompression => {
            },
            MutableBitmapOperation::MakeDeep => {
                t.add(0);
                t.add(0x1_0000);
                t.add(0x100_0000);
                t.add(0x1_0000_0000);
                t.add(0x100_0000_0000);
                t.add(0x1_0000_0000_0000);
                t.add(0x100_0000_0000_0000);
                assert(t@ =~= mutated(*self, old(t)@));
            },
            MutableBitmapOperation::MakeWide => {
                let ghost s0 = t@;
                let mut i: u64 = 0;
                while i < 200
                    invariant
                        i <= 200,
                        t@ == s0.union(Set::new(|x: u64| x % 0x1_0000 == 0 && x < i * 0x1_0000)),
                    decreases 200 - i,
                {
                    t.add(i * 0x1_0000);
                    proof {
                        assert(t@ =~= s0.union(Set::new(|x: u64| x % 0x1_0000 == 0 && x < (i + 1) * 0x1_0000)));
                    }
                    i = i + 1;
                }
            },
            MutableBitmapOperation::ShrinkToFit => {
                // Neither 64-bit type offers to release spare memory; the
                // values are what the operation leaves as they are.
            },
            MutableBitmapOperation::AddToMax(low) => {
                let value = UPPER_BITS | (*low as u64);
                assert(value == UPPER_BITS + *low as u64) by (bit_vector)
                    requires
                        value == UPPER_BITS | (*low as u64),
                        *low <= 0xFFFF,
                ;
                t.add(value);
            },
        }
    }
}

impl BitmapMutBinop {
    /// Combines `rhs` into `lhs`.
    pub fn on_treemap(&self, lhs: &mut Treemap, rhs: &Treemap)
        ensures
            final(lhs)@ == combined(*self, old(lhs)@, rhs@),
    {
        match self {
            BitmapMutBinop::And => lhs.and_inplace(rhs),
            BitmapMutBinop::Or => lhs.or_inplace(rhs),
            BitmapMutBinop::Xor => lhs.xor_inplace(rhs),
            BitmapMutBinop::AndNot => lhs.andnot_inplace(rhs),
        }
    }
}

/// The values of a treemap after `op`, given the other treemap's values.
pub open spec fn rhs_mutated(op: MutableRhsBitmapOperation, current: Set<u64>, other: Set<u64>) -> Set<u64> {
    match op {
        MutableRhsBitmapOperation::MutateSelf(m) => mutated(m, current),
        MutableRhsBitmapOperation::MutBinaryOp(b) => combined(b, current, other),
    }
}

impl MutableRhsBitmapOperation {
    /// Changes `current`, alone or with `other`.
    pub fn on_treemap(&self, current: &mut Treemap, other: &Treemap)
        ensures
            final(current)@ == rhs_mutated(*self, old(current)@, other@),
    {
        match self {
            MutableRhsBitmapOperation::MutateSelf(op) => op.on_treemap(current),
            MutableRhsBitmapOperation::MutBinaryOp(op) => op.on_treemap(current, other),
        }
    }
}

impl MutableBitmapOperation {
    /// Applies the operation to `b`, checking what the operations that
    /// answer return.
    pub fn on_bitmap64(&self, b: &mut Bitmap64)
        ensures
            final(b)@ == mutated(*self, old(b)@),
    {
        match self {
            MutableBitmapOperation::Add(i) => {
                b.add(i.0);
            },
            MutableBitmapOperation::AddChecked(i) => {
                let expected = !b.contains(i.0);
                let result = b.add_checked(i.0);
                assert(expected == result);
            },
            MutableBitmapOperation::AddMany(items) => {
                let mut values: Vec<u64> = Vec::new();
                let mut k: usize = 0;
                while k < items.len()
                    invariant
                        k <= items@.len(),
                        values@ == items@.take(k as int).map_values(|n: Num| n.0),
                    decreases items@.len() - k,
                {
                    values.push(items[k].0);
                    proof {
                        assert(items@.take(k + 1).map_values(|n: Num| n.0) =~= items@.take(k as int).map_values(
                            |n: Num| n.0,
                        ).push(items@[k as int].0));
                    }
                    k = k + 1;
                }
                proof {
                    assert(items@.take(items@.len() as int) == items@);
                }
                b.add_many(values.as_slice());
            },
            MutableBitmapOperation::AddRange(r) => {
                b.add_range(num_range_exec(r));
            },
            MutableBitmapOperation::RemoveRange(r) => {
                b.remove_range(num_range_exec(r));
            },
            MutableBitmapOperation::Copy => {
                let copy = b.clone();
                *b = copy;
            },
            MutableBitmapOperation::Clear => {
                b.remove_range(RangeInclusive { start: 0, last: u64::MAX });
                assert(b@ =~= Set::<u64>::empty());
            },
            MutableBitmapOperation::Remove(i) => {
                b.remove(i.0);
            },
            MutableBitmapOperation::RemoveChecked(i) => {
                let expected = b.contains(i.0);
                let result = b.remove_checked(i.0);
                assert(expected == result);
            },
            MutableBitmapOperation::RunOptimize => {
                b.run_optimize();
            },
            MutableBitmapOperation::RemoveRunCompression => {
            },
            MutableBitmapOperation::AddToMax(low) => {
                let value = UPPER_BITS | (*low as u64);
                assert(value == UPPER_BITS + *low as u64) by (bit_vector)
                    requires
                        value == UPPER_BITS | (*low as u64),
                        *low <= 0xFFFF,
                ;
                b.add(value);
            },
            MutableBitmapOperation::FlipRange(r) => {
                let expected = b.flip(num_range_exec(r));
                b.flip_inplace(num_range_exec(r));
                assert(expected@ == b@);
            },
            MutableBitmapOperation::MakeDeep => {
                b.add(0);
                b.add(0x1_0000);
                b.add(0x100_0000);
                b.add(0x1_0000_0000);
                b.add(0x100_0000_0000);
                b.add(0x1_0000_0000_0000);
                b.add(0x100_0000_0000_0000);
                assert(b@ =~= mutated(*self, old(b)@));
            },
            MutableBitmapOperation::MakeWide => {
                let ghost s0 = b@;
                let mut i: u64 = 0;
                while i < 200
                    invariant
                        i <= 200,
                        b@ == s0.union(Set::new(|x: u64| x % 0x1_0000 == 0 && x < i * 0x1_0000)),
                    decreases 200 - i,
                {
                    b.add(i * 0x1_0000);
                    proof {
                        assert(b@ =~= s0.union(Set::new(|x: u64| x % 0x1_0000 == 0 && x < (i + 1) * 0x1_0000)));
                    }
                    i = i + 1;
                }
            },
            MutableBitmapOperation::ShrinkToFit => {
                // Neither 64-bit type offers to release spare memory; the
                // values are what the operation leaves as they are.
            },
        }
        proof {
            if let MutableBitmapOperation::AddMany(items) = self {
                assert(b@ =~= mutated(*self, old(b)@));
            }
        }
    }
}

impl BitmapMutBinop {
    /// Combines `rhs` into `lhs`, checking that the result is what the
    /// combination that returns a new bitmap gives.
    pub fn on_roaring64(&self, lhs: &mut Bitmap64, rhs: &Bitmap64)
        ensures
            final(lhs)@ == combined(*self, old(lhs)@, rhs@),
    {
        match self {
            BitmapMutBinop::And => {
                let expected = lhs.and(rhs);
                lhs.and_inplace(rhs);
                assert(expected@ == lhs@);
            },
            BitmapMutBinop::Or => {
                let expected = lhs.or(rhs);
                lhs.or_inplace(rhs);
                assert(expected@ == lhs@);
            },
            BitmapMutBinop::Xor => {
                let expected = lhs.xor(rhs);
                lhs.xor_inplace(rhs);
                assert(expected@ == lhs@);
            },
            BitmapMutBinop::AndNot => {
                let expected = lhs.andnot(rhs);
                lhs.andnot_inplace(rhs);
                assert(expected@ == lhs@);
            },
        }
    }
}

impl MutableRhsBitmapOperation {
    /// Changes `current`, alone or with `other`.
    pub fn on_bitmap64(&self, current: &mut Bitmap64, other: &Bitmap64)
        ensures
            final(current)@ == rhs_mutated(*self, old(current)@, other@),
    {
        match self {
            MutableRhsBitmapOperation::MutateSelf(op) => op.on_bitmap64(current),
            MutableRhsBitmapOperation::MutBinaryOp(op) => op.on_roaring64(current, other),
        }
    }
}

/// Where a step leaves a cursor over `s` that rested on `p`: `q`.
pub open spec fn stepped(op: IteratorOp, s: Set<u64>, p: Cursor64Position, q: Cursor64Position) -> bool {
    match op {
        IteratorOp::HasValue => q == p,
        IteratorOp::Current => q == p,
        IteratorOp::MoveNext => moved_next(s, p, q),
        IteratorOp::Next => moved_next(s, p, q),
        IteratorOp::MovePrev => moved_prev(s, p, q),
        IteratorOp::Prev => moved_prev(s, p, q),
        IteratorOp::ResetToFirst => forward_to(s, 0, q),
        IteratorOp::ResetToLast => backward_to(s, u64::MAX as int, q),
        IteratorOp::Clone => q == p,
        IteratorOp::ReadMany(n) => exists|vals: Seq<u64>|
            vals.len() <= n.0 as usize && #[trigger] walked(s, p, vals, q) && (vals.len() < n.0 as usize ==> q !is At),
        IteratorOp::ResetAtOrAfter(n) => forward_to(s, n as int, q),
    }
}

impl IteratorOp {
    /// Applies the step to a cursor over `bitmap`, checking that moving and
    /// reading agree with the value under the cursor.
    pub fn on_cursor<'a>(self, bitmap: &'a Bitmap64, cursor: &mut Bitmap64Cursor<'a>)
        requires
            old(cursor).values() == bitmap@,
        ensures
            final(cursor).values() == bitmap@,
            stepped(self, bitmap@, old(cursor).position(), final(cursor).position()),
    {
        match self {
            IteratorOp::HasValue => {
                let _ = cursor.has_value();
            },
            IteratorOp::Current => {
                let _ = cursor.current();
            },
            IteratorOp::MoveNext => {
                cursor.move_next();
            },
            IteratorOp::Next => {
                let v = cursor.next();
                let c = cursor.current();
                assert(v == c);
            },
            IteratorOp::MovePrev => {
                cursor.move_prev();
            },
            IteratorOp::Prev => {
                let v = cursor.prev();
                let c = cursor.current();
                assert(v == c);
            },
            IteratorOp::ResetToFirst => {
                let c = cursor.clone();
                *cursor = c.reset_to_first(bitmap);
            },
            IteratorOp::ResetToLast => {
                let c = cursor.clone();
                *cursor = c.reset_to_last(bitmap);
            },
            IteratorOp::ReadMany(n) => {
                let mut dst: Vec<u64> = vec![0u64; n.0 as usize];
                let r = cursor.read_many(dst.as_mut_slice());
                assert(walked(bitmap@, old(cursor).position(), dst@.take(r as int), cursor.position()));
            },
            IteratorOp::ResetAtOrAfter(n) => {
                cursor.reset_at_or_after(n);
            },
            IteratorOp::Clone => {
                let c = cursor.clone();
                *cursor = c;
            },
        }
    }
}

/// Checks that a 64-bit bitmap and a treemap holding the same values agree:
/// in their number of values and in their values in order.
pub fn assert_64_eq(lhs: &Bitmap64, rhs: &Treemap)
    requires
        lhs@ == rhs@,
        rhs@.len() <= u64::MAX,
{
    let a = lhs.cardinality();
    let b = rhs.cardinality();
    assert(a == b);
    let lhs_ser = lhs.serialize::<Portable>();
    let rhs_ser = rhs.serialize::<Portable>();
    if !(lhs_ser == rhs_ser) {
        let l = lhs.to_vec();
        let r = rhs.to_vec();
        proof {
            crate::bitmap64::lemma_increasing64_unique(l@, r@);
        }
        let mut i: usize = 0;
        while i < l.len()
            invariant
                l@ == r@,
                i <= l@.len(),
            decreases l@.len() - i,
        {
            assert(l[i as int] == r[i as int]);
            i = i + 1;
        }
        assert(l@.len() == r@.len());
    }
}

/// A 64-bit bitmap and a treemap without empty bitmaps that hold the same
/// values, and keep run compression alike under each key, write the same
/// portable bytes.
proof fn lemma_same_serialization(b: &Bitmap64, t: &Treemap)
    requires
        b@ == t@,
        no_empty_bitmaps(t.map@),
        runs_agree(b.buckets(), t.map@),
    ensures
        <Portable as crate::bitmap64::Serializer>::serialized(b.buckets())
            == <Portable as crate::treemap_serialization::Serializer>::serialized(t.map@),
{
    b.lemma_buckets();
    lemma_same_values_same_keys(b.buckets(), t.map@);
    crate::treemap_serialization::lemma_same_buckets_bytes(b.buckets(), t.map@);
}

impl ReadBitmapOp {
    /// Checks the read operation on a 64-bit bitmap against a treemap with
    /// the same values. For the serializations, the treemap holds no empty
    /// bitmap, and its bitmaps keep run compression as the bitmap's buckets
    /// under the same keys do (as after the same operations on both); the
    /// number of values in an empty range is compared with the whole
    /// treemap, so there the treemap must be empty.
    pub fn check_against_tree(&self, b: &Bitmap64, t: &Treemap)
        requires
            b@ == t@,
            t@.len() <= u64::MAX,
            self matches ReadBitmapOp::RangeCardinality(r) ==> r.start <= r.last || t@ == Set::<u64>::empty(),
            self is GetPortableSerializedSizeInBytes || self is PortableSerialize ==> no_empty_bitmaps(t.map@)
                && runs_agree(b.buckets(), t.map@),
    {
        proof {
            t.lemma_finite();
        }
        match self {
            ReadBitmapOp::Contains(i) => {
                let x = b.contains(*i);
                let y = t.contains(*i);
                assert(x == y);
            },
            ReadBitmapOp::RangeCardinality(r) => {
                let mut t_with_range = t.clone();
                if r.start <= r.last {
                    if r.start > 0 {
                        t_with_range.remove_range(RangeInclusive { start: 0, last: r.start - 1 });
                    }
                    if r.last < u64::MAX {
                        t_with_range.remove_range(RangeInclusive { start: r.last + 1, last: u64::MAX });
                    }
                    assert(t_with_range@ =~= b@.intersect(interval64(r.start as int, r.last as int)));
                } else {
                    assert(b@.intersect(interval64(r.start as int, r.last as int)) =~= Set::<u64>::empty());
                }
                proof {
                    vstd::set_lib::lemma_len_subset(b@.intersect(interval64(r.start as int, r.last as int)), b@);
                    vstd::set_lib::lemma_len_subset(t_with_range@, t@);
                }
                let x = b.range_cardinality(RangeInclusive { start: r.start, last: r.last });
                let y = t_with_range.cardinality();
                assert(x == y);
            },
            ReadBitmapOp::Cardinality => {
                let x = b.cardinality();
                let y = t.cardinality();
                assert(x == y);
            },
            ReadBitmapOp::IsEmpty => {
                let e = b.is_empty();
                let c = b.cardinality();
                proof {
                    if c == 0 {
                        assert(b@ =~= Set::<u64>::empty());
                    }
                }
                assert(e == (c == 0));
                let te = t.is_empty();
                assert(e == te);
            },
            ReadBitmapOp::Minimum => {
                let x = b.minimum();
                let y = t.minimum();
                assert(x == y);
            },
            ReadBitmapOp::Maximum => {
                let x = b.maximum();
                let y = t.maximum();
                assert(x == y);
            },
            ReadBitmapOp::Rank(i) => {
                proof {
                    vstd::set_lib::lemma_len_subset(b@.filter(|y: u64| y <= *i), b@);
                }
                let x = b.rank(*i);
                let mut up_to = t.clone();
                if *i < u64::MAX {
                    up_to.remove_range(RangeInclusive { start: *i + 1, last: u64::MAX });
                }
                assert(up_to@ =~= b@.filter(|y: u64| y <= *i));
                let y = up_to.cardinality();
                assert(x == y);
            },
            ReadBitmapOp::Index(i) => {
                let x = b.position(*i);
                let y = if t.contains(*i) {
                    let mut below = t.clone();
                    below.remove_range(RangeInclusive { start: *i, last: u64::MAX });
                    assert(below@ =~= below64(b@, *i as int));
                    proof {
                        vstd::set_lib::lemma_len_subset(below@, t@);
                    }
                    Some(below.cardinality())
                } else {
                    None
                };
                assert(x == y);
            },
            ReadBitmapOp::Select(i) => {
                let x = b.select(*i);
                let values = t.to_vec();
                proof {
                    crate::bitmap64::lemma_increasing64_len(values@, t@);
                }
                let y = if (*i as u128) < (values.len() as u128) {
                    proof {
                        crate::bitmap64::lemma_below64_index(values@, t@, *i as int);
                        assert(values@.contains(values@[*i as int]));
                    }
                    Some(values[*i as usize])
                } else {
                    None
                };
                proof {
                    if let (Some(v), Some(w)) = (x, y) {
                        crate::bitmap64::lemma_below64_unique(b@, v, w);
                    }
                }
                assert(x == y);
            },
            ReadBitmapOp::Clone => {
                let other = b.clone();
                assert(b@ == other@);
            },
            ReadBitmapOp::Debug => {
            },
            ReadBitmapOp::ToVec => {
                let x = b.to_vec();
                let y = t.to_vec();
                proof {
                    crate::bitmap64::lemma_increasing64_unique(x@, y@);
                }
                assert(x@ == y@);
            },
            ReadBitmapOp::GetPortableSerializedSizeInBytes => {
                proof {
                    lemma_same_serialization(b, t);
                }
                let x = b.get_serialized_size_in_bytes::<Portable>();
                let y = t.get_serialized_size_in_bytes::<Portable>();
                assert(x == y);
            },
            ReadBitmapOp::PortableSerialize => {
                proof {
                    lemma_same_serialization(b, t);
                }
                let x = b.serialize::<Portable>();
                let y = t.serialize::<Portable>();
                assert(x@ == y@);
            },
            ReadBitmapOp::GetFrozenSerializedSizeInBytes => {
            },
            ReadBitmapOp::FrozenSerialize => {
            },
            ReadBitmapOp::ContainsRange(r) => {
                let _ = b.contains_range(RangeInclusive { start: r.start, last: r.last });
            },
            ReadBitmapOp::IntersectWithRange(r) => {
                let _ = b.intersect_with_range(RangeInclusive { start: r.start, last: r.last });
            },
        }
    }
}

impl BitmapCompOperation {
    /// Checks the comparison of two 64-bit bitmaps against that of two
    /// treemaps with the same values.
    pub fn compare_with_tree(&self, lhs_bitmap: &Bitmap64, rhs_bitmap: &Bitmap64, lhs_tree: &Treemap, rhs_tree: &Treemap)
        requires
            lhs_bitmap@ == lhs_tree@,
            rhs_bitmap@ == rhs_tree@,
            lhs_tree@.union(rhs_tree@).len() <= u64::MAX,
    {
        proof {
            lhs_tree.lemma_finite();
            rhs_tree.lemma_finite();
            let u = lhs_tree@.union(rhs_tree@);
            vstd::set_lib::lemma_len_subset(lhs_tree@.intersect(rhs_tree@), u);
            vstd::set_lib::lemma_len_subset(sym_diff64(lhs_tree@, rhs_tree@), u);
            vstd::set_lib::lemma_len_subset(lhs_tree@.difference(rhs_tree@), u);
        }
        match self {
            BitmapCompOperation::Eq => {
                let x = lhs_bitmap == rhs_bitmap;
                let y = lhs_tree == rhs_tree;
                assert(x == y);
            },
            BitmapCompOperation::IsSubset => {
                let x = lhs_bitmap.is_subset(rhs_bitmap);
                let y = lhs_tree.is_subset(rhs_tree);
                assert(x == y);
            },
            BitmapCompOperation::IsStrictSubset => {
                let x = lhs_bitmap.is_strict_subset(rhs_bitmap);
                let y = lhs_tree.is_strict_subset(rhs_tree);
                assert(x == y);
            },
            BitmapCompOperation::Intersect => {
                let tree_intersect = !lhs_tree.and(rhs_tree).is_empty();
                let x = lhs_bitmap.intersect(rhs_bitmap);
                proof {
                    if tree_intersect {
                        assert(!(lhs_tree@.intersect(rhs_tree@) =~= Set::<u64>::empty()));
                        let v = choose|v: u64| lhs_tree@.intersect(rhs_tree@).contains(v);
                        assert(lhs_bitmap@.contains(v) && rhs_bitmap@.contains(v));
                    } else {
                        assert forall|v: u64| lhs_bitmap@.contains(v) implies !rhs_bitmap@.contains(v) by {
                            if rhs_bitmap@.contains(v) {
                                assert(lhs_tree@.intersect(rhs_tree@).contains(v));
                            }
                        }
                    }
                }
                assert(x == tree_intersect);
                let e = lhs_bitmap.is_empty();
                let own = lhs_bitmap.intersect(lhs_bitmap);
                proof {
                    if !e {
                        assert(!(lhs_bitmap@ =~= Set::<u64>::empty()));
                        let v = choose|v: u64| lhs_bitmap@.contains(v);
                        assert(lhs_bitmap@.contains(v));
                    }
                }
                assert(e || own);
            },
            BitmapCompOperation::JacardIndex => {
            },
            BitmapCompOperation::And => {
                let bitmap = lhs_bitmap.and(rhs_bitmap);
                let treemap = lhs_tree.and(rhs_tree);
                assert_64_eq(&bitmap, &treemap);
                let x = bitmap.cardinality();
                let y = lhs_bitmap.and_cardinality(rhs_bitmap);
                assert(x == y);
            },
            BitmapCompOperation::Or => {
                let bitmap = lhs_bitmap.or(rhs_bitmap);
                let treemap = lhs_tree.or(rhs_tree);
                assert_64_eq(&bitmap, &treemap);
                let x = bitmap.cardinality();
                let y = lhs_bitmap.or_cardinality(rhs_bitmap);
                assert(x == y);
            },
            BitmapCompOperation::Xor => {
                let bitmap = lhs_bitmap.xor(rhs_bitmap);
                let treemap = lhs_tree.xor(rhs_tree);
                assert_64_eq(&bitmap, &treemap);
                let x = bitmap.cardinality();
                let y = lhs_bitmap.xor_cardinality(rhs_bitmap);
                assert(x == y);
            },
            BitmapCompOperation::AndNot => {
                let bitmap = lhs_bitmap.andnot(rhs_bitmap);
                let treemap = lhs_tree.andnot(rhs_tree);
                assert_64_eq(&bitmap, &treemap);
                let x = bitmap.cardinality();
                let y = lhs_bitmap.andnot_cardinality(rhs_bitmap);
                assert(x == y);
            },
        }
    }
}

/// Reads a 64-bit bitmap in format `D`, and where the input holds one, checks
/// that it is valid and that adding the values `100..1000` counts as
/// expected.
pub fn check_bitmap64<D: crate::bitmap64::Deserializer>(input: &[u8])
    requires
        D::deserialized(input@) matches Some((s, _)) ==> s.len() + 900 <= u64::MAX,
{
    let bitmap = Bitmap64::try_deserialize::<D>(input);
    if let Some(mut bitmap) = bitmap {
        let valid = bitmap.internal_validate();
        assert(valid is Ok);
        let start_cardinality = bitmap.cardinality();
        let mut new_cardinality = start_cardinality;
        let ghost s0 = bitmap@;
        let mut i: u64 = 100;
        proof {
            bitmap.lemma_finite();
            assert(bitmap@ =~= s0.union(interval64(100, 99)));
        }
        while i < 1000
            invariant
                100 <= i <= 1000,
                s0.finite(),
                s0.len() + 900 <= u64::MAX,
                bitmap@ == s0.union(interval64(100, i - 1)),
                new_cardinality == bitmap@.len(),
                bitmap@.len() <= s0.len() + (i - 100),
            decreases 1000 - i,
        {
            if !bitmap.contains(i) {
                proof {
                    bitmap.lemma_finite();
                }
                bitmap.add(i);
                new_cardinality = new_cardinality + 1;
            }
            proof {
                assert(bitmap@ =~= s0.union(interval64(100, i as int)));
            }
            i = i + 1;
        }
        let c = bitmap.cardinality();
        assert(new_cardinality == c);
    }
}

} // verus!
