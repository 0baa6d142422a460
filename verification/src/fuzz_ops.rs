//! Operations on bitmaps drawn by a fuzzer: each applies one library call and
//! checks what the library promises about it. Here those checks are proved
//! once and for all instead of being tested at run time.
use crate::bitmap::{sym_diff, union_all, views, xor_all, Bitmap};
use crate::serialization::{Native, Portable};
use crate::range::RangeInclusive;
use crate::runs::interval;
use vstd::prelude::*;

verus! {

/// A value drawn below [`MAX_NUM`].
#[derive(Debug, Clone, Copy, PartialEq, Eq, Structural)]
pub struct Num(pub u32);

/// Values kept by the mutating operations lie below this bound.
pub const MAX_NUM: u32 = 0x4_0000;

/// An operation that changes a bitmap.
pub enum MutableBitmapOperation {
    Add(Num),
    AddChecked(Num),
    AddMany(Vec<Num>),
    AddRange(RangeInclusive<Num>),
    RemoveRange(RangeInclusive<Num>),
    Clear,
    Remove(Num),
    RemoveChecked(Num),
    FlipInplace(RangeInclusive<Num>),
    ShrinkToFit,
    RunOptimize,
    RemoveRunCompression,
    MakeBitmap { key: u16 },
    MakeRange { key: u16 },
}

/// An operation that only reads a bitmap.
pub enum ReadBitmapOp {
    ContainsRange(RangeInclusive<Num>),
    Contains(Num),
    RangeCardinality(RangeInclusive<Num>),
    Cardinality,
    Flip(RangeInclusive<Num>),
    ToVec,
    GetSerializedSizeInBytes,
    GetNativeSerializedSizeInBytes,
    GetFrozenSerializedSizeInBytes,
    IsEmpty,
    AddOffset(i64),
    IntersectWithRange(RangeInclusive<Num>),
    Minimum,
    Maximum,
    Rank(Num),
    Index(Num),
    Select(Num),
    Statistics,
    Clone,
    Debug,
    WithIter(Vec<IterOperation>),
}

/// An operation that compares two bitmaps or combines the second into the
/// first.
pub enum BitmapCompOperation {
    Eq,
    IsSubset,
    IsStrictSubset,
    Intersect,
    JacardIndex,
    And,
    Or,
    Xor,
    AndNot,
}

/// A step of a walk over a bitmap's values.
pub enum IterOperation {
    ResetAtOrAfter(u32),
    ReadNext,
    NextMany(u16),
}

/// The values of a range of numbers.
pub open spec fn num_range(r: RangeInclusive<Num>) -> Set<u32> {
    interval(r.start.0 as int, r.last.0 as int)
}

/// Every other value of `[start, start + 9 * 1024)`.
pub open spec fn every_other(start: int) -> Set<u32> {
    Set::new(|x: u32| start <= x < start + 9 * 1024 && (x - start) % 2 == 0)
}

/// The values below [`MAX_NUM`].
pub open spec fn below_max() -> Set<u32> {
    interval(0, MAX_NUM - 1)
}

/// The values of a bitmap after `op`, before the values from [`MAX_NUM`] on
/// are dropped.
pub open spec fn mutated(op: MutableBitmapOperation, s: Set<u32>) -> Set<u32> {
    match op {
        MutableBitmapOperation::Add(i) => s.insert(i.0),
        MutableBitmapOperation::AddChecked(i) => s.insert(i.0),
        MutableBitmapOperation::AddMany(items) => s.union(items@.map_values(|n: Num| n.0).to_set()),
        MutableBitmapOperation::AddRange(r) => s.union(num_range(r)),
        MutableBitmapOperation::RemoveRange(r) => s.difference(num_range(r)),
        MutableBitmapOperation::Clear => Set::empty(),
        MutableBitmapOperation::Remove(i) => s.remove(i.0),
        MutableBitmapOperation::RemoveChecked(i) => s.remove(i.0),
        MutableBitmapOperation::FlipInplace(r) => sym_diff(s, num_range(r)),
        MutableBitmapOperation::ShrinkToFit => s,
        MutableBitmapOperation::RunOptimize => s,
        MutableBitmapOperation::RemoveRunCompression => s,
        MutableBitmapOperation::MakeBitmap { key } => s.union(every_other(key * 0x1_0000)),
        MutableBitmapOperation::MakeRange { key } => s.union(interval(key * 0x1_0000, key * 0x1_0000 + 0xFFFF)),
    }
}

pub(crate) fn num_range_exec(r: &RangeInclusive<Num>) -> (out: RangeInclusive<u32>)
    ensures
        out.start == r.start.0,
        out.last == r.last.0,
{
    RangeInclusive { start: r.start.0, last: r.last.0 }
}

impl MutableBitmapOperation {
    /// Applies the operation to `b`, then drops the values from [`MAX_NUM`] on.
    pub fn on_roaring(&self, b: &mut Bitmap)
        ensures
            final(b)@ == mutated(*self, old(b)@).intersect(below_max()),
    {
        match self {
            MutableBitmapOperation::Add(i) => {
                b.add(i.0);
            },
            MutableBitmapOperation::AddChecked(i) => {
                let fresh = b.add_checked(i.0);
                assert(fresh == !old(b)@.contains(i.0));
            },
            MutableBitmapOperation::AddMany(items) => {
                let mut values: Vec<u32> = Vec::new();
                let mut k: usize = 0;
                while k < items.len()
                    invariant
                        k <= items@.len(),
                        values@ == items@.take(k as int).map_values(|n: Num| n.0),
                    decreases items@.len() - k,
                {
                    values.push(items[k].0);
                    proof {
                        assert(items@.take(k + 1).map_values(|n: Num| n.0) =~= items@.take(k as int).map_values(
                            |n: Num| n.0,
                        ).push(items@[k as int].0));
                    }
                    k = k + 1;
                }
                proof {
                    assert(items@.take(items@.len() as int) == items@);
                }
                b.add_many(values.as_slice());
            },
            MutableBitmapOperation::AddRange(r) => {
                b.add_range(num_range_exec(r));
            },
            MutableBitmapOperation::RemoveRange(r) => {
                b.remove_range(num_range_exec(r));
            },
            MutableBitmapOperation::Clear => {
                b.clear();
            },
            MutableBitmapOperation::Remove(i) => {
                b.remove(i.0);
            },
            MutableBitmapOperation::RemoveChecked(i) => {
                let present = b.remove_checked(i.0);
                assert(present == old(b)@.contains(i.0));
            },
            MutableBitmapOperation::FlipInplace(r) => {
                b.flip_inplace(num_range_exec(r));
            },
            MutableBitmapOperation::ShrinkToFit => {
                b.shrink_to_fit();
            },
            MutableBitmapOperation::RunOptimize => {
                b.run_optimize();
            },
            MutableBitmapOperation::RemoveRunCompression => {
                b.remove_run_compression();
            },
            MutableBitmapOperation::MakeBitmap { key } => {
                let start: u32 = (*key as u32) * 0x1_0000;
                let end: u32 = start + 9 * 1024;
                let ghost s0 = b@;
                let mut i: u32 = start;
                while i < end
                    invariant
                        start == key * 0x1_0000,
                        end == start + 9 * 1024,
                        start <= i <= end + 1,
                        (i - start) % 2 == 0,
                        b@ == s0.union(Set::new(|x: u32| start <= x < i && (x - start) % 2 == 0)),
                    decreases end - i,
                {
                    b.add(i);
                    proof {
                        assert(b@ =~= s0.union(Set::new(|x: u32| start <= x < i + 2 && (x - start) % 2 == 0)));
                    }
                    i = i + 2;
                }
                proof {
                    assert(Set::new(|x: u32| start <= x < i && (x - start) % 2 == 0) =~= every_other(
                        start as int,
                    ));
                }
            },
            MutableBitmapOperation::MakeRange { key } => {
                let start: u32 = (*key as u32) * 0x1_0000;
                b.add_range(RangeInclusive { start, last: start + 0xFFFF });
            },
        }
        b.remove_range(RangeInclusive { start: MAX_NUM, last: u32::MAX });
        proof {
            assert(b@ =~= mutated(*self, old(b)@).intersect(below_max()));
        }
    }
}

/// The first bitmap after a comparison or combination.
pub open spec fn compared(op: BitmapCompOperation, lhs: Set<u32>, rhs: Set<u32>) -> Set<u32> {
    match op {
        BitmapCompOperation::And => lhs.intersect(rhs),
        BitmapCompOperation::Or => lhs.union(rhs),
        BitmapCompOperation::Xor => sym_diff(lhs, rhs),
        BitmapCompOperation::AndNot => lhs.difference(rhs),
        _ => lhs,
    }
}

/// Combining a pair of bitmaps all at once agrees with combining the two.
proof fn lemma_pair_views(a: Set<u32>, b: Set<u32>, pair: Seq<&Bitmap>)
    requires
        pair.len() == 2,
        pair[0]@ == a,
        pair[1]@ == b,
    ensures
        union_all(views(pair)) == a.union(b),
        xor_all(views(pair)) == sym_diff(a, b),
{
    let v = views(pair);
    assert(v =~= seq![a, b]);
    assert(v.drop_last() =~= seq![a]);
    assert(seq![a].drop_last() =~= Seq::<Set<u32>>::empty());
    assert(union_all(Seq::<Set<u32>>::empty()) == Set::<u32>::empty());
    assert(xor_all(Seq::<Set<u32>>::empty()) == Set::<u32>::empty());
    assert(union_all(seq![a]) =~= a);
    assert(xor_all(seq![a]) =~= a);
}

impl BitmapCompOperation {
    /// Compares `lhs` with `rhs`, or combines `rhs` into `lhs`; along the way,
    /// the results of related calls agree.
    pub fn on_roaring(&self, lhs: &mut Bitmap, rhs: &Bitmap)
        ensures
            final(lhs)@ == compared(*self, old(lhs)@, rhs@),
    {
        match self {
            BitmapCompOperation::Eq => {
                let _ = *lhs == *rhs;
                let same = *lhs == *lhs;
                assert(same);
            },
            BitmapCompOperation::IsSubset => {
                let _ = lhs.is_subset(rhs);
                let refl = lhs.is_subset(lhs);
                assert(refl);
            },
            BitmapCompOperation::IsStrictSubset => {
                let _ = lhs.is_strict_subset(rhs);
                let refl = lhs.is_strict_subset(lhs);
                assert(!refl);
            },
            BitmapCompOperation::Intersect => {
                let _ = lhs.intersect(rhs);
                let empty = lhs.is_empty();
                let selfish = lhs.intersect(lhs);
                proof {
                    if !empty {
                        assert(exists|x: u32| lhs@.contains(x)) by {
                            if !(exists|x: u32| lhs@.contains(x)) {
                                assert(lhs@ =~= Set::<u32>::empty());
                            }
                        }
                        let x = choose|x: u32| lhs@.contains(x);
                        assert(!lhs@.disjoint(lhs@)) by {
                            assert(lhs@.contains(x) && lhs@.contains(x));
                        }
                    }
                }
                assert(empty || selfish);
            },
            BitmapCompOperation::JacardIndex => {
                // The Jaccard index is a floating-point ratio, which this
                // library does not compute.
            },
            BitmapCompOperation::And => {
                let same = lhs.and(lhs);
                assert(same@ =~= lhs@);
                let res = lhs.and(rhs);
                let card = lhs.and_cardinality(rhs);
                assert(res@.len() == card);
                lhs.and_inplace(rhs);
                assert(lhs@ == res@);
            },
            BitmapCompOperation::Or => {
                let same = lhs.or(lhs);
                assert(same@ =~= lhs@);
                let res = lhs.or(rhs);
                let card = lhs.or_cardinality(rhs);
                assert(res@.len() == card);
                let pair = [&*lhs, rhs];
                let fast = Bitmap::fast_or(&pair);
                proof {
                    lemma_pair_views(lhs@, rhs@, pair@);
                }
                assert(fast@ == res@);
                let heap = Bitmap::fast_or_heap(&pair);
                assert(heap@ == res@);
                lhs.or_inplace(rhs);
                assert(lhs@ == res@);
            },
            BitmapCompOperation::Xor => {
                let same = lhs.xor(lhs);
                assert(same@ =~= Set::<u32>::empty());
                let res = lhs.xor(rhs);
                let card = lhs.xor_cardinality(rhs);
                assert(res@.len() == card);
                let pair = [&*lhs, rhs];
                let fast = Bitmap::fast_xor(&pair);
                proof {
                    lemma_pair_views(lhs@, rhs@, pair@);
                }
                assert(fast@ == res@);
                lhs.xor_inplace(rhs);
                assert(lhs@ == res@);
            },
            BitmapCompOperation::AndNot => {
                let same = lhs.andnot(lhs);
                assert(same@ =~= Set::<u32>::empty());
                let res = lhs.andnot(rhs);
                let card = lhs.andnot_cardinality(rhs);
                assert(res@.len() == card);
                lhs.andnot_inplace(rhs);
                assert(lhs@ == res@);
            },
        }
    }
}

impl ReadBitmapOp {
    /// Performs the read on `b`, which stays as it is; along the way, the
    /// results of related calls agree.
    pub fn on_roaring(&self, b: &Bitmap) {
        match self {
            ReadBitmapOp::ContainsRange(r) => {
                let _ = b.contains_range(num_range_exec(r));
            },
            ReadBitmapOp::Contains(i) => {
                let _ = b.contains(i.0);
            },
            ReadBitmapOp::RangeCardinality(r) => {
                let _ = b.range_cardinality(num_range_exec(r));
            },
            ReadBitmapOp::Cardinality => {
                let _ = b.cardinality();
            },
            ReadBitmapOp::Flip(r) => {
                let _ = b.flip(num_range_exec(r));
            },
            ReadBitmapOp::ToVec => {
                let _ = b.to_vec();
            },
            ReadBitmapOp::GetSerializedSizeInBytes => {
                let _ = b.get_serialized_size_in_bytes::<Portable>();
            },
            ReadBitmapOp::GetNativeSerializedSizeInBytes => {
                let _ = b.get_serialized_size_in_bytes::<Native>();
            },
            ReadBitmapOp::GetFrozenSerializedSizeInBytes => {
                // The frozen format is not written by this library.
            },
            ReadBitmapOp::IsEmpty => {
                let empty = b.is_empty();
                let card = b.cardinality();
                proof {
                    b.lemma_finite();
                    if card == 0 {
                        assert(b@ =~= Set::<u32>::empty());
                    }
                }
                assert(empty == (card == 0));
            },
            ReadBitmapOp::AddOffset(i) => {
                let _ = b.add_offset(*i);
            },
            ReadBitmapOp::IntersectWithRange(r) => {
                let _ = b.intersect_with_range(num_range_exec(r));
            },
            ReadBitmapOp::Minimum => {
                let _ = b.minimum();
            },
            ReadBitmapOp::Maximum => {
                let _ = b.maximum();
            },
            ReadBitmapOp::Rank(i) => {
                let _ = b.rank(i.0);
            },
            ReadBitmapOp::Index(i) => {
                let _ = b.position(i.0);
            },
            ReadBitmapOp::Select(i) => {
                let _ = b.select(i.0);
            },
            ReadBitmapOp::Statistics => {
                // Container statistics describe how containers are laid out
                // in memory, which this library does not expose.
            },
            ReadBitmapOp::Clone => {
                let copy = b.clone();
                assert(copy@ == b@);
            },
            ReadBitmapOp::Debug => {
                // Formatting belongs to the application around the library.
            },
            ReadBitmapOp::WithIter(ops) => {
                let mut cursor = b.cursor();
                let mut k: usize = 0;
                while k < ops.len()
                    invariant
                        k <= ops@.len(),
                        cursor.values() == b@,
                    decreases ops@.len() - k,
                {
                    match &ops[k] {
                        IterOperation::ResetAtOrAfter(i) => {
                            cursor.reset_at_or_after(*i);
                        },
                        IterOperation::ReadNext => {
                            let v = cursor.current();
                            if v.is_some() {
                                cursor.move_next();
                            }
                        },
                        IterOperation::NextMany(n) => {
                            let mut buf: Vec<u32> = vec![0u32; *n as usize];
                            let got = cursor.read_many(buf.as_mut_slice());
                            assert(got <= *n as usize);
                        },
                    }
                    k = k + 1;
                }
            },
        }
    }
}

/// The operations of one fuzzing round: changes to build two bitmaps, then
/// combinations of the second into the first, then reads of both.
pub struct FuzzInput {
    pub lhs_ops: Vec<MutableBitmapOperation>,
    pub rhs_ops: Vec<MutableBitmapOperation>,
    pub comp_ops: Vec<BitmapCompOperation>,
    pub view_ops: Vec<ReadBitmapOp>,
}

/// The values of a bitmap holding `s` after the changes `ops`, one after
/// another, each followed by dropping the values from [`MAX_NUM`] on.
pub open spec fn built(ops: Seq<MutableBitmapOperation>, s: Set<u32>) -> Set<u32>
    decreases ops.len(),
{
    if ops.len() == 0 {
        s
    } else {
        mutated(ops.last(), built(ops.drop_last(), s)).intersect(below_max())
    }
}

/// The first bitmap after each of the combinations `ops` with `rhs`, one
/// after another.
pub open spec fn compared_all(ops: Seq<BitmapCompOperation>, s: Set<u32>, rhs: Set<u32>) -> Set<u32>
    decreases ops.len(),
{
    if ops.len() == 0 {
        s
    } else {
        compared(ops.last(), compared_all(ops.drop_last(), s, rhs), rhs)
    }
}

/// Applies each change to `b`.
fn build(ops: &Vec<MutableBitmapOperation>, b: &mut Bitmap)
    ensures
        final(b)@ == built(ops@, old(b)@),
{
    let mut k: usize = 0;
    proof {
        assert(ops@.take(0) =~= Seq::<MutableBitmapOperation>::empty());
    }
    while k < ops.len()
        invariant
            k <= ops@.len(),
            b@ == built(ops@.take(k as int), old(b)@),
        decreases ops@.len() - k,
    {
        ops[k].on_roaring(b);
        proof {
            assert(ops@.take(k + 1).drop_last() =~= ops@.take(k as int));
        }
        k = k + 1;
    }
    proof {
        assert(ops@.take(ops@.len() as int) =~= ops@);
    }
}

/// Combines `rhs` into `lhs` with each of the combinations `ops`.
fn combine_all(ops: &Vec<BitmapCompOperation>, lhs: &mut Bitmap, rhs: &Bitmap)
    ensures
        final(lhs)@ == compared_all(ops@, old(lhs)@, rhs@),
{
    let mut k: usize = 0;
    proof {
        assert(ops@.take(0) =~= Seq::<BitmapCompOperation>::empty());
    }
    while k < ops.len()
        invariant
            k <= ops@.len(),
            lhs@ == compared_all(ops@.take(k as int), old(lhs)@, rhs@),
        decreases ops@.len() - k,
    {
        ops[k].on_roaring(lhs, rhs);
        proof {
            assert(ops@.take(k + 1).drop_last() =~= ops@.take(k as int));
        }
        k = k + 1;
    }
    proof {
        assert(ops@.take(ops@.len() as int) =~= ops@);
    }
}

/// Serializes `to_compare` in the portable format and reads it back, which
/// gives its values; then performs the reads on the copy read back, and
/// combines it into `lhs` with each combination. `v` is left empty.
pub fn check_serialized(lhs: &mut Bitmap, to_compare: &Bitmap, v: &mut Vec<u8>, input: &FuzzInput)
    ensures
        final(v)@ == Seq::<u8>::empty(),
        final(lhs)@ == compared_all(input.comp_ops@, old(lhs)@, to_compare@),
{
    v.clear();
    let data = to_compare.serialize::<Portable>();
    let view1 = Bitmap::deserialize::<Portable>(&data);
    proof {
        crate::serialization::lemma_portable_format_roundtrip(to_compare@, to_compare.keeps_runs());
    }
    assert(view1@ == to_compare@);
    let mut k: usize = 0;
    while k < input.view_ops.len()
        invariant
            k <= input.view_ops@.len(),
        decreases input.view_ops@.len() - k,
    {
        input.view_ops[k].on_roaring(&view1);
        k = k + 1;
    }
    combine_all(&input.comp_ops, lhs, &view1);
}

/// Runs a fuzzing round on two bitmaps: the changes, the combinations of the
/// second into the first and the reads of both, then the serialization checks
/// of the first bitmap against a copy of itself and against the second.
pub fn fuzz_round(input: &FuzzInput) {
    let mut lhs = Bitmap::new();
    let mut rhs = Bitmap::new();
    build(&input.lhs_ops, &mut lhs);
    build(&input.rhs_ops, &mut rhs);
    combine_all(&input.comp_ops, &mut lhs, &rhs);
    let mut k: usize = 0;
    while k < input.view_ops.len()
        invariant
            k <= input.view_ops@.len(),
        decreases input.view_ops@.len() - k,
    {
        input.view_ops[k].on_roaring(&rhs);
        input.view_ops[k].on_roaring(&lhs);
        k = k + 1;
    }
    let mut v: Vec<u8> = Vec::new();
    let to_compare = lhs.clone();
    check_serialized(&mut lhs, &to_compare, &mut v, input);
    check_serialized(&mut lhs, &rhs, &mut v, input);
}

/// Reads a bitmap in format `D`, and where the input holds one, checks that
/// it is valid and that adding the values `100..1000` counts as expected.
pub fn check_bitmap<D: crate::serialization::Deserializer>(input: &[u8]) {
    let bitmap = Bitmap::try_deserialize::<D>(input);
    if let Some(mut bitmap) = bitmap {
        let valid = bitmap.internal_validate();
        assert(valid is Ok);
        let start_cardinality = bitmap.cardinality();
        let mut new_cardinality = start_cardinality;
        let mut i: u32 = 100;
        proof {
            crate::bitmap::lemma_u32_set_len(bitmap@);
        }
        while i < 1000
            invariant
                100 <= i <= 1000,
                new_cardinality == bitmap@.len(),
            decreases 1000 - i,
        {
            if !bitmap.contains(i) {
                proof {
                    crate::bitmap::lemma_u32_set_len(bitmap@.insert(i));
                    bitmap.lemma_finite();
                }
                bitmap.add(i);
                new_cardinality = new_cardinality + 1;
            }
            i = i + 1;
        }
        let c = bitmap.cardinality();
        assert(new_cardinality == c);
    }
}

} // verus!
