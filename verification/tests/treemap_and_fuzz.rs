use croaring::fuzz_ops::{
    BitmapCompOperation, IterOperation, MutableBitmapOperation, Num, ReadBitmapOp, MAX_NUM,
};
use croaring::fuzz_ops64::{
    BitmapMutBinop, MutableBitmapOperation as Op64, MutableRhsBitmapOperation, Num as Num64,
};
use croaring::treemap::{join, split};
use croaring::{Bitmap, RangeInclusive, Treemap};

#[test]
fn treemap_holds_values_across_halves() {
    let mut treemap = Treemap::new();
    treemap.add(3);
    assert!(treemap.contains(3));
    treemap.add(u32::MAX as u64);
    assert!(treemap.contains(u32::MAX as u64));
    treemap.add(u64::from(u32::MAX) + 1);
    assert!(treemap.contains(u64::from(u32::MAX) + 1));
    assert_eq!(treemap.cardinality(), 3);
    assert_eq!(treemap.to_vec(), [3, u32::MAX as u64, u64::from(u32::MAX) + 1]);
    assert_eq!(treemap.minimum(), Some(3));
    assert_eq!(treemap.maximum(), Some(u64::from(u32::MAX) + 1));
    treemap.remove(3);
    assert!(!treemap.contains(3));
    treemap.clear();
    assert!(treemap.is_empty());
    assert_eq!(treemap.minimum(), None);
}

#[test]
fn treemap_set_operations() {
    let mut a = Treemap::create();
    a.add(u64::MAX);
    let mut b = Treemap::create();
    b.add(1);
    b.add(u64::MAX);
    assert_eq!(a.and(&b).to_vec(), [u64::MAX]);
    assert_eq!(a.or(&b).to_vec(), [1, u64::MAX]);
    assert_eq!(a.xor(&b).to_vec(), [1]);
    assert_eq!(b.andnot(&a).to_vec(), [1]);
    assert!(a.is_subset(&b));
    assert!(a.is_strict_subset(&b));
    assert!(!b.is_subset(&a));
}

#[test]
fn treemap_ranges_cross_halves() {
    let mut treemap = Treemap::new();
    treemap.add_range(RangeInclusive { start: (1 << 32) - 2, last: (1 << 32) + 1 });
    assert_eq!(treemap.cardinality(), 4);
    treemap.remove_range(RangeInclusive { start: (1 << 32) - 1, last: 1 << 32 });
    assert_eq!(treemap.to_vec(), [(1 << 32) - 2, (1 << 32) + 1]);
}

#[test]
fn treemap_run_optimize_keeps_values() {
    let mut treemap = Treemap::of(&[100, 101, 102]);
    assert!(treemap.run_optimize());
    assert!(!treemap.run_optimize());
    assert!(treemap.remove_run_compression());
    assert!(!treemap.remove_run_compression());
    assert_eq!(treemap.cardinality(), 3);
    let values: Vec<u64> = (100..1000).collect();
    let mut treemap = Treemap::of(&values);
    assert_eq!(treemap.cardinality(), 900);
    assert!(treemap.run_optimize());
    assert!(treemap.remove_run_compression());
    let mut scattered = Treemap::of(&[1, 1 << 40]);
    assert!(!scattered.run_optimize());
}

#[test]
fn split_and_join_are_inverse() {
    assert_eq!(split(0x1234_5678_9ABC_DEF0), (0x1234_5678, 0x9ABC_DEF0));
    assert_eq!(join(0x1234_5678, 0x9ABC_DEF0), 0x1234_5678_9ABC_DEF0);
    assert_eq!(split(u64::MAX), (u32::MAX, u32::MAX));
    assert_eq!(join(0, 7), 7);
}

#[test]
fn fuzz_mutations_stay_below_the_bound() {
    let mut b = Bitmap::new();
    MutableBitmapOperation::Add(Num(MAX_NUM + 5)).on_roaring(&mut b);
    assert!(b.is_empty());
    MutableBitmapOperation::AddRange(RangeInclusive { start: Num(MAX_NUM - 2), last: Num(MAX_NUM + 2) }).on_roaring(&mut b);
    assert_eq!(b.to_vec(), [MAX_NUM - 2, MAX_NUM - 1]);
    MutableBitmapOperation::MakeBitmap { key: 1 }.on_roaring(&mut b);
    assert_eq!(b.cardinality(), 2 + 9 * 1024 / 2);
    assert!(b.contains(0x1_0000));
    assert!(!b.contains(0x1_0001));
    MutableBitmapOperation::MakeRange { key: 2 }.on_roaring(&mut b);
    assert!(b.contains_range(RangeInclusive { start: 0x2_0000, last: 0x2_FFFF }));
    MutableBitmapOperation::MakeRange { key: 9 }.on_roaring(&mut b);
    assert!(!b.contains(0x9_0000));
    MutableBitmapOperation::AddMany(vec![Num(1), Num(3)]).on_roaring(&mut b);
    assert!(b.contains(1) && b.contains(3));
    MutableBitmapOperation::FlipInplace(RangeInclusive { start: Num(1), last: Num(2) }).on_roaring(&mut b);
    assert!(!b.contains(1) && b.contains(2));
    MutableBitmapOperation::Clear.on_roaring(&mut b);
    assert!(b.is_empty());
}

#[test]
fn fuzz_comparisons_combine() {
    let rhs = Bitmap::of(&[2, 3]);
    let mut lhs = Bitmap::of(&[1, 2]);
    BitmapCompOperation::Eq.on_roaring(&mut lhs, &rhs);
    BitmapCompOperation::IsSubset.on_roaring(&mut lhs, &rhs);
    BitmapCompOperation::IsStrictSubset.on_roaring(&mut lhs, &rhs);
    BitmapCompOperation::Intersect.on_roaring(&mut lhs, &rhs);
    BitmapCompOperation::JacardIndex.on_roaring(&mut lhs, &rhs);
    assert_eq!(lhs.to_vec(), [1, 2]);
    BitmapCompOperation::Or.on_roaring(&mut lhs, &rhs);
    assert_eq!(lhs.to_vec(), [1, 2, 3]);
    BitmapCompOperation::Xor.on_roaring(&mut lhs, &rhs);
    assert_eq!(lhs.to_vec(), [1]);
    BitmapCompOperation::And.on_roaring(&mut lhs, &rhs);
    assert!(lhs.is_empty());
    let mut lhs = Bitmap::of(&[1, 2]);
    BitmapCompOperation::AndNot.on_roaring(&mut lhs, &rhs);
    assert_eq!(lhs.to_vec(), [1]);
}

#[test]
fn fuzz_reads_leave_the_bitmap() {
    let b = Bitmap::of(&[1, 5, 9]);
    let ops = vec![
        ReadBitmapOp::ContainsRange(RangeInclusive { start: Num(1), last: Num(5) }),
        ReadBitmapOp::Contains(Num(5)),
        ReadBitmapOp::RangeCardinality(RangeInclusive { start: Num(0), last: Num(6) }),
        ReadBitmapOp::Cardinality,
        ReadBitmapOp::Flip(RangeInclusive { start: Num(0), last: Num(3) }),
        ReadBitmapOp::ToVec,
        ReadBitmapOp::GetSerializedSizeInBytes,
        ReadBitmapOp::GetNativeSerializedSizeInBytes,
        ReadBitmapOp::GetFrozenSerializedSizeInBytes,
        ReadBitmapOp::IsEmpty,
        ReadBitmapOp::AddOffset(-3),
        ReadBitmapOp::IntersectWithRange(RangeInclusive { start: Num(2), last: Num(4) }),
        ReadBitmapOp::Minimum,
        ReadBitmapOp::Maximum,
        ReadBitmapOp::Rank(Num(6)),
        ReadBitmapOp::Index(Num(5)),
        ReadBitmapOp::Index(Num(6)),
        ReadBitmapOp::Select(Num(1)),
        ReadBitmapOp::Statistics,
        ReadBitmapOp::Clone,
        ReadBitmapOp::Debug,
        ReadBitmapOp::WithIter(vec![
            IterOperation::ResetAtOrAfter(4),
            IterOperation::ReadNext,
            IterOperation::NextMany(4),
        ]),
    ];
    for op in &ops {
        op.on_roaring(&b);
    }
    assert_eq!(b.to_vec(), [1, 5, 9]);
}

#[test]
fn fuzz_treemap_operations() {
    let mut t = Treemap::new();
    Op64::MakeDeep.on_treemap(&mut t);
    assert_eq!(t.cardinality(), 7);
    assert!(t.contains(1 << 56));
    Op64::MakeWide.on_treemap(&mut t);
    assert!(t.contains(199 * 0x1_0000));
    assert!(!t.contains(200 * 0x1_0000));
    Op64::AddToMax(7).on_treemap(&mut t);
    assert!(t.contains(0xFFFF_FFFF_FFFF_0007));
    Op64::FlipRange(RangeInclusive { start: Num64(0), last: Num64(1) }).on_treemap(&mut t);
    assert!(!t.contains(0) && t.contains(1));
    Op64::AddMany(vec![Num64(10), Num64(11)]).on_treemap(&mut t);
    assert!(t.contains(10) && t.contains(11));
    let other = Treemap::of(&[10, 12]);
    MutableRhsBitmapOperation::MutBinaryOp(BitmapMutBinop::And).on_treemap(&mut t, &other);
    assert_eq!(t.to_vec(), [10]);
    BitmapMutBinop::Or.on_treemap(&mut t, &other);
    assert_eq!(t.to_vec(), [10, 12]);
    MutableRhsBitmapOperation::MutateSelf(Op64::Clear).on_treemap(&mut t, &other);
    assert!(t.is_empty());
}

#[test]
fn fuzz_check_bitmap_reads_back() {
    let bytes = Bitmap::of(&[1, 2, 70_000]).serialize::<croaring::Portable>();
    croaring::fuzz_ops::check_bitmap::<croaring::Portable>(&bytes);
    let bytes = Bitmap::of(&[1, 2, 70_000]).serialize::<croaring::Native>();
    croaring::fuzz_ops::check_bitmap::<croaring::Native>(&bytes);
    croaring::fuzz_ops::check_bitmap::<croaring::Portable>(&[9, 9, 9]);
    assert!(Bitmap::of(&[4]).internal_validate().is_ok());
}

#[test]
fn treemap_iterator_gives_values_in_order() {
    let mut treemap = Treemap::new();
    treemap.add(4);
    treemap.add(3);
    treemap.add(2);
    treemap.add(2);
    treemap.add(u64::MAX);
    let mut iterator = treemap.iter();
    assert_eq!(iterator.next(), Some(2));
    assert_eq!(iterator.next(), Some(3));
    assert_eq!(iterator.next(), Some(4));
    assert_eq!(iterator.next(), Some(u64::MAX));
    assert_eq!(iterator.next(), None);
    assert_eq!(iterator.next(), None);
}

#[test]
fn treemap_drops_bitmaps_left_empty() {
    let mut a = Treemap::of(&[1, u64::MAX]);
    let b = Treemap::of(&[u64::MAX]);
    a.andnot_inplace(&b);
    assert_eq!(a.map.len(), 1);
    a.xor_inplace(&Treemap::of(&[1]));
    assert!(a.map.is_empty());
    let mut c = Treemap::of(&[7, 1 << 40]);
    c.remove_range(RangeInclusive { start: 1 << 39, last: 1 << 41 });
    assert_eq!(c.map.len(), 1);
    let mut it = c.iter();
    assert_eq!(it.next(), Some(7));
    assert_eq!(it.next(), None);
}
