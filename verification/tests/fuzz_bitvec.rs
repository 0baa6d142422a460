use croaring::fuzz_bitvec::{against_bitvec, check_equal, set_values, to_bitvec, Bits};
use croaring::fuzz_ops::{check_serialized, fuzz_round, FuzzInput};
use croaring::fuzz_ops::{
    BitmapCompOperation, IterOperation, MutableBitmapOperation, Num, ReadBitmapOp, MAX_NUM,
};
use croaring::{Bitmap, RangeInclusive};

fn range(start: u32, last: u32) -> RangeInclusive<Num> {
    RangeInclusive { start: Num(start), last: Num(last) }
}

fn both(ops: Vec<MutableBitmapOperation>) -> (Bitmap, Bits) {
    let mut b = Bitmap::create();
    let mut v = Bits::cleared(MAX_NUM as usize);
    for op in &ops {
        op.on_roaring(&mut b);
        op.on_bitvec(&mut v);
        check_equal(&b, &v);
        assert_eq!(set_values(&v), b.to_vec());
    }
    (b, v)
}

#[test]
fn bitvec_starts_cleared() {
    let v = Bits::cleared(100);
    assert_eq!(v.length(), 100);
    assert_eq!(v.count(), 0);
    assert!(set_values(&v).is_empty());
}

#[test]
fn bitvec_follows_changes() {
    let (_, v) = both(vec![
        MutableBitmapOperation::Add(Num(5)),
        MutableBitmapOperation::AddChecked(Num(7)),
        MutableBitmapOperation::AddMany(vec![Num(1), Num(9), Num(1)]),
        MutableBitmapOperation::AddRange(range(20, 24)),
        MutableBitmapOperation::RemoveRange(range(22, 23)),
        MutableBitmapOperation::Remove(Num(9)),
        MutableBitmapOperation::RemoveChecked(Num(100)),
        MutableBitmapOperation::FlipInplace(range(4, 8)),
        MutableBitmapOperation::RunOptimize,
    ]);
    assert_eq!(set_values(&v), vec![1, 4, 6, 8, 20, 21, 24]);
    assert_eq!(v.count(), 7);
    assert_eq!(v.length(), MAX_NUM as usize);
}

#[test]
fn bitvec_makes_bitmaps_and_ranges() {
    let (b, v) = both(vec![
        MutableBitmapOperation::MakeBitmap { key: 1 },
        MutableBitmapOperation::MakeRange { key: 3 },
        MutableBitmapOperation::MakeBitmap { key: 9 },
        MutableBitmapOperation::MakeRange { key: 4 },
    ]);
    assert_eq!(v.count() as u64, b.cardinality());
    assert_eq!(v.count(), 9 * 1024 / 2 + 0x1_0000);
    let ones = set_values(&v);
    assert_eq!(ones[0], 0x1_0000);
    assert_eq!(ones[1], 0x1_0002);
    assert_eq!(*ones.last().unwrap(), 0x3_FFFF);
    let (_, cleared) = both(vec![
        MutableBitmapOperation::MakeRange { key: 0 },
        MutableBitmapOperation::Clear,
    ]);
    assert_eq!(cleared.count(), 0);
}

#[test]
fn bitvec_follows_combinations() {
    let (rhs, _) = both(vec![MutableBitmapOperation::AddRange(range(10, 19))]);
    for (op, expected) in [
        (BitmapCompOperation::And, vec![10, 11, 12]),
        (BitmapCompOperation::Or, (5..=19).collect::<Vec<u32>>()),
        (BitmapCompOperation::Xor, (5..=9).chain(13..=19).collect::<Vec<u32>>()),
        (BitmapCompOperation::AndNot, vec![5, 6, 7, 8, 9]),
        (BitmapCompOperation::Eq, (5..=12).collect::<Vec<u32>>()),
    ] {
        let (mut lhs, mut lhs_check) = both(vec![MutableBitmapOperation::AddRange(range(5, 12))]);
        op.on_roaring(&mut lhs, &rhs);
        op.on_bitvec(&mut lhs_check, &rhs);
        check_equal(&lhs, &lhs_check);
        assert_eq!(set_values(&lhs_check), expected);
        assert_eq!(lhs.to_vec(), expected);
    }
}

#[test]
fn to_bitvec_keeps_values_below_the_length() {
    let b = Bitmap::of(&[0, 3, 50, 99, 100, 4000]);
    let v = to_bitvec(&b, 100);
    assert_eq!(v.length(), 100);
    assert_eq!(set_values(&v), vec![0, 3, 50, 99]);
    let empty = to_bitvec(&Bitmap::create(), 10);
    assert_eq!(empty.count(), 0);
}

#[test]
fn reads_agree_on_both() {
    let (b, v) = both(vec![
        MutableBitmapOperation::AddRange(range(100, 200)),
        MutableBitmapOperation::Add(Num(7)),
    ]);
    for op in [
        ReadBitmapOp::ContainsRange(range(100, 150)),
        ReadBitmapOp::ContainsRange(range(5, 150)),
        ReadBitmapOp::Contains(Num(7)),
        ReadBitmapOp::Contains(Num(8)),
        ReadBitmapOp::RangeCardinality(range(0, 150)),
        ReadBitmapOp::Cardinality,
        ReadBitmapOp::Flip(range(0, 10)),
        ReadBitmapOp::ToVec,
        ReadBitmapOp::GetSerializedSizeInBytes,
        ReadBitmapOp::GetNativeSerializedSizeInBytes,
        ReadBitmapOp::GetFrozenSerializedSizeInBytes,
        ReadBitmapOp::IsEmpty,
        ReadBitmapOp::AddOffset(-3),
        ReadBitmapOp::IntersectWithRange(range(201, 300)),
        ReadBitmapOp::Minimum,
        ReadBitmapOp::Maximum,
        ReadBitmapOp::Rank(Num(150)),
        ReadBitmapOp::Index(Num(0)),
        ReadBitmapOp::Index(Num(7)),
        ReadBitmapOp::Index(Num(150)),
        ReadBitmapOp::Index(Num(201)),
        ReadBitmapOp::Select(Num(3)),
        ReadBitmapOp::Select(Num(500)),
        ReadBitmapOp::Statistics,
        ReadBitmapOp::Clone,
        ReadBitmapOp::Debug,
        ReadBitmapOp::WithIter(vec![IterOperation::ReadNext, IterOperation::NextMany(4)]),
    ] {
        op.on_both(&b, &v);
    }
    let empty_b = Bitmap::create();
    let empty_v = Bits::cleared(MAX_NUM as usize);
    for op in [ReadBitmapOp::IsEmpty, ReadBitmapOp::Minimum, ReadBitmapOp::Maximum, ReadBitmapOp::ToVec] {
        op.on_both(&empty_b, &empty_v);
    }
}

#[test]
fn fuzz_round_against_bitvec() {
    let input = FuzzInput {
        lhs_ops: vec![
            MutableBitmapOperation::MakeBitmap { key: 0 },
            MutableBitmapOperation::AddRange(range(70_000, 80_000)),
            MutableBitmapOperation::FlipInplace(range(75_000, 90_000)),
        ],
        rhs_ops: vec![
            MutableBitmapOperation::MakeRange { key: 1 },
            MutableBitmapOperation::AddMany(vec![Num(3), Num(5), Num(200_000)]),
        ],
        comp_ops: vec![
            BitmapCompOperation::Or,
            BitmapCompOperation::Xor,
            BitmapCompOperation::And,
            BitmapCompOperation::AndNot,
            BitmapCompOperation::IsSubset,
        ],
        view_ops: vec![
            ReadBitmapOp::Cardinality,
            ReadBitmapOp::RangeCardinality(range(0, 100_000)),
            ReadBitmapOp::Rank(Num(80_000)),
            ReadBitmapOp::Select(Num(10)),
            ReadBitmapOp::Minimum,
            ReadBitmapOp::Maximum,
        ],
    };
    against_bitvec(&input);
}

#[test]
fn fuzz_round_on_bitmaps() {
    let input = FuzzInput {
        lhs_ops: vec![MutableBitmapOperation::AddRange(range(10, 20)), MutableBitmapOperation::RunOptimize],
        rhs_ops: vec![MutableBitmapOperation::Add(Num(15)), MutableBitmapOperation::Add(Num(300))],
        comp_ops: vec![BitmapCompOperation::Or, BitmapCompOperation::AndNot],
        view_ops: vec![ReadBitmapOp::Cardinality, ReadBitmapOp::ToVec],
    };
    fuzz_round(&input);
    let mut lhs = Bitmap::of(&[1, 2, 3]);
    let other = Bitmap::of(&[3, 4]);
    let mut v = vec![1u8, 2];
    check_serialized(&mut lhs, &other, &mut v, &input);
    assert!(v.is_empty());
    assert_eq!(lhs.to_vec(), vec![1, 2]);
}
