use croaring::bitmap64::{Deserializer, Serializer};
use croaring::callback::CallbackWrapper;
use croaring::fuzz_ops64::{
    assert_64_eq, check_bitmap64, BitmapCompOperation, BitmapMutBinop, IteratorOp,
    MutableBitmapOperation, MutableRhsBitmapOperation, Num, ReadBitmapOp,
};
use croaring::{Bitmap64, Bound, Portable, RangeInclusive, Treemap};
use std::ops::ControlFlow;

fn r64(start: u64, last: u64) -> RangeInclusive<u64> {
    RangeInclusive { start, last }
}

#[test]
fn test_r64_contains_max() {
    let mut bitmap = Bitmap64::new();
    assert!(!bitmap.contains_range(r64(u64::MAX - 1, u64::MAX)));
    bitmap.add(u64::MAX - 1);
    bitmap.add(u64::MAX);
    assert!(bitmap.contains_range(r64(u64::MAX - 1, u64::MAX)));
}

#[test]
fn test_r64_cursor_reset() {
    let bitmap = Bitmap64::of(&[0, 1, 100, 1000, u64::MAX]);
    let mut cursor = bitmap.cursor();
    cursor.reset_at_or_after(0);
    assert_eq!(cursor.current(), Some(0));
    cursor.reset_at_or_after(0);
    assert_eq!(cursor.current(), Some(0));

    cursor.reset_at_or_after(101);
    assert_eq!(cursor.current(), Some(1000));
    assert_eq!(cursor.next(), Some(u64::MAX));
    assert_eq!(cursor.next(), None);
    cursor.reset_at_or_after(u64::MAX);
    assert_eq!(cursor.current(), Some(u64::MAX));
    assert_eq!(cursor.next(), None);
}

#[test]
fn bitmap64_from_range_with_step() {
    let bitmap = Bitmap64::from_range_with_step(Bound::Included(0), Bound::Excluded(10), 3);
    assert_eq!(bitmap.to_vec(), vec![0, 3, 6, 9]);
    assert!(Bitmap64::from_range_with_step(Bound::Included(0), Bound::Excluded(0), 1).is_empty());
    assert!(Bitmap64::from_range_with_step(Bound::Included(100), Bound::Included(0), 0).is_empty());
    assert!(Bitmap64::from_range_with_step(Bound::Included(0), Bound::Excluded(10), 0).is_empty());
    let bitmap = Bitmap64::from_range_with_step(Bound::Excluded(0), Bound::Included(10), 100);
    assert!(bitmap == Bitmap64::new());
    let bitmap = Bitmap64::from_range_with_step(Bound::Excluded(u64::MAX), Bound::Included(u64::MAX), 1);
    assert!(bitmap == Bitmap64::new());
    let bitmap = Bitmap64::from_range_with_step(Bound::Excluded(10), Bound::Included(30), 10);
    assert_eq!(bitmap.to_vec(), vec![20, 30]);
    let bitmap = Bitmap64::from_range_with_step(Bound::Included(u64::MAX - 1), Bound::Included(u64::MAX), 1);
    assert_eq!(bitmap.to_vec(), vec![u64::MAX - 1, u64::MAX]);
    let bitmap = Bitmap64::from_range_with_step(Bound::Included(u64::MAX - 1), Bound::Included(u64::MAX), 3);
    assert_eq!(bitmap.to_vec(), vec![u64::MAX - 1]);
}

#[test]
fn bitmap64_select_rank_position() {
    let mut bitmap = Bitmap64::from_range(r64(5, 9));
    assert_eq!(bitmap.select(0), Some(5));
    assert_eq!(bitmap.select(4), Some(9));
    assert_eq!(bitmap.select(5), None);
    assert_eq!(bitmap.rank(8), 4);
    assert_eq!(bitmap.rank(11), 5);
    assert_eq!(bitmap.rank(4), 0);
    assert_eq!(bitmap.position(4), None);
    assert_eq!(bitmap.position(5), Some(0));
    assert_eq!(bitmap.position(9), Some(4));
    assert_eq!(bitmap.position(10), None);
    let pos = bitmap.position(7).unwrap();
    assert_eq!(bitmap.select(pos), Some(7));
    bitmap.add(15);
    assert_eq!(bitmap.rank(11), 5);
    assert_eq!(bitmap.rank(15), 6);
}

#[test]
fn bitmap64_range_queries() {
    let bitmap = Bitmap64::of(&[1, 2, 4, u64::MAX]);
    assert_eq!(bitmap.range_cardinality(r64(1, 3)), 2);
    assert_eq!(bitmap.range_cardinality(r64(4, u64::MAX)), 2);
    assert!(bitmap.contains_range(r64(1, 2)));
    assert!(!bitmap.contains_range(r64(1, 4)));
    assert!(bitmap.contains_range(r64(10, 0)));
    assert!(bitmap.intersect_with_range(r64(3, 4)));
    assert!(!bitmap.intersect_with_range(r64(5, 100)));
    assert_eq!(bitmap.minimum(), Some(1));
    assert_eq!(bitmap.maximum(), Some(u64::MAX));
}

#[test]
fn bitmap64_set_operations() {
    let a = Bitmap64::of(&[1, 2, 3, 1 << 40]);
    let b = Bitmap64::of(&[3, 4, 1 << 40]);
    assert_eq!(a.and(&b).to_vec(), vec![3, 1 << 40]);
    assert_eq!(a.or(&b).to_vec(), vec![1, 2, 3, 4, 1 << 40]);
    assert_eq!(a.xor(&b).to_vec(), vec![1, 2, 4]);
    assert_eq!(a.andnot(&b).to_vec(), vec![1, 2]);
    assert_eq!(a.and_cardinality(&b), 2);
    assert_eq!(a.or_cardinality(&b), 5);
    assert_eq!(a.xor_cardinality(&b), 3);
    assert_eq!(a.andnot_cardinality(&b), 2);
    assert!(a.intersect(&b));
    assert!(!a.is_subset(&b));
    assert!(Bitmap64::of(&[3]).is_strict_subset(&b));
    let flipped = Bitmap64::of(&[4]).flip(r64(1, 5));
    assert_eq!(flipped.to_vec(), vec![1, 2, 3, 5]);
    let mut c = a.clone();
    c.and_inplace(&b);
    assert!(c == a.and(&b));
    c.or_inplace(&b);
    c.xor_inplace(&a);
    c.andnot_inplace(&b);
    assert_eq!(c.to_vec(), vec![1, 2]);
}

#[test]
fn bitmap64_add_and_remove() {
    let mut bitmap = Bitmap64::new();
    assert!(bitmap.add_checked(1));
    assert!(!bitmap.add_checked(1));
    bitmap.add_many(&[2, 3, 4, 5, 6, 7, 8, 9]);
    bitmap.remove_many(&[1, 2, 3, 4, 5, 6, 7, 8]);
    assert_eq!(bitmap.to_vec(), vec![9]);
    bitmap.add_range(r64(1, 3));
    bitmap.remove_all(&[1, 2]);
    assert_eq!(bitmap.to_vec(), vec![3, 9]);
    assert!(bitmap.remove_checked(3));
    assert!(!bitmap.remove_checked(3));
    bitmap.add_range(r64(u64::MAX - 2, u64::MAX));
    assert_eq!(bitmap.cardinality(), 4);
    bitmap.remove_range(r64(u64::MAX - 1, u64::MAX));
    assert_eq!(bitmap.to_vec(), vec![9, u64::MAX - 2]);
    bitmap.clear();
    assert!(bitmap.is_empty());
    assert!(bitmap.internal_validate().is_ok());
}

#[test]
fn bitmap64_run_optimize_and_serialization() {
    let values: Vec<u64> = (100..1000).collect();
    let mut bitmap = Bitmap64::of(&values);
    assert_eq!(bitmap.cardinality(), 900);
    let old_size = bitmap.get_serialized_size_in_bytes::<Portable>();
    assert!(bitmap.run_optimize());
    assert!(bitmap.get_serialized_size_in_bytes::<Portable>() < old_size);
    assert!(bitmap.run_optimize());
    let bytes = bitmap.serialize::<Portable>();
    assert_eq!(&bytes[0..12], &[1, 0, 0, 0, 0, 0, 0, 0, 0, 0, 0, 0]);
    let back = Bitmap64::deserialize::<Portable>(&bytes);
    assert!(back == bitmap);
    let mut scattered = Bitmap64::of(&[1, 3, 5]);
    assert!(!scattered.run_optimize());
}

#[test]
fn bitmap64_portable_matches_treemap() {
    let values = [1u64, 5, 1 << 33, (1 << 33) + 7, u64::MAX];
    let bitmap = Bitmap64::of(&values);
    let treemap = Treemap::of(&values);
    assert_eq!(bitmap.serialize::<Portable>(), treemap.serialize::<Portable>());
    let mut emptied = Bitmap64::of(&[1, 1 << 40]);
    emptied.remove(1 << 40);
    let bytes = emptied.serialize::<Portable>();
    assert_eq!(&bytes[0..8], &[1, 0, 0, 0, 0, 0, 0, 0]);
    assert_eq!(bytes.len(), emptied.get_serialized_size_in_bytes::<Portable>());
    let mut buffer = vec![0xAAu8; bytes.len() + 3];
    assert_eq!(<Portable as Serializer>::try_serialize_into(&emptied, &mut buffer), Some(bytes.len()));
    assert_eq!(&buffer[..bytes.len()], &bytes[..]);
    assert_eq!(&buffer[bytes.len()..], &[0xAA, 0xAA, 0xAA]);
    let mut short = vec![0u8; bytes.len() - 1];
    assert_eq!(emptied.try_serialize_into::<Portable>(&mut short), None);
    assert!(<Portable as Deserializer>::try_deserialize(&bytes[..bytes.len() - 1]).is_none());
    assert!(Bitmap64::try_deserialize::<Portable>(&bytes).unwrap() == emptied);
}

#[test]
fn bitmap64_cursor_walks_both_ways() {
    let bitmap = Bitmap64::of(&[3, 1 << 40, u64::MAX]);
    let mut cursor = bitmap.cursor();
    assert_eq!(cursor.current(), Some(3));
    assert_eq!(cursor.next(), Some(1 << 40));
    assert_eq!(cursor.prev(), Some(3));
    assert_eq!(cursor.prev(), None);
    assert!(!cursor.has_value());
    assert_eq!(cursor.next(), Some(3));
    let mut dst = [0u64; 5];
    assert_eq!(cursor.read_many(&mut dst), 3);
    assert_eq!(&dst[..3], &[3, 1 << 40, u64::MAX]);
    let last = bitmap.cursor_to_last();
    assert_eq!(last.current(), Some(u64::MAX));
    let empty = Bitmap64::new();
    assert!(!empty.cursor().has_value());
}

#[test]
fn callback_wrapper_keeps_the_first_stop() {
    let mut wrapper: CallbackWrapper<u32, &str, String> = CallbackWrapper::new(7);
    assert!(wrapper.record(Ok(ControlFlow::Continue(()))));
    assert_eq!(*wrapper.callback_mut(), 7);
    assert!(!wrapper.record(Ok(ControlFlow::Break("stop"))));
    assert_eq!(wrapper.result(), Ok(ControlFlow::Break("stop")));
    let mut failing: CallbackWrapper<u32, &str, String> = CallbackWrapper::new(1);
    assert!(!failing.record(Err(String::from("boom"))));
    assert_eq!(failing.result(), Err(String::from("boom")));
    let untouched: CallbackWrapper<u32, &str, String> = CallbackWrapper::new(1);
    assert_eq!(untouched.result(), Ok(ControlFlow::Continue(())));
}

#[test]
fn fuzz64_operations_agree_with_treemap() {
    let mut b = Bitmap64::new();
    let mut t = Treemap::new();
    let ops = vec![
        MutableBitmapOperation::Add(Num(5)),
        MutableBitmapOperation::AddChecked(Num(7)),
        MutableBitmapOperation::AddMany(vec![Num(1), Num(0x1_0000), Num(3)]),
        MutableBitmapOperation::AddRange(RangeInclusive { start: Num(100), last: Num(200) }),
        MutableBitmapOperation::RemoveRange(RangeInclusive { start: Num(150), last: Num(160) }),
        MutableBitmapOperation::FlipRange(RangeInclusive { start: Num(190), last: Num(210) }),
        MutableBitmapOperation::RemoveChecked(Num(3)),
        MutableBitmapOperation::MakeDeep,
        MutableBitmapOperation::MakeWide,
        MutableBitmapOperation::AddToMax(9),
        MutableBitmapOperation::RunOptimize,
        MutableBitmapOperation::Copy,
    ];
    for op in &ops {
        op.on_bitmap64(&mut b);
        op.on_treemap(&mut t);
        assert_64_eq(&b, &t);
    }
    let reads = vec![
        ReadBitmapOp::Contains(5),
        ReadBitmapOp::RangeCardinality(RangeInclusive { start: 0, last: 1000 }),
        ReadBitmapOp::Cardinality,
        ReadBitmapOp::IsEmpty,
        ReadBitmapOp::Minimum,
        ReadBitmapOp::Maximum,
        ReadBitmapOp::Rank(180),
        ReadBitmapOp::Index(120),
        ReadBitmapOp::Index(121_000),
        ReadBitmapOp::Select(3),
        ReadBitmapOp::Select(100_000),
        ReadBitmapOp::Clone,
        ReadBitmapOp::ToVec,
        ReadBitmapOp::ContainsRange(RangeInclusive { start: 100, last: 140 }),
        ReadBitmapOp::IntersectWithRange(RangeInclusive { start: 0, last: 4 }),
    ];
    for op in &reads {
        op.check_against_tree(&b, &t);
    }
    let other_b = Bitmap64::of(&[5, 6, 1 << 40]);
    let other_t = Treemap::of(&[5, 6, 1 << 40]);
    for op in [
        BitmapCompOperation::Eq,
        BitmapCompOperation::IsSubset,
        BitmapCompOperation::IsStrictSubset,
        BitmapCompOperation::Intersect,
        BitmapCompOperation::And,
        BitmapCompOperation::Or,
        BitmapCompOperation::Xor,
        BitmapCompOperation::AndNot,
    ] {
        op.compare_with_tree(&b, &other_b, &t, &other_t);
    }
    for op in [BitmapMutBinop::And, BitmapMutBinop::Or, BitmapMutBinop::Xor, BitmapMutBinop::AndNot] {
        let mut lb = b.clone();
        let mut lt = t.clone();
        op.on_roaring64(&mut lb, &other_b);
        op.on_treemap(&mut lt, &other_t);
        assert_64_eq(&lb, &lt);
    }
    let rhs = MutableRhsBitmapOperation::MutBinaryOp(BitmapMutBinop::Or);
    rhs.on_bitmap64(&mut b, &other_b);
    rhs.on_treemap(&mut t, &other_t);
    assert_64_eq(&b, &t);
    MutableBitmapOperation::Clear.on_bitmap64(&mut b);
    assert!(b.is_empty());
}

#[test]
fn fuzz64_cursor_steps() {
    let bitmap = Bitmap64::of(&[2, 4, 1 << 35]);
    let mut cursor = bitmap.cursor();
    for op in [
        IteratorOp::Next,
        IteratorOp::Prev,
        IteratorOp::ResetToLast,
        IteratorOp::MovePrev,
        IteratorOp::ReadMany(Num(2)),
        IteratorOp::ResetAtOrAfter(3),
        IteratorOp::Clone,
        IteratorOp::HasValue,
        IteratorOp::Current,
        IteratorOp::MoveNext,
        IteratorOp::ResetToFirst,
    ] {
        op.on_cursor(&bitmap, &mut cursor);
    }
    assert_eq!(cursor.current(), Some(2));
}

#[test]
fn fuzz64_check_bitmap_reads_back() {
    let bytes = Bitmap64::of(&[1, 2, 1 << 50]).serialize::<Portable>();
    check_bitmap64::<Portable>(&bytes);
    check_bitmap64::<Portable>(&[1, 2, 3]);
}

#[test]
fn callback_outcome_after_a_series_of_calls() {
    let mut all: CallbackWrapper<u32, &str, String> = CallbackWrapper::new(0);
    for _ in 0..3 {
        assert!(all.record(Ok(std::ops::ControlFlow::Continue(()))));
    }
    assert_eq!(all.result(), Ok(std::ops::ControlFlow::Continue(())));
    let none: CallbackWrapper<u32, &str, String> = CallbackWrapper::new(0);
    assert_eq!(none.result(), Ok(std::ops::ControlFlow::Continue(())));
    let mut stopped: CallbackWrapper<u32, &str, String> = CallbackWrapper::new(0);
    assert!(stopped.record(Ok(std::ops::ControlFlow::Continue(()))));
    assert!(!stopped.record(Ok(std::ops::ControlFlow::Break("done"))));
    assert_eq!(stopped.result(), Ok(std::ops::ControlFlow::Break("done")));
}
