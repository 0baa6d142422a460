use croaring::shown::Shown;
use croaring::{Bitmap, Bitmap64, RangeInclusive, Treemap};
use std::ops::ControlFlow;

#[test]
fn lazy_batch_matches_direct_operations() {
    let mut bitmap = Bitmap::of(&[99]);
    let bitmaps_to_or = [Bitmap::of(&[1, 2, 5, 10]), Bitmap::of(&[1, 30, 100])];
    let bitmaps_to_xor = [Bitmap::of(&[5]), Bitmap::of(&[1, 1000, 1001])];
    bitmap.lazy_batch(|lazy| {
        for b in &bitmaps_to_or {
            lazy.or_inplace(b, false);
        }
        for b in &bitmaps_to_xor {
            lazy.xor_inplace(b);
        }
    });
    let mut bitmap2 = Bitmap::of(&[99]);
    for b in &bitmaps_to_or {
        bitmap2.or_inplace(b);
    }
    for b in &bitmaps_to_xor {
        bitmap2.xor_inplace(b);
    }
    assert!(bitmap == bitmap2);
    assert_eq!(bitmap.to_vec(), [2, 10, 30, 99, 100, 1000, 1001]);
}

#[test]
fn lazy_batch_returns_the_closure_result() {
    let mut bitmap = Bitmap::create();
    let bitmaps_to_or = [Bitmap::of(&[1, 2, 5, 10]), Bitmap::of(&[1, 30, 100])];
    let total_added = bitmap.lazy_batch(|lazy| {
        let mut total = 0;
        for b in &bitmaps_to_or {
            lazy.or_inplace(b, true);
            total += b.cardinality();
        }
        total
    });
    assert_eq!(total_added, 7);
    assert_eq!(bitmap.cardinality(), 6);
}

#[test]
fn bitmap64_for_each_stops_at_break() {
    let bitmap = Bitmap64::of(&[1, 2, 3, 14, 20, 21, 100]);
    let mut even_nums_under_50 = vec![];
    let first_over_50 = bitmap.for_each(|value| {
        if value > 50 {
            return ControlFlow::Break(value);
        }
        if value % 2 == 0 {
            even_nums_under_50.push(value);
        }
        ControlFlow::Continue(())
    });
    assert_eq!(even_nums_under_50, vec![2, 14, 20]);
    assert_eq!(first_over_50, ControlFlow::Break(100));
    let all: ControlFlow<u64> = bitmap.for_each(|_| ControlFlow::Continue(()));
    assert_eq!(all, ControlFlow::Continue(()));
}

#[test]
fn shown_lists_small_bitmaps() {
    match Bitmap::of(&[3, 1, 2]).shown() {
        Shown::Values(v) => assert_eq!(v, vec![1, 2, 3]),
        Shown::Summary { .. } => panic!("expected the values"),
    }
    match Bitmap::from_range(RangeInclusive::from(10..110)).shown() {
        Shown::Summary { count, min, max } => assert_eq!((count, min, max), (100, 10, 109)),
        Shown::Values(_) => panic!("expected a summary"),
    }
    let values: Vec<u32> = (0..31).collect();
    assert!(matches!(Bitmap::of(&values).shown(), Shown::Values(_)));
    let values: Vec<u32> = (0..32).collect();
    assert!(matches!(Bitmap::of(&values).shown(), Shown::Summary { count: 32, min: 0, max: 31 }));
}

#[test]
fn shown_for_64_bit_sets() {
    match Treemap::of(&[1 << 40, 7]).shown() {
        Shown::Values(v) => assert_eq!(v, vec![7, 1 << 40]),
        Shown::Summary { .. } => panic!("expected the values"),
    }
    let values: Vec<u64> = (5..105).collect();
    match Bitmap64::of(&values).shown() {
        Shown::Summary { count, min, max } => assert_eq!((count, min, max), (100, 5, 104)),
        Shown::Values(_) => panic!("expected a summary"),
    }
}
