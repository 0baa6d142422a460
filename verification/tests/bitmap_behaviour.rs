use croaring::range::{range_to_exclusive, range_to_inclusive};
use croaring::{Bitmap, Bound, Portable, RangeInclusive};

fn incl(start: Bound<u32>, end: Bound<u32>) -> RangeInclusive<u32> {
    let (start, last) = range_to_inclusive(start, end);
    RangeInclusive { start, last }
}

#[test]
fn add_checked_and_remove_checked_report_changes() {
    let mut bitmap = Bitmap::new();
    assert!(bitmap.add_checked(1));
    assert!(!bitmap.add_checked(1));
    assert!(bitmap.remove_checked(1));
    assert!(!bitmap.remove_checked(1));
}

#[test]
fn add_offset_drops_values_leaving_the_range() {
    let bitmap1 = Bitmap::of(&[0, 1, 1000, u32::MAX]);
    let shifted_down = bitmap1.add_offset(-1);
    assert_eq!(shifted_down.to_vec(), [0, 999, u32::MAX - 1]);
    let shifted_up = bitmap1.add_offset(1);
    assert_eq!(shifted_up.to_vec(), [1, 2, 1001]);
    let big_shifted = bitmap1.add_offset(i64::from(u32::MAX) + 1);
    assert_eq!(big_shifted.to_vec(), Vec::<u32>::new());
}

#[test]
fn range_cardinality_counts_values_in_range() {
    let bitmap = Bitmap::of(&[1, 3, 4]);
    assert_eq!(bitmap.range_cardinality(incl(Bound::Unbounded, Bound::Excluded(1))), 0);
    assert_eq!(bitmap.range_cardinality(incl(Bound::Unbounded, Bound::Excluded(2))), 1);
    assert_eq!(bitmap.range_cardinality(RangeInclusive::from(2..5)), 2);
    assert_eq!(bitmap.range_cardinality(incl(Bound::Unbounded, Bound::Excluded(5))), 3);
    assert_eq!(bitmap.range_cardinality(RangeInclusive { start: 1, last: 4 }), 3);
}

#[test]
fn flip_negates_a_range() {
    let bitmap1 = Bitmap::of(&[4]);
    let bitmap2 = bitmap1.flip(RangeInclusive::from(1..3));
    assert_eq!(bitmap2.cardinality(), 3);
    assert!(bitmap2.contains(1));
    assert!(bitmap2.contains(2));
    assert!(!bitmap2.contains(3));
    assert!(bitmap2.contains(4));
    let bitmap3 = bitmap1.flip(RangeInclusive { start: 1, last: 5 });
    assert_eq!(bitmap3.to_vec(), [1, 2, 3, 5]);

    let mut bitmap4 = Bitmap::of(&[4]);
    bitmap4.flip_inplace(RangeInclusive::from(1..3));
    assert_eq!(bitmap4.to_vec(), [1, 2, 4]);
    bitmap4.flip_inplace(RangeInclusive { start: 4, last: 4 });
    assert_eq!(bitmap4.to_vec(), [1, 2]);
}

#[test]
fn from_range_builds_ranges() {
    assert_eq!(Bitmap::from_range(RangeInclusive::from(5..10)).to_vec(), [5, 6, 7, 8, 9]);
    assert_eq!(Bitmap::from_range(RangeInclusive { start: 5, last: 7 }).to_vec(), [5, 6, 7]);
    assert_eq!(Bitmap::from_range(incl(Bound::Excluded(2), Bound::Excluded(6))).to_vec(), [3, 4, 5]);
}

#[test]
fn from_range_with_step_steps_from_the_lower_bound() {
    let bitmap = Bitmap::from_range_with_step(Bound::Included(0), Bound::Excluded(10), 3);
    assert_eq!(bitmap.to_vec(), [0, 3, 6, 9]);
    assert!(Bitmap::from_range_with_step(Bound::Included(0), Bound::Excluded(0), 1) == Bitmap::new());
    assert!(Bitmap::from_range_with_step(Bound::Included(100), Bound::Included(0), 1) == Bitmap::new());
    assert!(Bitmap::from_range_with_step(Bound::Included(0), Bound::Excluded(100), 0) == Bitmap::new());
    let bitmap = Bitmap::from_range_with_step(Bound::Excluded(0), Bound::Included(10), 100);
    assert!(bitmap == Bitmap::new());
    let bitmap = Bitmap::from_range_with_step(Bound::Excluded(u32::MAX), Bound::Included(u32::MAX), 1);
    assert!(bitmap == Bitmap::new());
    let bitmap = Bitmap::from_range_with_step(Bound::Excluded(10), Bound::Included(30), 10);
    assert_eq!(bitmap.to_vec(), [20, 30]);
    let bitmap = Bitmap::from_range_with_step(Bound::Included(u32::MAX - 1), Bound::Included(u32::MAX), 1);
    assert_eq!(bitmap.to_vec(), vec![u32::MAX - 1, u32::MAX]);
    let bitmap = Bitmap::from_range_with_step(Bound::Included(u32::MAX - 1), Bound::Included(u32::MAX), 3);
    assert_eq!(bitmap.to_vec(), vec![u32::MAX - 1]);
}

#[test]
fn intersect_with_range_detects_values() {
    let bitmap = Bitmap::of(&[1, 100, 101, u32::MAX]);
    assert!(bitmap.intersect_with_range(RangeInclusive::from(0..10)));
    assert!(!bitmap.intersect_with_range(RangeInclusive::from(2..100)));
    assert!(bitmap.intersect_with_range(RangeInclusive { start: 999, last: u32::MAX }));
    assert!(!bitmap.intersect_with_range(RangeInclusive::from(100..100)));
    assert!(!bitmap.intersect_with_range(RangeInclusive::from(100..0)));
}

#[test]
fn contains_range_needs_every_value() {
    let mut bitmap = Bitmap::new();
    bitmap.add_range(RangeInclusive::from(1..3));
    assert!(bitmap.contains_range(RangeInclusive::from(1..3)));
    bitmap.add(u32::MAX - 1);
    bitmap.add(u32::MAX);
    assert!(bitmap.contains_range(RangeInclusive { start: u32::MAX - 1, last: u32::MAX }));
    assert!(!bitmap.contains_range(RangeInclusive::from(0..3)));
}

#[test]
fn rank_position_and_select_agree() {
    let mut bitmap = Bitmap::from_range(RangeInclusive::from(5..10));
    assert_eq!(bitmap.rank(8), 4);
    assert_eq!(bitmap.position(4), None);
    assert_eq!(bitmap.position(5), Some(0));
    assert_eq!(bitmap.position(9), Some(4));
    assert_eq!(bitmap.position(10), None);
    assert_eq!(bitmap.position(9999), None);
    assert_eq!(bitmap.rank(4), 0);
    assert_eq!(bitmap.rank(5), 1);
    assert_eq!(bitmap.rank(9), 5);
    assert_eq!(bitmap.rank(10), 5);
    assert_eq!(bitmap.rank(9999), 5);
    let pos = bitmap.position(7).unwrap();
    assert_eq!(bitmap.select(pos), Some(7));
    assert_eq!(bitmap.select(0), Some(5));
    assert_eq!(bitmap.select(4), Some(9));
    assert_eq!(bitmap.select(5), None);
    bitmap.add(15);
    assert_eq!(bitmap.rank(11), 5);
    assert_eq!(bitmap.rank(15), 6);
}

#[test]
fn set_operations_give_the_set_results() {
    let a = Bitmap::of(&[15, 25]);
    let b = Bitmap::of(&[25, 35]);
    assert_eq!(a.and(&b).to_vec(), [25]);
    assert_eq!(a.or(&b).to_vec(), [15, 25, 35]);
    assert_eq!(a.xor(&b).to_vec(), [15, 35]);
    assert_eq!(a.andnot(&b).to_vec(), [15]);
    assert_eq!(a.and_cardinality(&b), 1);
    assert_eq!(a.or_cardinality(&b), 3);
    assert_eq!(a.xor_cardinality(&b), 2);
    assert_eq!(a.andnot_cardinality(&b), 1);
    assert!(a.intersect(&b));
    assert!(!a.intersect(&Bitmap::of(&[1])));
    let c = Bitmap::fast_xor(&[&a, &b, &Bitmap::of(&[15])]);
    assert_eq!(c.to_vec(), [35]);
}

#[test]
fn subsets_are_recognised() {
    let bitmap1 = Bitmap::from_range(RangeInclusive::from(5..10));
    let bitmap2 = Bitmap::from_range(RangeInclusive::from(5..8));
    let bitmap3 = Bitmap::from_range(RangeInclusive::from(5..10));
    let bitmap4 = Bitmap::from_range(RangeInclusive::from(9..11));
    assert!(bitmap2.is_subset(&bitmap1));
    assert!(bitmap3.is_subset(&bitmap1));
    assert!(!bitmap4.is_subset(&bitmap1));
    assert!(bitmap2.is_strict_subset(&bitmap1));
    assert!(!bitmap3.is_strict_subset(&bitmap1));
}

#[test]
fn minimum_and_maximum_of_values() {
    let empty = Bitmap::new();
    assert_eq!(empty.minimum(), None);
    assert_eq!(empty.maximum(), None);
    let bitmap = Bitmap::of(&[120, 1000]);
    assert_eq!(bitmap.minimum(), Some(120));
    assert_eq!(bitmap.maximum(), Some(1000));
}

#[test]
fn remove_many_and_remove_range() {
    let mut bitmap = Bitmap::from_range(RangeInclusive::from(0..20));
    bitmap.remove_many(&[1, 3, 5, 100]);
    bitmap.remove_range(RangeInclusive::from(10..20));
    assert_eq!(bitmap.to_vec(), [0, 2, 4, 6, 7, 8, 9]);
}

#[test]
fn run_optimize_keeps_values() {
    let values: Vec<u32> = (100..1000).collect();
    let mut bitmap = Bitmap::of(&values);
    assert_eq!(bitmap.cardinality(), 900);
    let old_size = bitmap.get_serialized_size_in_bytes::<Portable>();
    assert!(bitmap.run_optimize());
    let new_size = bitmap.get_serialized_size_in_bytes::<Portable>();
    assert!(new_size < old_size);
    assert_eq!(bitmap.cardinality(), 900);
    assert!(!bitmap.run_optimize());
    assert_eq!(bitmap.get_serialized_size_in_bytes::<Portable>(), new_size);
    assert!(bitmap.remove_run_compression());
    assert!(!bitmap.remove_run_compression());
    assert_eq!(bitmap.cardinality(), 900);
    assert_eq!(bitmap.get_serialized_size_in_bytes::<Portable>(), old_size);
    let mut empty = Bitmap::new();
    assert!(!empty.run_optimize());
    let mut scattered = Bitmap::of(&[1, 3, 5]);
    assert!(!scattered.run_optimize());
    assert!(!scattered.remove_run_compression());
}

#[test]
fn ranges_keep_run_compression() {
    let bitmap = Bitmap::from_range(RangeInclusive::from(0..1000));
    assert_eq!(bitmap.get_serialized_size_in_bytes::<Portable>(), 15);
    let copy = bitmap.clone();
    assert_eq!(copy.serialize::<Portable>(), bitmap.serialize::<Portable>());
}

#[test]
fn shrink_to_fit_releases_reserved_memory_once() {
    let mut bitmap = Bitmap::with_container_capacity(10);
    let saved_bytes = bitmap.shrink_to_fit();
    assert!(saved_bytes > 0);
    let more_saved_bytes = bitmap.shrink_to_fit();
    assert_eq!(more_saved_bytes, 0);
    assert!(bitmap.is_empty());
}

#[test]
fn cursor_moves_both_ways() {
    let bitmap = Bitmap::of(&[1, 2, 3]);
    let mut cursor = bitmap.cursor();
    assert_eq!(cursor.current(), Some(1));
    cursor.move_prev();
    assert_eq!(cursor.current(), None);
    cursor.move_next();
    assert_eq!(cursor.current(), Some(1));
    cursor.move_next();
    assert_eq!(cursor.current(), Some(2));
    cursor.move_next();
    assert_eq!(cursor.current(), Some(3));
    cursor.move_next();
    assert_eq!(cursor.current(), None);
    let cursor = cursor.reset_to_last(&bitmap);
    assert_eq!(cursor.current(), Some(3));
    let cursor = cursor.reset_to_first(&bitmap);
    assert_eq!(cursor.current(), Some(1));
}

#[test]
fn cursor_reset_at_or_after_moves_either_way() {
    let bitmap = Bitmap::of(&[0, 1, 100, 1000, u32::MAX]);
    let mut cursor = bitmap.cursor();
    cursor.reset_at_or_after(0);
    assert_eq!(cursor.current(), Some(0));
    cursor.reset_at_or_after(0);
    assert_eq!(cursor.current(), Some(0));
    cursor.reset_at_or_after(101);
    assert_eq!(cursor.current(), Some(1000));
    assert_eq!(cursor.next(), Some(u32::MAX));
    assert_eq!(cursor.next(), None);
    cursor.reset_at_or_after(u32::MAX);
    assert_eq!(cursor.current(), Some(u32::MAX));
    assert_eq!(cursor.next(), None);
}

#[test]
fn cursor_read_many_fills_in_order() {
    let bitmap = Bitmap::of(&[1, 2, 3, 5, 8]);
    let mut cursor = bitmap.cursor();
    cursor.reset_at_or_after(2);
    let mut buf = [0u32; 3];
    assert_eq!(cursor.read_many(&mut buf), 3);
    assert_eq!(buf, [2, 3, 5]);
    assert_eq!(cursor.current(), Some(8));
    assert_eq!(cursor.read_many(&mut buf), 1);
    assert_eq!(buf, [8, 3, 5]);
    assert_eq!(cursor.current(), None);
    assert_eq!(cursor.read_many(&mut buf), 0);
}

#[test]
fn clone_and_equality_follow_the_values() {
    let a = Bitmap::of(&[3, 1, 2]);
    let b = a.clone();
    assert!(a == b);
    let mut c = Bitmap::new();
    c.add_range(RangeInclusive { start: 1, last: 3 });
    assert!(a == c);
    c.add(7);
    assert!(a != c);
}

#[test]
fn exclusive_ranges_from_bounds() {
    assert_eq!(range_to_exclusive(Bound::Included(3), Bound::Excluded(9)), (3, 9));
    assert_eq!(range_to_exclusive(Bound::Excluded(3), Bound::Included(9)), (4, 10));
    assert_eq!(range_to_exclusive(Bound::Unbounded, Bound::Unbounded), (0, u64::MAX));
    assert_eq!(range_to_exclusive(Bound::Excluded(u32::MAX), Bound::Unbounded), (u32::MAX as u64 + 1, u64::MAX));
    assert_eq!(range_to_exclusive(Bound::Included(1), Bound::Included(u32::MAX)), (1, 1u64 << 32));
    assert_eq!(range_to_exclusive(Bound::Included(5), Bound::Excluded(5)), (5, 5));
}

#[test]
fn bitmap_with_capacity_starts_empty() {
    let mut bitmap = croaring::Bitmap::create_with_capacity(100);
    assert!(bitmap.is_empty());
    bitmap.add(7);
    assert_eq!(bitmap.to_vec(), [7]);
}

#[test]
fn iterator_reads_in_chunks() {
    let bitmap = croaring::Bitmap::of(&(1..20).collect::<Vec<u32>>());
    let mut chunked_iterator = bitmap.iter().chunks(4);
    assert_eq!(chunked_iterator.next(), Some(vec![1, 2, 3, 4]));
    assert_eq!(chunked_iterator.next(), Some(vec![5, 6, 7, 8]));
    assert_eq!(chunked_iterator.next(), Some(vec![9, 10, 11, 12]));
    assert_eq!(chunked_iterator.next(), Some(vec![13, 14, 15, 16]));
    assert_eq!(chunked_iterator.next(), Some(vec![17, 18, 19]));
    assert_eq!(chunked_iterator.next(), None);
    let nothing = croaring::Bitmap::create();
    let mut empty = croaring::BitmapChunks::new(nothing.iter(), 3);
    assert_eq!(empty.next(), None);
}
