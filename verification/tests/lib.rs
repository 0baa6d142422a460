use croaring::range::range64_to_inclusive;
use croaring::{Bitmap, Bound, JvmLegacy, Native, Portable, RangeInclusive, Treemap};
use std::collections::BTreeMap;

#[test]
fn lib_smoke1() {
    let mut bitmap = Bitmap::new();
    assert_eq!(bitmap.cardinality(), 0);
    assert!(bitmap.is_empty());
    bitmap.remove(0);
    assert_eq!(bitmap.cardinality(), 0);
    assert!(bitmap.is_empty());
    bitmap.add(1);
    assert!(bitmap.contains(1));
    assert_eq!(bitmap.cardinality(), 1);
    assert!(!bitmap.is_empty());
    bitmap.add(u32::MAX - 2);
    assert!(bitmap.contains(u32::MAX - 2));
    assert_eq!(bitmap.cardinality(), 2);
    bitmap.add(u32::MAX);
    assert!(bitmap.contains(u32::MAX));
    assert_eq!(bitmap.cardinality(), 3);
    bitmap.add(2);
    assert!(bitmap.contains(2));
    assert_eq!(bitmap.cardinality(), 4);
    bitmap.remove(2);
    assert!(!bitmap.contains(2));
    assert_eq!(bitmap.cardinality(), 3);
    assert!(!bitmap.contains(0));
    assert!(bitmap.contains(1));
    assert!(!bitmap.contains(100));
    assert!(bitmap.contains(u32::MAX - 2));
    assert!(!bitmap.contains(u32::MAX - 1));
    assert!(bitmap.contains(u32::MAX));
    bitmap.clear();
    assert_eq!(bitmap.cardinality(), 0);
    assert!(bitmap.is_empty());
}

#[test]
fn lib_smoke2() {
    let mut rb1 = Bitmap::new();
    rb1.add(1);
    rb1.add(2);
    rb1.add(3);
    rb1.add(4);
    rb1.add(5);
    rb1.add(100);
    rb1.add(1000);
    rb1.run_optimize();

    let mut rb2 = Bitmap::new();
    rb2.add(3);
    rb2.add(4);
    rb2.add(1000);
    rb2.run_optimize();

    let mut rb3 = Bitmap::new();

    assert_eq!(rb1.cardinality(), 7);
    assert!(rb1.contains(3));

    rb1.and_inplace(&rb2);
    rb3.add(5);
    rb3.or_inplace(&rb1);

    rb1.and_inplace(&rb2);
    println!("{:?}", rb1);

    rb3.add(5);
    rb3.or_inplace(&rb1);

    println!("{:?}", rb1);

    rb3.add(5);
    rb3.or_inplace(&rb1);

    println!("{:?}", rb3);

    println!("{:?}", rb3.to_vec());
    let mut rb4 = Bitmap::fast_or(&[&rb1, &rb2, &rb3]);
    println!("{:?}", rb4);

    rb4 = Bitmap::fast_or(&[&rb1, &rb2, &rb3]);
    println!("{:?}", rb4);
}

#[test]
fn empty_cursor() {
    let bitmap = Bitmap::new();
    let mut cursor = bitmap.cursor();
    assert!(!cursor.has_value());
    assert_eq!(cursor.current(), None);
    assert_eq!(cursor.prev(), None);
    assert_eq!(cursor.prev(), None);
    assert_eq!(cursor.next(), None);
    assert_eq!(cursor.next(), None);
}

#[test]
fn cursor_return_from_the_edge() {
    let bitmap = Bitmap::of(&[1, 2, u32::MAX]);
    let mut cursor = bitmap.cursor_to_last();
    assert_eq!(cursor.current(), Some(u32::MAX));
    assert_eq!(cursor.next(), None);
    assert_eq!(cursor.prev(), Some(u32::MAX));
    assert_eq!(cursor.prev(), Some(2));
    assert_eq!(cursor.prev(), Some(1));

    assert_eq!(cursor.current(), Some(1));
    assert_eq!(cursor.prev(), None);
    assert_eq!(cursor.prev(), None);
    assert_eq!(cursor.next(), Some(1));
}

#[test]
fn test_treemap_max_andnot_empty() {
    let single_max = Treemap::of(&[u64::MAX]);
    let empty = Treemap::new();
    let diff = single_max.andnot(&empty);
    assert!(diff == single_max);

    let mut diff = single_max.clone();
    diff.andnot_inplace(&empty);
    assert!(diff == single_max);
}

#[test]
fn treemap_remove_big_range() {
    let mut treemap = Treemap::new();
    let value = 0xFFFFFFFFFFFF038D;
    let range_end = 0xFFFFFFFFFF25FFFF;
    treemap.add(value);

    assert!(range_end < value);
    let (start, last) = range64_to_inclusive(Bound::Unbounded, Bound::Excluded(value));
    treemap.remove_range(RangeInclusive { start, last });
    assert!(treemap.contains(value));
    assert_eq!(treemap.cardinality(), 1);
}

#[test]
fn treemap_run_optimized() {
    let mut initial = Bitmap::new();
    initial.add(1);
    initial.add(2);
    initial.add(3);
    initial.add(4);
    initial.add(5);
    initial.add(100);
    initial.add(1000);
    let optimized = {
        let mut result = initial.clone();
        result.run_optimize();
        result
    };

    let tree_unoptimized = Treemap {
        map: BTreeMap::from([(1, initial.clone()), (2, initial)]),
    };
    let tree_optimized = Treemap {
        map: BTreeMap::from([(1, optimized.clone()), (2, optimized)]),
    };

    let mut test = tree_unoptimized.clone();
    test.run_optimize();
    assert_eq!(
        test.get_serialized_size_in_bytes::<JvmLegacy>(),
        tree_optimized.get_serialized_size_in_bytes::<JvmLegacy>()
    );
    test.remove_run_compression();
    assert_eq!(
        test.get_serialized_size_in_bytes::<JvmLegacy>(),
        tree_unoptimized.get_serialized_size_in_bytes::<JvmLegacy>()
    );
}

#[test]
fn serialize_into_existing_vec_portable() {
    let mut buffer = vec![0; 13];
    let bitmap = Bitmap::of(&[1, 2, 3, 4, 5]);
    let data = bitmap.serialize_into_vec::<Portable>(&mut buffer);
    assert!(Bitmap::try_deserialize::<Portable>(data).unwrap() == bitmap);
    let data_start = data.as_ptr() as usize;
    assert!(data_start - buffer.as_ptr() as usize >= 13);
}

#[test]
fn serialize_into_existing_vec_native() {
    let mut buffer = vec![0; 13];
    let bitmap = Bitmap::of(&[1, 2, 3, 4, 5]);
    let data = bitmap.serialize_into_vec::<Native>(&mut buffer);
    assert!(Bitmap::try_deserialize::<Native>(data).unwrap() == bitmap);
    let data_start = data.as_ptr() as usize;
    assert!(data_start - buffer.as_ptr() as usize >= 13);
}

/// A small deterministic generator of test data.
struct Lcg(u64);

impl Lcg {
    fn next_u32(&mut self) -> u32 {
        self.0 = self.0.wrapping_mul(6364136223846793005).wrapping_add(1442695040888963407);
        (self.0 >> 32) as u32
    }

    fn vec(&mut self, max_len: u32) -> Vec<u32> {
        let len = self.next_u32() % max_len;
        (0..len).map(|_| self.next_u32()).collect()
    }
}

fn cardinality_round(data: Vec<u32>) -> bool {
    let original = Bitmap::of(&data);
    let mut a = data.clone();
    a.sort();
    a.dedup();
    a.len() == original.cardinality() as usize
}

#[test]
fn cardinality_roundtrip() {
    let mut gen = Lcg(1);
    for _ in 0..10 {
        assert!(cardinality_round(gen.vec(1_00_000)));
    }
}

fn serialization_round_trip(original: Vec<u32>) -> bool {
    let original = Bitmap::of(&original);

    let buffer = original.serialize::<Portable>();

    let deserialized = Bitmap::deserialize::<Portable>(&buffer);

    original == deserialized
}

#[test]
fn serialization_roundtrip() {
    let mut gen = Lcg(2);
    for _ in 0..10 {
        assert!(serialization_round_trip(gen.vec(1_00_000)));
    }
}

#[test]
fn test_serialization_roundtrip() {
    let original = Bitmap::of(&(1..1000).collect::<Vec<u32>>());

    let buffer = original.serialize::<Portable>();

    let deserialized = Bitmap::deserialize::<Portable>(&buffer);

    assert_eq!(buffer.len(), original.get_serialized_size_in_bytes::<Portable>());
    assert!(original == deserialized);
}
