use croaring::{Bitmap, Bitset, RangeInclusive};

fn collect(bitset: &Bitset) -> Vec<usize> {
    let mut out = Vec::new();
    let mut it = bitset.iter();
    while let Some(v) = it.next() {
        out.push(v);
    }
    out
}

#[test]
fn bitset_new_and_with_size() {
    let bitset = Bitset::new();
    assert_eq!(bitset.size_in_bits(), 0);
    assert_eq!(bitset.size_in_words(), 0);
    let bitset = Bitset::with_size(100);
    assert!(bitset.capacity() >= 100);
    assert!(bitset.size_in_bits() >= 100);
    assert_eq!(bitset.size_in_words(), 2);
    assert_eq!(bitset.size_in_bytes(), 16);
    assert_eq!(bitset.count(), 0);
}

#[test]
fn bitset_fill_keeps_size() {
    let mut bitset = Bitset::with_size(64);
    bitset.fill(true);
    assert!(bitset.get(1));
    assert!(bitset.get(63));
    assert!(!bitset.get(64));
    bitset.fill(false);
    assert!(!bitset.get(1));
    assert!(!bitset.get(63));
    assert!(!bitset.get(64));
}

#[test]
fn bitset_resize_words() {
    let mut bitset = Bitset::new();
    bitset.resize_words(1, false);
    bitset.resize_words(2, true);
    assert_eq!(collect(&bitset), (64..128).collect::<Vec<_>>());
    bitset.resize_words(1, true);
    assert_eq!(bitset.count(), 0);
    assert_eq!(bitset.as_slice(), &[0u64]);
}

#[test]
fn bitset_shrink_to_fit() {
    let mut bitset = Bitset::new();
    bitset.set(63);
    bitset.set(1000);
    assert!(bitset.size_in_bits() > 1000);
    bitset.set_to_value(1000, false);
    bitset.shrink_to_fit();
    assert_eq!(bitset.size_in_bits(), 64);
}

#[test]
fn bitset_set_and_get() {
    let mut bitset = Bitset::new();
    bitset.set(1);
    bitset.set(2);
    bitset.set(100);
    assert_eq!(collect(&bitset), vec![1, 2, 100]);
    assert!(bitset.get(1));
    assert!(bitset.get(2));
    assert!(!bitset.get(3));
    bitset.set_to_value(1, false);
    bitset.set_to_value(7, true);
    assert_eq!(collect(&bitset), vec![2, 7, 100]);
    assert_eq!(bitset.as_slice()[0], (1u64 << 2) | (1u64 << 7));
}

#[test]
fn bitset_count_minimum_maximum() {
    let bitset = Bitset::of(&[1, 2, 3, 100]);
    assert_eq!(bitset.count(), 4);
    let mut bitset = Bitset::new();
    assert_eq!(bitset.minimum(), 0);
    assert_eq!(bitset.maximum(), 0);
    bitset.set(100);
    assert_eq!(bitset.minimum(), 100);
    assert_eq!(bitset.maximum(), 100);
    bitset.set(1000);
    assert_eq!(bitset.maximum(), 1000);
}

#[test]
fn bitset_combinations() {
    let a = Bitset::of(&[1, 2, 3, 100]);
    let b = Bitset::of(&[2, 3, 4, 5]);
    assert_eq!(a.union_count(&b), 6);
    assert_eq!(a.intersection_count(&b), 2);
    assert_eq!(a.difference_count(&b), 2);
    assert_eq!(a.symmetric_difference_count(&b), 4);
    assert!(!a.is_disjoint(&b));
    assert!(a.has_intersect(&b));
    let c = Bitset::of(&[4, 5, 6, 7]);
    assert!(a.is_disjoint(&c));
    assert!(!a.has_intersect(&c));
    assert!(a.is_superset(&Bitset::of(&[2, 3])));
    assert!(!a.is_superset(&c));
    assert!(Bitset::new().is_disjoint(&Bitset::new()));

    let mut u = a.clone();
    u.union_inplace(&b);
    assert_eq!(u.count(), 6);
    let mut i = a.clone();
    i.intersection_inplace(&b);
    assert_eq!(collect(&i), vec![2, 3]);
    assert_eq!(i.size_in_words(), a.size_in_words());
    let mut d = a.clone();
    d.difference_inplace(&b);
    assert_eq!(collect(&d), vec![1, 100]);
    let mut x = a.clone();
    x.symmetric_difference_inplace(&b);
    assert_eq!(collect(&x), vec![1, 4, 5, 100]);
    let mut grow = Bitset::of(&[1]);
    grow.union_inplace(&Bitset::of(&[200]));
    assert_eq!(grow.size_in_words(), 4);
    assert_eq!(collect(&grow), vec![1, 200]);
}

#[test]
fn bitset_from_bitmap() {
    let bitmap = Bitmap::from_range(RangeInclusive::from(0..100));
    let bitset = bitmap.to_bitset().unwrap();
    assert_eq!(bitset.count(), 100);
    let bitset = Bitmap::of(&[5, 70_000]).to_bitset().unwrap();
    assert_eq!(collect(&bitset), vec![5, 70_000]);
    assert_eq!(Bitset::default().count(), 0);
}

#[test]
fn bitset_reads_set_bits_in_batches() {
    let bitset = Bitset::of(&[1, 5, 64, 200, 201]);
    let mut it = bitset.iter();
    let mut buffer = [0usize; 2];
    assert_eq!(it.next_set_bits(&mut buffer), 2);
    assert_eq!(buffer, [1, 5]);
    assert_eq!(it.next_set_bits(&mut buffer), 2);
    assert_eq!(buffer, [64, 200]);
    assert_eq!(it.next_set_bits(&mut buffer), 1);
    assert_eq!(buffer[0], 201);
    assert_eq!(it.next_set_bits(&mut buffer), 0);
    let mut wide = [7usize; 8];
    let mut again = bitset.iter();
    assert_eq!(again.next(), Some(1));
    assert_eq!(again.next_set_bits(&mut wide), 4);
    assert_eq!(wide, [5, 64, 200, 201, 7, 7, 7, 7]);
}

#[test]
fn bitset_capacity_covers_its_size() {
    let bitset = Bitset::with_size(1000);
    assert!(bitset.capacity() >= bitset.size_in_bits());
    assert!(Bitset::new().capacity() >= 0);
}
