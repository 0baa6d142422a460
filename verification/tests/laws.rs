use croaring::{Bitmap, JvmLegacy, Native, Portable, RangeInclusive, Treemap};

fn sample() -> Bitmap {
    let mut b = Bitmap::of(&[3, 70_000, 4_000_000_000]);
    b.add_range(RangeInclusive { start: 100, last: 200 });
    b
}

#[test]
fn law_read_after_write() {
    let mut b = sample();
    b.add(42);
    assert!(b.contains(42));
    assert!(b.contains(3));
    b.remove(3);
    assert!(!b.contains(3));
    assert!(b.contains(42));
}

#[test]
fn law_self_combination() {
    let b = sample();
    assert!(b.and(&b) == b);
    assert!(b.or(&b) == b);
    assert!(b.xor(&b).is_empty());
    assert!(b.andnot(&b).is_empty());
    assert!(b.is_subset(&b));
    assert!(!b.is_strict_subset(&b));
}

#[test]
fn law_rank_is_position_plus_one() {
    let b = sample();
    for v in b.to_vec() {
        let pos = b.position(v).unwrap();
        assert_eq!(b.rank(v), u64::from(pos) + 1);
        assert_eq!(b.select(pos), Some(v));
    }
}

#[test]
fn law_cursor_steps_back() {
    let b = sample();
    let mut cursor = b.cursor();
    cursor.reset_at_or_after(150);
    let here = cursor.current();
    cursor.move_next();
    cursor.move_prev();
    assert_eq!(cursor.current(), here);
    let mut last = b.cursor_to_last();
    let top = last.current();
    last.move_next();
    assert_eq!(last.current(), None);
    last.move_prev();
    assert_eq!(last.current(), top);
}

#[test]
fn law_bitmap_serialization_roundtrip() {
    let b = sample();
    for bytes in [b.serialize::<Portable>(), b.serialize::<Native>()] {
        assert!(!bytes.is_empty());
    }
    let p = b.serialize::<Portable>();
    assert!(Bitmap::try_deserialize::<Portable>(&p).unwrap() == b);
    let n = b.serialize::<Native>();
    assert!(Bitmap::try_deserialize::<Native>(&n).unwrap() == b);
    let mut trailing = p.clone();
    trailing.extend([1, 2, 3]);
    assert!(Bitmap::try_deserialize::<Portable>(&trailing).unwrap() == b);
}

#[test]
fn law_treemap_serialization_roundtrip() {
    let t = Treemap::of(&[5, 1 << 33, u64::MAX - 1]);
    let p = t.serialize::<Portable>();
    let (back, used) = <Portable as croaring::treemap_serialization::Deserializer>::try_deserialize(&p).unwrap();
    assert!(back == t);
    assert_eq!(used, p.len());
    let j = t.serialize::<JvmLegacy>();
    assert!(Treemap::try_deserialize::<JvmLegacy>(&j).unwrap() == t);
    let n = t.serialize::<Native>();
    assert!(Treemap::try_deserialize::<Native>(&n).unwrap() == t);
}

#[test]
fn law_bitmap_truncated_serializations_are_rejected() {
    let b = sample();
    let p = b.serialize::<Portable>();
    let n = b.serialize::<Native>();
    for cut in 0..p.len() {
        assert!(Bitmap::try_deserialize::<Portable>(&p[..cut]).is_none());
    }
    for cut in 0..n.len() {
        assert!(Bitmap::try_deserialize::<Native>(&n[..cut]).is_none());
    }
    let small = Bitmap::of(&[1, 2, 3]);
    let ns = small.serialize::<Native>();
    for cut in 0..ns.len() {
        assert!(Bitmap::try_deserialize::<Native>(&ns[..cut]).is_none());
    }
}

#[test]
fn law_treemap_truncated_serializations_are_rejected() {
    let mut t = Treemap::of(&[5, 1 << 33, u64::MAX - 1]);
    t.add_range(croaring::RangeInclusive { start: 1000, last: 5000 });
    let p = t.serialize::<Portable>();
    let j = t.serialize::<JvmLegacy>();
    let n = t.serialize::<Native>();
    for cut in 0..p.len() {
        assert!(Treemap::try_deserialize::<Portable>(&p[..cut]).is_none());
    }
    for cut in 0..j.len() {
        assert!(Treemap::try_deserialize::<JvmLegacy>(&j[..cut]).is_none());
    }
    for cut in 0..n.len() {
        assert!(Treemap::try_deserialize::<Native>(&n[..cut]).is_none());
    }
    assert!(Treemap::try_deserialize::<Portable>(&p).unwrap() == t);
}

#[test]
fn law_rank_is_position_plus_one_64() {
    let bitmap = croaring::Bitmap64::from_range(croaring::RangeInclusive { start: 5, last: 9 });
    for v in 5..10u64 {
        assert_eq!(bitmap.rank(v), bitmap.position(v).unwrap() + 1);
        assert_eq!(bitmap.select(bitmap.position(v).unwrap()), Some(v));
    }
}

#[test]
fn law_cursor64_next_then_prev_returns() {
    let bitmap = croaring::Bitmap64::of(&[1, 1 << 33, u64::MAX]);
    let mut cursor = bitmap.cursor();
    cursor.reset_at_or_after(1 << 33);
    assert_eq!(cursor.next(), Some(u64::MAX));
    assert_eq!(cursor.prev(), Some(1 << 33));
    assert_eq!(cursor.prev(), Some(1));
    assert_eq!(cursor.next(), Some(1 << 33));
}
