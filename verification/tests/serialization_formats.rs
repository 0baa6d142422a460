use croaring::legacy_serialization::{JvmSerializer, NativeSerializer};
use croaring::treemap_serialization::OffsetTrackingWriter;
use croaring::{Bitmap, JvmLegacy, Native, Portable, RangeInclusive, Treemap};

#[test]
fn portable_bytes_of_a_small_bitmap() {
    let mut bitmap = Bitmap::of(&[1, 2, 3, 4, 5]);
    let bytes = bitmap.serialize::<Portable>();
    assert_eq!(
        bytes,
        vec![0x3A, 0x30, 0, 0, 1, 0, 0, 0, 0, 0, 4, 0, 16, 0, 0, 0, 1, 0, 2, 0, 3, 0, 4, 0, 5, 0]
    );
    assert_eq!(bitmap.get_serialized_size_in_bytes::<Portable>(), 26);
    assert!(bitmap.run_optimize());
    let bytes = bitmap.serialize::<Portable>();
    assert_eq!(bytes, vec![0x3B, 0x30, 0, 0, 0x01, 0, 0, 4, 0, 1, 0, 1, 0, 4, 0]);
    assert_eq!(bitmap.get_serialized_size_in_bytes::<Portable>(), 15);
    assert!(Bitmap::try_deserialize::<Portable>(&bytes).unwrap() == bitmap);
    assert!(bitmap.remove_run_compression());
    assert_eq!(bitmap.get_serialized_size_in_bytes::<Portable>(), 26);
}

#[test]
fn portable_bitsets_for_dense_blocks() {
    let values: Vec<u32> = (0..10_000).map(|v| v * 2).collect();
    let mut bitmap = Bitmap::of(&values);
    let bytes = bitmap.serialize::<Portable>();
    assert_eq!(bytes.len(), 16 + 8192);
    assert_eq!(&bytes[0..16], &[0x3A, 0x30, 0, 0, 1, 0, 0, 0, 0, 0, 0x0F, 0x27, 16, 0, 0, 0]);
    assert_eq!(&bytes[16..18], &[0x55, 0x55]);
    assert!(!bitmap.run_optimize());
    assert_eq!(bitmap.serialize::<Portable>(), bytes);
    assert!(Bitmap::try_deserialize::<Portable>(&bytes).unwrap() == bitmap);
}

#[test]
fn portable_bytes_of_the_empty_bitmap() {
    let bytes = Bitmap::new().serialize::<Portable>();
    assert_eq!(bytes, vec![0x3A, 0x30, 0, 0, 0, 0, 0, 0]);
    assert!(Bitmap::try_deserialize::<Portable>(&bytes).unwrap().is_empty());
}

#[test]
fn portable_offsets_of_every_container_without_runs() {
    let mut bitmap = Bitmap::of(&[0, 0x1_0000, 0x2_0000, 0x3_0000, 0x4_0000]);
    let bytes = bitmap.serialize::<Portable>();
    assert_eq!(bytes.len(), 58);
    assert_eq!(&bytes[0..8], &[0x3A, 0x30, 0, 0, 5, 0, 0, 0]);
    assert_eq!(&bytes[8..28], &[0, 0, 0, 0, 1, 0, 0, 0, 2, 0, 0, 0, 3, 0, 0, 0, 4, 0, 0, 0]);
    assert_eq!(&bytes[28..48], &[48, 0, 0, 0, 50, 0, 0, 0, 52, 0, 0, 0, 54, 0, 0, 0, 56, 0, 0, 0]);
    assert_eq!(&bytes[48..58], &[0; 10]);
    assert!(!bitmap.run_optimize());
    assert_eq!(bitmap.serialize::<Portable>(), bytes);
    let back = Bitmap::try_deserialize::<Portable>(&bytes).unwrap();
    assert!(back == bitmap);
}

#[test]
fn portable_offsets_from_four_run_containers_on() {
    let mut bitmap = Bitmap::new();
    for key in 0..5u32 {
        bitmap.add_range(RangeInclusive::from((key << 16)..(key << 16) + 10));
    }
    assert!(!bitmap.run_optimize());
    let bytes = bitmap.serialize::<Portable>();
    assert_eq!(bytes.len(), 75);
    assert_eq!(&bytes[0..5], &[0x3B, 0x30, 4, 0, 0x1F]);
    assert_eq!(&bytes[5..25], &[0, 0, 9, 0, 1, 0, 9, 0, 2, 0, 9, 0, 3, 0, 9, 0, 4, 0, 9, 0]);
    assert_eq!(&bytes[25..45], &[45, 0, 0, 0, 51, 0, 0, 0, 57, 0, 0, 0, 63, 0, 0, 0, 69, 0, 0, 0]);
    assert_eq!(&bytes[45..51], &[1, 0, 0, 0, 9, 0]);
    let back = Bitmap::try_deserialize::<Portable>(&bytes).unwrap();
    assert!(back == bitmap);
}

#[test]
fn portable_reads_array_containers() {
    let bytes = [0x3A, 0x30, 0, 0, 1, 0, 0, 0, 0, 0, 2, 0, 16, 0, 0, 0, 1, 0, 5, 0, 9, 0];
    let bitmap = Bitmap::try_deserialize::<Portable>(&bytes).unwrap();
    assert_eq!(bitmap.to_vec(), [1, 5, 9]);
}

#[test]
fn portable_reads_bitset_containers() {
    let mut bytes = vec![0x3A, 0x30, 0, 0, 1, 0, 0, 0, 2, 0, 0xFF, 0xFF, 16, 0, 0, 0];
    bytes.extend(std::iter::repeat(0xFFu8).take(8192));
    let bitmap = Bitmap::try_deserialize::<Portable>(&bytes).unwrap();
    assert_eq!(bitmap.cardinality(), 0x1_0000);
    assert!(bitmap.contains(0x2_0000));
    assert!(bitmap.contains(0x2_FFFF));
    assert!(!bitmap.contains(0x1_FFFF));
    assert!(!bitmap.contains(0x3_0000));
}

#[test]
fn portable_rejects_invalid_input() {
    assert!(Bitmap::try_deserialize::<Portable>(&[3]).is_none());
    let bytes = Bitmap::of(&[1, 2, 3, 4, 5]).serialize::<Portable>();
    assert!(Bitmap::try_deserialize::<Portable>(&bytes[..bytes.len() - 1]).is_none());
    let repeated_key = [0x3A, 0x30, 0, 0, 2, 0, 0, 0, 0, 0, 0, 0, 0, 0, 0, 0, 24, 0, 0, 0, 26, 0, 0, 0, 1, 0, 2, 0];
    assert!(Bitmap::try_deserialize::<Portable>(&repeated_key).is_none());
    let unsorted_array = [0x3A, 0x30, 0, 0, 1, 0, 0, 0, 0, 0, 1, 0, 16, 0, 0, 0, 5, 0, 1, 0];
    assert!(Bitmap::try_deserialize::<Portable>(&unsorted_array).is_none());
    assert!(Bitmap::deserialize::<Portable>(&[1, 2, 3]).is_empty());
}

#[test]
fn native_stores_small_bitmaps_as_arrays() {
    let bitmap = Bitmap::of(&[7]);
    let bytes = bitmap.serialize::<Native>();
    assert_eq!(bytes, vec![1, 1, 0, 0, 0, 7, 0, 0, 0]);
    assert!(Bitmap::try_deserialize::<Native>(&bytes).unwrap() == bitmap);
}

#[test]
fn native_wraps_smaller_portable_serializations() {
    let bitmap = Bitmap::from_range(RangeInclusive::from(0..1000));
    let bytes = bitmap.serialize::<Native>();
    let portable = bitmap.serialize::<Portable>();
    assert_eq!(bytes[0], 2);
    assert_eq!(&bytes[1..], &portable[..]);
    assert_eq!(bitmap.get_serialized_size_in_bytes::<Native>(), portable.len() + 1);
    assert!(Bitmap::try_deserialize::<Native>(&bytes).unwrap() == bitmap);
}

#[test]
fn native_reads_unsorted_arrays_and_rejects_unknown_kinds() {
    let bytes = [1, 3, 0, 0, 0, 9, 0, 0, 0, 1, 0, 0, 0, 9, 0, 0, 0];
    assert_eq!(Bitmap::try_deserialize::<Native>(&bytes).unwrap().to_vec(), [1, 9]);
    assert!(Bitmap::try_deserialize::<Native>(&[9, 0, 0]).is_none());
    assert!(Bitmap::try_deserialize::<Native>(&[1, 2, 0, 0, 0, 1, 0, 0, 0]).is_none());
    assert!(Bitmap::try_deserialize::<Native>(&[]).is_none());
}

#[test]
fn serialize_into_appends() {
    let bitmap = Bitmap::of(&[1, 2, 3, 4, 5]);
    let mut buffer = vec![9u8, 9];
    let added = bitmap.serialize_into::<Portable>(&mut buffer).to_vec();
    assert_eq!(added.len(), 26);
    assert_eq!(&buffer[..2], &[9, 9]);
    assert_eq!(&buffer[2..], &added[..]);
}

fn two_key_treemap() -> Treemap {
    Treemap::of(&[1, (1u64 << 32) + 5])
}

#[test]
fn treemap_portable_bytes() {
    let treemap = two_key_treemap();
    let bytes = treemap.serialize::<Portable>();
    let mut expected = vec![2, 0, 0, 0, 0, 0, 0, 0, 0, 0, 0, 0];
    expected.extend([0x3A, 0x30, 0, 0, 1, 0, 0, 0, 0, 0, 0, 0, 16, 0, 0, 0, 1, 0]);
    expected.extend([1, 0, 0, 0]);
    expected.extend([0x3A, 0x30, 0, 0, 1, 0, 0, 0, 0, 0, 0, 0, 16, 0, 0, 0, 5, 0]);
    assert_eq!(bytes, expected);
    assert_eq!(treemap.get_serialized_size_in_bytes::<Portable>(), 52);
    let back = Treemap::try_deserialize::<Portable>(&bytes).unwrap();
    assert!(back == treemap);
}

#[test]
fn treemap_jvm_bytes() {
    let treemap = two_key_treemap();
    let bytes = treemap.serialize::<JvmLegacy>();
    assert_eq!(&bytes[0..9], &[0, 0, 0, 0, 2, 0, 0, 0, 0]);
    assert_eq!(&bytes[27..31], &[0, 0, 0, 1]);
    assert_eq!(bytes.len(), 49);
    let back = Treemap::try_deserialize::<JvmLegacy>(&bytes).unwrap();
    assert!(back == treemap);
}

#[test]
fn treemap_native_roundtrip() {
    let treemap = Treemap::of(&[0, 7, u64::MAX, 1 << 40]);
    let bytes = treemap.serialize::<Native>();
    let back = Treemap::try_deserialize::<Native>(&bytes).unwrap();
    assert!(back == treemap);
    assert_eq!(bytes.len(), treemap.get_serialized_size_in_bytes::<Native>());
}

#[test]
fn treemap_rejects_truncated_input() {
    let bytes = two_key_treemap().serialize::<Portable>();
    assert!(Treemap::try_deserialize::<Portable>(&bytes[..bytes.len() - 1]).is_none());
    assert!(Treemap::try_deserialize::<Portable>(&bytes[..7]).is_none());
    let jvm = two_key_treemap().serialize::<JvmLegacy>();
    assert!(Treemap::try_deserialize::<JvmLegacy>(&jvm[..4]).is_none());
}

#[test]
fn legacy_serializers_roundtrip() {
    let treemap = two_key_treemap();
    let native = NativeSerializer::serialize(&treemap).unwrap();
    assert_eq!(native, treemap.serialize::<Portable>());
    let back = <Treemap as NativeSerializer>::deserialize(&native).unwrap();
    assert!(back == treemap);
    let jvm = JvmSerializer::serialize(&treemap).unwrap();
    assert_eq!(jvm, treemap.serialize::<JvmLegacy>());
    let back = <Treemap as JvmSerializer>::deserialize(&jvm).unwrap();
    assert!(back == treemap);
    let bad = <Treemap as NativeSerializer>::deserialize(&[1, 2]);
    assert!(bad.is_err());
}

#[test]
fn offset_tracking_writer_counts() {
    let mut writer = OffsetTrackingWriter::new(Vec::<u8>::new());
    assert_eq!(writer.bytes_written, 0);
    writer.record(5);
    writer.record(3);
    assert_eq!(writer.bytes_written, 8);
}

#[test]
fn try_serialize_into_a_slice() {
    let bitmap = Bitmap::of(&[1, 2, 3, 4, 5]);
    let expected = bitmap.serialize::<Portable>();
    let mut small = [9u8; 4];
    assert_eq!(bitmap.try_serialize_into::<Portable>(&mut small), None);
    assert_eq!(small, [9u8; 4]);
    let mut big = [7u8; 40];
    assert_eq!(bitmap.try_serialize_into::<Portable>(&mut big), Some(expected.len()));
    assert_eq!(&big[..expected.len()], &expected[..]);
    assert!(big[expected.len()..].iter().all(|&b| b == 7));
    let native = bitmap.serialize::<croaring::Native>();
    let mut buf = vec![0u8; native.len()];
    assert_eq!(bitmap.try_serialize_into::<croaring::Native>(&mut buf), Some(native.len()));
    assert_eq!(buf, native);
}

#[test]
fn ranges_are_written_as_runs() {
    let mut bitmap = Bitmap::new();
    bitmap.add_range(RangeInclusive::from(100..1000));
    let bytes = bitmap.serialize::<Portable>();
    assert_eq!(&bytes[0..2], &[0x3B, 0x30]);
    assert_eq!(bytes.len(), 15);
    let mut empty_range = Bitmap::of(&[1, 2, 3]);
    empty_range.add_range(RangeInclusive { start: 5, last: 4 });
    assert_eq!(&empty_range.serialize::<Portable>()[0..2], &[0x3A, 0x30]);
}

#[test]
fn results_of_set_operations_keep_runs_from_their_operands() {
    let ranged = Bitmap::from_range(RangeInclusive::from(100..1000));
    let plain = Bitmap::of(&[5, 2000]);
    let union = ranged.or(&plain);
    assert_eq!(&union.serialize::<Portable>()[0..2], &[0x3B, 0x30]);
    let inter = ranged.and(&Bitmap::from_range(RangeInclusive::from(500..600)));
    assert_eq!(&inter.serialize::<Portable>()[0..2], &[0x3B, 0x30]);
    assert_eq!(inter.to_vec().len(), 100);
    let inter_plain = ranged.and(&Bitmap::of(&[100, 101, 102, 103]));
    assert_eq!(&inter_plain.serialize::<Portable>()[0..2], &[0x3A, 0x30]);
    let diff = ranged.andnot(&plain);
    assert_eq!(&diff.serialize::<Portable>()[0..2], &[0x3B, 0x30]);
    let shifted = ranged.add_offset(10);
    assert_eq!(&shifted.serialize::<Portable>()[0..2], &[0x3B, 0x30]);
    let stepped = Bitmap::from_range_with_step(croaring::Bound::Included(10), croaring::Bound::Excluded(500), 1);
    assert_eq!(&stepped.serialize::<Portable>()[0..2], &[0x3B, 0x30]);
    let every_other = Bitmap::from_range_with_step(croaring::Bound::Included(10), croaring::Bound::Excluded(500), 2);
    assert_eq!(&every_other.serialize::<Portable>()[0..2], &[0x3A, 0x30]);
}

#[test]
fn saved_bytes_counts_released_runs() {
    assert_eq!(croaring::bitmap::saved_bytes(10, 4), 48);
    assert_eq!(croaring::bitmap::saved_bytes(4, 10), 0);
    assert_eq!(croaring::bitmap::saved_bytes(7, 7), 0);
}
