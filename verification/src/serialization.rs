//! Serialization formats of bitmaps: the portable format shared with other
//! roaring implementations, and the native format, which stores small bitmaps
//! as a plain array of values.
use crate::bitmap::{strictly_increasing, Bitmap};
use crate::bytes::{extends, lemma_extends_reads, lemma_extends_skip, le32, le32_bytes, push_bytes, read_u32_le, u32_le_bytes};
use crate::encode::{at, lemma_at_concat, lemma_at_le32, lemma_portable_len, lemma_portable_prefix, lemma_portable_roundtrip, portable_bytes, portable_serialize_into};
use crate::portable::{portable_decode, portable_deserialize};
use vstd::prelude::*;

verus! {

/// Marks the formats defined by this crate.
pub trait Sealed {

}

/// The `Portable` format is meant to be compatible with other roaring bitmap
/// libraries, such as Go or Java.
///
/// It's defined here: <https://github.com/RoaringBitmap/RoaringFormatSpec>
pub struct Portable;

/// The `Native` format can sometimes be more space efficient than [`Portable`],
/// e.g. when the data is sparse. It's not compatible with Java and Go
/// implementations. Use [`Portable`] for that purpose.
pub struct Native;

/// The `Frozen` format lays containers out as they sit in memory, so that a
/// bitmap can be used in place. This crate neither writes nor reads it; the
/// type names the format and its alignment requirement.
pub struct Frozen;

impl Frozen {
    /// The frozen format requires bitmaps are aligned to 32 bytes.
    pub const REQUIRED_ALIGNMENT: usize = 32;
}

/// Formats that need no alignment of the serialized data.
pub trait NoAlign: Sealed {

}

/// The `JvmLegacy` format is meant to be compatible with the Java
/// implementation of `Roaring64NavigableMap`. It is used only for treemaps,
/// not bitmaps.
pub struct JvmLegacy;

impl Sealed for Portable {

}

impl Sealed for Native {

}

impl Sealed for Frozen {

}

impl Sealed for JvmLegacy {

}

impl NoAlign for Portable {

}

impl NoAlign for Native {

}

/// A format in which bitmaps can be written.
pub trait Serializer: Sealed {
    /// The bytes written for a bitmap holding the values `s`, which keeps run
    /// compression when `runs_kept`.
    spec fn serialized(s: Set<u32>, runs_kept: bool) -> Seq<u8>;

    /// Appends the serialization of `bitmap` to `dst`.
    fn serialize_into_vec(bitmap: &Bitmap, dst: &mut Vec<u8>)
        ensures
            final(dst)@ == old(dst)@ + Self::serialized(bitmap@, bitmap.keeps_runs()),
    ;

    /// The number of bytes needed to serialize `bitmap`.
    fn get_serialized_size_in_bytes(bitmap: &Bitmap) -> (r: usize)
        ensures
            r == Self::serialized(bitmap@, bitmap.keeps_runs()).len(),
    ;

    /// Writes the serialization of `bitmap` at the start of `dst`, and
    /// returns its length; `None` when `dst` is too short for it.
    fn try_serialize_into(bitmap: &Bitmap, dst: &mut [u8]) -> (r: Option<usize>)
        ensures
            Self::serialized(bitmap@, bitmap.keeps_runs()).len() <= old(dst)@.len() <==> r is Some,
            r is None ==> final(dst)@ == old(dst)@,
            r matches Some(n) ==> n == Self::serialized(bitmap@, bitmap.keeps_runs()).len() && final(dst)@
                == Self::serialized(bitmap@, bitmap.keeps_runs()) + old(dst)@.skip(n as int),
    ;
}

/// A format from which bitmaps can be read.
pub trait Deserializer: Sealed {
    /// The values held by a valid serialization at the start of `b`, and the
    /// number of bytes it takes; `None` when `b` does not start with one.
    spec fn deserialized(b: Seq<u8>) -> Option<(Set<u32>, int)>;

    /// Reads a bitmap from the start of `buffer`; `None` when the buffer does
    /// not start with a valid serialization.
    fn try_deserialize(buffer: &[u8]) -> (r: Option<Bitmap>)
        ensures
            match Self::deserialized(buffer@) {
                None => r is None,
                Some((s, _)) => r matches Some(bm) && bm@ == s,
            },
    ;

    /// Reads a bitmap from the start of `buffer`, with the number of bytes it
    /// takes.
    fn try_deserialize_with_len(buffer: &[u8]) -> (r: Option<(Bitmap, usize)>)
        ensures
            match Self::deserialized(buffer@) {
                None => r is None,
                Some((s, n)) => r matches Some((bm, m)) && bm@ == s && m == n,
            },
            r matches Some((_, m)) ==> m <= buffer@.len(),
    ;
}

impl Serializer for Portable {
    open spec fn serialized(s: Set<u32>, runs_kept: bool) -> Seq<u8> {
        portable_bytes(s, runs_kept)
    }

    fn serialize_into_vec(bitmap: &Bitmap, dst: &mut Vec<u8>) {
        portable_serialize_into(bitmap, dst);
    }

    fn get_serialized_size_in_bytes(bitmap: &Bitmap) -> (r: usize) {
        let mut buf: Vec<u8> = Vec::new();
        portable_serialize_into(bitmap, &mut buf);
        assert(buf@ =~= portable_bytes(bitmap@, bitmap.keeps_runs()));
        buf.len()
    }
    fn try_serialize_into(bitmap: &Bitmap, dst: &mut [u8]) -> (r: Option<usize>) {
        let mut buf: Vec<u8> = Vec::new();
        portable_serialize_into(bitmap, &mut buf);
        assert(buf@ =~= portable_bytes(bitmap@, bitmap.keeps_runs()));
        if buf.len() > dst.len() {
            return None;
        }
        crate::bitmap64::copy_into(&buf, dst);
        Some(buf.len())
    }
}

impl Deserializer for Portable {
    open spec fn deserialized(b: Seq<u8>) -> Option<(Set<u32>, int)> {
        portable_decode(b)
    }

    fn try_deserialize(buffer: &[u8]) -> (r: Option<Bitmap>) {
        match portable_deserialize(buffer) {
            None => None,
            Some((bm, _)) => Some(bm),
        }
    }

    fn try_deserialize_with_len(buffer: &[u8]) -> (r: Option<(Bitmap, usize)>) {
        portable_deserialize(buffer)
    }
}

/// Reading back the portable serialization of any set gives the set, and
/// takes all of its bytes, with or without run compression kept.
pub proof fn lemma_portable_format_roundtrip(s: Set<u32>, runs_kept: bool)
    ensures
        <Portable as Deserializer>::deserialized(<Portable as Serializer>::serialized(s, runs_kept)) == Some(
            (s, <Portable as Serializer>::serialized(s, runs_kept).len() as int),
        ),
{
    lemma_portable_roundtrip(s, runs_kept);
}

// ---------------------------------------------------------------------------
// The native format
// ---------------------------------------------------------------------------

/// First byte of a native serialization that stores the values as an array.
pub const SERIALIZATION_ARRAY_UINT32: u8 = 1;

/// First byte of a native serialization that holds a portable one.
pub const SERIALIZATION_CONTAINER: u8 = 2;

/// The values of a set in increasing order.
pub open spec fn sorted_values(s: Set<u32>) -> Seq<u32> {
    choose|q: Seq<u32>| strictly_increasing(q) && forall|x: u32| #[trigger] q.contains(x) == s.contains(x)
}

/// The four little-endian bytes of each value, in order.
pub open spec fn values_bytes(q: Seq<u32>) -> Seq<u8>
    decreases q.len(),
{
    if q.len() == 0 {
        seq![]
    } else {
        values_bytes(q.drop_last()) + le32_bytes(q.last() as int)
    }
}

/// The native serialization of a set: the portable one behind a marker byte
/// when that is smaller than the plain array of values, else the array.
pub open spec fn native_bytes(s: Set<u32>, runs_kept: bool) -> Seq<u8> {
    let p = portable_bytes(s, runs_kept);
    if p.len() < 4 + 4 * s.len() {
        seq![SERIALIZATION_CONTAINER] + p
    } else {
        seq![SERIALIZATION_ARRAY_UINT32] + le32_bytes(s.len() as int) + values_bytes(sorted_values(s))
    }
}

/// The values of the `card` little-endian `u32` stored from `p` on.
pub open spec fn array_set(b: Seq<u8>, p: int, card: int) -> Set<u32> {
    Set::new(|x: u32| exists|i: int| 0 <= i < card && #[trigger] le32(b, p + 4 * i) == x)
}

/// What a native serialization at the start of `b` holds and how many bytes
/// it takes, or `None` when `b` does not start with a valid one.
pub open spec fn native_decode(b: Seq<u8>) -> Option<(Set<u32>, int)> {
    if b.len() < 1 {
        None
    } else if b[0] == SERIALIZATION_ARRAY_UINT32 {
        if b.len() < 5 {
            None
        } else {
            let card = le32(b, 1);
            if 5 + 4 * card > b.len() {
                None
            } else {
                Some((array_set(b, 5, card), 5 + 4 * card))
            }
        }
    } else if b[0] == SERIALIZATION_CONTAINER {
        match portable_decode(b.skip(1)) {
            None => None,
            Some((s, n)) => Some((s, n + 1)),
        }
    } else {
        None
    }
}

/// A valid native serialization at the start of `b` lies within `b`, and
/// reads the same at the start of any longer sequence that starts with `b`.
pub proof fn lemma_native_decode_extends(b: Seq<u8>, b2: Seq<u8>)
    requires
        extends(b, b2),
        native_decode(b) is Some,
    ensures
        native_decode(b2) == native_decode(b),
        (native_decode(b)->0).1 <= b.len(),
{
    assert(b2[0] == b[0]);
    if b[0] == SERIALIZATION_ARRAY_UINT32 {
        lemma_extends_reads(b, b2, 1);
        let card = le32(b, 1);
        assert forall|i: int|
            #![trigger le32(b, 5 + 4 * i)]
            #![trigger le32(b2, 5 + 4 * i)]
            0 <= i < card implies le32(b2, 5 + 4 * i) == le32(b, 5 + 4 * i) by {
            lemma_extends_reads(b, b2, 5 + 4 * i);
        }
        assert(array_set(b2, 5, card) =~= array_set(b, 5, card));
    } else {
        lemma_extends_skip(b, b2, 1);
        crate::portable::lemma_portable_decode_extends(b.skip(1), b2.skip(1));
    }
}

proof fn lemma_values_bytes_len(q: Seq<u32>)
    ensures
        values_bytes(q).len() == 4 * q.len(),
    decreases q.len(),
{
    if q.len() > 0 {
        lemma_values_bytes_len(q.drop_last());
    }
}

/// Where `values_bytes(q)` is stored at `p`, value `i` reads back.
proof fn lemma_values_bytes_read(b: Seq<u8>, p: int, q: Seq<u32>, i: int)
    requires
        at(b, p, values_bytes(q)),
        0 <= i < q.len(),
    ensures
        le32(b, p + 4 * i) == q[i],
    decreases q.len(),
{
    let t = q.drop_last();
    lemma_values_bytes_len(t);
    lemma_at_concat(b, p, values_bytes(t), le32_bytes(q.last() as int));
    if i < t.len() {
        lemma_values_bytes_read(b, p, t, i);
        assert(t[i] == q[i]);
    } else {
        lemma_at_le32(b, p + 4 * i, q.last() as int);
    }
}

/// The increasing sequence of a bitmap's values is the one `to_vec` returns.
pub(crate) proof fn lemma_sorted_values(s: Set<u32>, q: Seq<u32>)
    requires
        strictly_increasing(q),
        forall|x: u32| #[trigger] q.contains(x) == s.contains(x),
    ensures
        sorted_values(s) == q,
{
    let c = sorted_values(s);
    assert(strictly_increasing(c) && forall|x: u32| #[trigger] c.contains(x) == s.contains(x));
    crate::encode::lemma_increasing_unique(c, q);
}

/// The increasing sequence of the values of a set has one entry per value.
pub(crate) proof fn lemma_sorted_len(s: Set<u32>, q: Seq<u32>)
    requires
        strictly_increasing(q),
        forall|x: u32| #[trigger] q.contains(x) == s.contains(x),
    ensures
        q.len() == s.len(),
{
    assert(q.no_duplicates()) by {
        assert forall|i: int, j: int| 0 <= i < q.len() && 0 <= j < q.len() && i != j implies q[i] != q[j] by {
            if i < j {
                assert(q[i] < q[j]);
            } else {
                assert(q[j] < q[i]);
            }
        }
    }
    q.unique_seq_to_set();
    assert(q.to_set() =~= s);
}

/// Writes the native serialization of a bitmap.
fn native_serialize_into(b: &Bitmap, out: &mut Vec<u8>)
    ensures
        final(out)@ == old(out)@ + native_bytes(b@, b.keeps_runs()),
{
    let mut p: Vec<u8> = Vec::new();
    portable_serialize_into(b, &mut p);
    let card = b.cardinality();
    proof {
        lemma_portable_len(b@, b.keeps_runs());
        crate::bitmap::lemma_u32_set_len(b@);
        assert(p@ =~= portable_bytes(b@, b.keeps_runs()));
    }
    if (p.len() as u64) < 4 + 4 * card {
        out.push(SERIALIZATION_CONTAINER);
        let ghost mid = out@;
        push_bytes(out, p.as_slice());
        assert(out@ =~= old(out)@ + native_bytes(b@, b.keeps_runs()));
    } else {
        let values = b.to_vec();
        proof {
            lemma_sorted_values(b@, values@);
            lemma_sorted_len(b@, values@);
        }
        out.push(SERIALIZATION_ARRAY_UINT32);
        let w = u32_le_bytes(card as u32);
        push_bytes(out, &w);
        let ghost start = out@;
        let mut i: usize = 0;
        proof {
            assert(values@.take(0) =~= Seq::<u32>::empty());
            assert(out@ =~= start + values_bytes(values@.take(0)));
        }
        while i < values.len()
            invariant
                i <= values@.len(),
                out@ == start + values_bytes(values@.take(i as int)),
            decreases values@.len() - i,
        {
            let w = u32_le_bytes(values[i]);
            push_bytes(out, &w);
            proof {
                let t = values@.take(i + 1);
                assert(t.drop_last() =~= values@.take(i as int));
                assert(t.last() == values@[i as int]);
                assert(out@ =~= start + values_bytes(t));
            }
            i = i + 1;
        }
        proof {
            assert(values@.take(values@.len() as int) == values@);
            assert(out@ =~= old(out)@ + native_bytes(b@, b.keeps_runs()));
        }
    }
}

/// Reads a bitmap in the native format from the start of `buf`, with the
/// number of bytes it takes; `None` when `buf` does not start with a valid
/// serialization.
fn native_deserialize(buf: &[u8]) -> (r: Option<(Bitmap, usize)>)
    ensures
        match native_decode(buf@) {
            None => r is None,
            Some((s, n)) => r matches Some((bm, m)) && bm@ == s && m == n,
        },
        r matches Some((_, m)) ==> m <= buf@.len(),
{
    let len = buf.len();
    if len < 1 {
        return None;
    }
    if buf[0] == SERIALIZATION_ARRAY_UINT32 {
        if len < 5 {
            return None;
        }
        let card = read_u32_le(buf, 1) as usize;
        if (len - 5) / 4 < card {
            return None;
        }
        let mut values: Vec<u32> = Vec::new();
        let mut i: usize = 0;
        while i < card
            invariant
                i <= card,
                5 + 4 * card <= len,
                len == buf@.len(),
                values@.len() == i,
                forall|j: int| 0 <= j < i ==> #[trigger] values@[j] == le32(buf@, 5 + 4 * j),
            decreases card - i,
        {
            values.push(read_u32_le(buf, 5 + 4 * i));
            i = i + 1;
        }
        let bm = Bitmap::of(values.as_slice());
        proof {
            assert forall|x: u32| #[trigger] values@.to_set().contains(x) == array_set(buf@, 5, card as int).contains(x) by {
                if values@.to_set().contains(x) {
                    let j = choose|j: int| 0 <= j < values@.len() && values@[j] == x;
                    assert(le32(buf@, 5 + 4 * j) == x);
                }
                if array_set(buf@, 5, card as int).contains(x) {
                    let j = choose|j: int| 0 <= j < card && #[trigger] le32(buf@, 5 + 4 * j) == x;
                    assert(values@[j] == x);
                    assert(values@.contains(x));
                }
            }
            assert(values@.to_set() =~= array_set(buf@, 5, card as int));
        }
        Some((bm, 5 + 4 * card))
    } else if buf[0] == SERIALIZATION_CONTAINER {
        let rest = vstd::slice::slice_subrange(buf, 1, len);
        assert(rest@ =~= buf@.skip(1));
        match portable_deserialize(rest) {
            None => None,
            Some((bm, n)) => Some((bm, n + 1)),
        }
    } else {
        None
    }
}

/// Reading back the native serialization of any set gives the set, and takes
/// all of its bytes.
pub proof fn lemma_native_roundtrip(s: Set<u32>, runs_kept: bool)
    ensures
        native_decode(native_bytes(s, runs_kept)) == Some((s, native_bytes(s, runs_kept).len() as int)),
{
    lemma_native_prefix(s, runs_kept, native_bytes(s, runs_kept));
}

/// Whatever follows it, a native serialization at the start of `b` reads back
/// as its set and takes exactly its bytes.
pub proof fn lemma_native_prefix(s: Set<u32>, runs_kept: bool, b: Seq<u8>)
    requires
        at(b, 0, native_bytes(s, runs_kept)),
    ensures
        native_decode(b) == Some((s, native_bytes(s, runs_kept).len() as int)),
{
    let p = portable_bytes(s, runs_kept);
    lemma_portable_len(s, runs_kept);
    crate::bitmap::lemma_u32_set_len(s);
    if p.len() < 4 + 4 * s.len() {
        lemma_at_concat(b, 0, seq![SERIALIZATION_CONTAINER], p);
        assert(b[0int + 0int] == seq![SERIALIZATION_CONTAINER][0int]);
        let rest = b.skip(1);
        assert forall|i: int| 0 <= i < p.len() implies #[trigger] rest[0 + i] == p[i] by {
            assert(rest[i] == b[1 + i]);
        }
        lemma_portable_prefix(s, runs_kept, rest);
    } else {
        lemma_native_array_prefix(s, b);
    }
}

/// The array form of the native serialization reads back.
proof fn lemma_native_array_prefix(s: Set<u32>, b: Seq<u8>)
    requires
        s.len() < 0x1_0000_0000,
        at(b, 0, seq![SERIALIZATION_ARRAY_UINT32] + le32_bytes(s.len() as int) + values_bytes(sorted_values(s))),
    ensures
        native_decode(b) == Some((s, 5 + 4 * s.len() as int)),
        values_bytes(sorted_values(s)).len() == 4 * s.len(),
{
    let q = sorted_values(s);
    lemma_sorted_exists(s);
    lemma_sorted_len(s, q);
    lemma_values_bytes_len(q);
    let card = s.len() as int;
    let w = le32_bytes(card);
    lemma_at_concat(b, 0, seq![SERIALIZATION_ARRAY_UINT32] + w, values_bytes(q));
    lemma_at_concat(b, 0, seq![SERIALIZATION_ARRAY_UINT32], w);
    assert(b[0int + 0int] == seq![SERIALIZATION_ARRAY_UINT32][0int]);
    lemma_at_le32(b, 1, card);
    assert forall|x: u32| #[trigger] array_set(b, 5, card).contains(x) == s.contains(x) by {
        if array_set(b, 5, card).contains(x) {
            let i = choose|i: int| 0 <= i < card && #[trigger] le32(b, 5 + 4 * i) == x;
            lemma_values_bytes_read(b, 5, q, i);
            assert(q.contains(q[i]));
        }
        if s.contains(x) {
            assert(q.contains(x));
            let i = choose|i: int| 0 <= i < q.len() && q[i] == x;
            lemma_values_bytes_read(b, 5, q, i);
        }
    }
    assert(array_set(b, 5, card) =~= s);
}

/// The values of `s` below `n`, in increasing order.
proof fn increasing_below(s: Set<u32>, n: int) -> (q: Seq<u32>)
    requires
        0 <= n <= 0x1_0000_0000,
    ensures
        strictly_increasing(q),
        forall|x: u32| #[trigger] q.contains(x) == (s.contains(x) && x < n),
        q.len() > 0 ==> q.last() < n,
    decreases n,
{
    if n == 0 {
        Seq::empty()
    } else {
        let q0 = increasing_below(s, n - 1);
        let v = (n - 1) as u32;
        if s.contains(v) {
            let q = q0.push(v);
            assert forall|i: int, j: int| 0 <= i < j < q.len() implies q[i] < q[j] by {
                if j == q0.len() {
                    assert(q0.contains(q0[i]));
                } else {
                    assert(q0[i] < q0[j]);
                }
            }
            assert forall|x: u32| #[trigger] q.contains(x) == (s.contains(x) && x < n) by {
                if q.contains(x) {
                    let i = choose|i: int| 0 <= i < q.len() && q[i] == x;
                    if i < q0.len() {
                        assert(q0.contains(x));
                    }
                }
                if s.contains(x) && x < n {
                    if x < v {
                        assert(q0.contains(x));
                        let i = choose|i: int| 0 <= i < q0.len() && q0[i] == x;
                        assert(q[i] == x);
                    } else {
                        assert(q[q0.len() as int] == x);
                    }
                }
            }
            q
        } else {
            q0
        }
    }
}

/// Every set has an increasing sequence of its values.
pub(crate) proof fn lemma_sorted_exists(s: Set<u32>)
    ensures
        strictly_increasing(sorted_values(s)),
        forall|x: u32| #[trigger] sorted_values(s).contains(x) == s.contains(x),
{
    let q = increasing_below(s, 0x1_0000_0000);
    assert(strictly_increasing(q) && forall|x: u32| #[trigger] q.contains(x) == s.contains(x));
}

impl Serializer for Native {
    open spec fn serialized(s: Set<u32>, runs_kept: bool) -> Seq<u8> {
        native_bytes(s, runs_kept)
    }

    fn serialize_into_vec(bitmap: &Bitmap, dst: &mut Vec<u8>) {
        native_serialize_into(bitmap, dst);
    }

    fn get_serialized_size_in_bytes(bitmap: &Bitmap) -> (r: usize) {
        let mut buf: Vec<u8> = Vec::new();
        native_serialize_into(bitmap, &mut buf);
        assert(buf@ =~= native_bytes(bitmap@, bitmap.keeps_runs()));
        buf.len()
    }
    fn try_serialize_into(bitmap: &Bitmap, dst: &mut [u8]) -> (r: Option<usize>) {
        let mut buf: Vec<u8> = Vec::new();
        native_serialize_into(bitmap, &mut buf);
        assert(buf@ =~= native_bytes(bitmap@, bitmap.keeps_runs()));
        if buf.len() > dst.len() {
            return None;
        }
        crate::bitmap64::copy_into(&buf, dst);
        Some(buf.len())
    }
}

impl Deserializer for Native {
    open spec fn deserialized(b: Seq<u8>) -> Option<(Set<u32>, int)> {
        native_decode(b)
    }

    fn try_deserialize(buffer: &[u8]) -> (r: Option<Bitmap>) {
        match native_deserialize(buffer) {
            None => None,
            Some((bm, _)) => Some(bm),
        }
    }

    fn try_deserialize_with_len(buffer: &[u8]) -> (r: Option<(Bitmap, usize)>) {
        native_deserialize(buffer)
    }
}

/// Reading back the native serialization of any set gives the set, and takes
/// all of its bytes.
pub proof fn lemma_native_format_roundtrip(s: Set<u32>, runs_kept: bool)
    ensures
        <Native as Deserializer>::deserialized(<Native as Serializer>::serialized(s, runs_kept)) == Some(
            (s, <Native as Serializer>::serialized(s, runs_kept).len() as int),
        ),
{
    lemma_native_roundtrip(s, runs_kept);
}

/// No strict prefix of the portable serialization of a bitmap reads back:
/// every such truncated buffer is rejected.
pub proof fn lemma_portable_prefix_rejected(s: Set<u32>, runs_kept: bool, j: int)
    requires
        0 <= j < <Portable as Serializer>::serialized(s, runs_kept).len(),
    ensures
        <Portable as Deserializer>::deserialized(<Portable as Serializer>::serialized(s, runs_kept).take(j)) is None,
{
    let b = <Portable as Serializer>::serialized(s, runs_kept);
    lemma_portable_roundtrip(s, runs_kept);
    if portable_decode(b.take(j)) is Some {
        assert(extends(b.take(j), b));
        crate::portable::lemma_portable_decode_extends(b.take(j), b);
    }
}

/// No strict prefix of the native serialization of a bitmap reads back:
/// every such truncated buffer is rejected.
pub proof fn lemma_native_prefix_rejected(s: Set<u32>, runs_kept: bool, j: int)
    requires
        0 <= j < <Native as Serializer>::serialized(s, runs_kept).len(),
    ensures
        <Native as Deserializer>::deserialized(<Native as Serializer>::serialized(s, runs_kept).take(j)) is None,
{
    let b = <Native as Serializer>::serialized(s, runs_kept);
    lemma_native_roundtrip(s, runs_kept);
    if native_decode(b.take(j)) is Some {
        assert(extends(b.take(j), b));
        lemma_native_decode_extends(b.take(j), b);
    }
}

impl Bitmap {
    /// Computes the serialized size in bytes of the Bitmap in format `S`.
    pub fn get_serialized_size_in_bytes<S: Serializer>(&self) -> (r: usize)
        ensures
            r == S::serialized(self@, self.keeps_runs()).len(),
    {
        S::get_serialized_size_in_bytes(self)
    }

    /// Serializes a bitmap to a vector of bytes in format `S`.
    pub fn serialize<S: Serializer>(&self) -> (r: Vec<u8>)
        ensures
            r@ == S::serialized(self@, self.keeps_runs()),
    {
        let mut dst: Vec<u8> = Vec::new();
        S::serialize_into_vec(self, &mut dst);
        assert(dst@ =~= S::serialized(self@, self.keeps_runs()));
        dst
    }

    /// Serializes a bitmap in format `S` after the existing contents of `dst`,
    /// and returns the added bytes.
    pub fn serialize_into_vec<'a, S: Serializer>(&self, dst: &'a mut Vec<u8>) -> (r: &'a [u8])
        ensures
            final(dst)@ == old(dst)@ + S::serialized(self@, self.keeps_runs()),
            r@ == S::serialized(self@, self.keeps_runs()),
    {
        let start = dst.len();
        S::serialize_into_vec(self, dst);
        let all: &'a [u8] = dst.as_slice();
        let end = all.len();
        let r = vstd::slice::slice_subrange(all, start, end);
        assert(r@ =~= S::serialized(self@, self.keeps_runs()));
        r
    }

    /// Serializes a bitmap in format `S` after the existing contents of `dst`,
    /// and returns the added bytes.
    pub fn serialize_into<'a, S: Serializer>(&self, dst: &'a mut Vec<u8>) -> (r: &'a [u8])
        ensures
            final(dst)@ == old(dst)@ + S::serialized(self@, self.keeps_runs()),
            r@ == S::serialized(self@, self.keeps_runs()),
    {
        self.serialize_into_vec::<S>(dst)
    }

    /// Writes the bitmap in format `S` at the start of `dst`, and returns the
    /// number of bytes written; `None` when `dst` is too short.
    pub fn try_serialize_into<S: Serializer>(&self, dst: &mut [u8]) -> (r: Option<usize>)
        ensures
            S::serialized(self@, self.keeps_runs()).len() <= old(dst)@.len() <==> r is Some,
            r is None ==> final(dst)@ == old(dst)@,
            r matches Some(n) ==> n == S::serialized(self@, self.keeps_runs()).len() && final(dst)@ == S::serialized(
                self@,
                self.keeps_runs(),
            ) + old(dst)@.skip(n as int),
    {
        S::try_serialize_into(self, dst)
    }

    /// Reads a bitmap in format `D` from the start of `buffer`; `None` on
    /// invalid input.
    pub fn try_deserialize<D: Deserializer>(buffer: &[u8]) -> (r: Option<Self>)
        ensures
            match D::deserialized(buffer@) {
                None => r is None,
                Some((s, _)) => r matches Some(bm) && bm@ == s,
            },
    {
        D::try_deserialize(buffer)
    }

    /// Reads a bitmap in format `D` from the start of `buffer`; on invalid
    /// input, the empty bitmap.
    pub fn deserialize<D: Deserializer>(buffer: &[u8]) -> (r: Self)
        ensures
            r@ == match D::deserialized(buffer@) {
                None => Set::<u32>::empty(),
                Some((s, _)) => s,
            },
    {
        match D::try_deserialize(buffer) {
            Some(bm) => bm,
            None => Bitmap::new(),
        }
    }
}

} // verus!
