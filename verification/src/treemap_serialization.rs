//! Serialization of treemaps: the number of bitmaps, then each key followed by
//! its bitmap. The portable and native formats write the count as a
//! little-endian `u64` and the keys as little-endian `u32`; the JVM legacy
//! format writes a sign byte, the count and the keys big-endian, and the
//! bitmaps in the portable format.
use crate::bitmap::Bitmap;
use crate::bytes::{be32, be32_bytes, extends, lemma_extends_reads, lemma_extends_skip, le32, le32_bytes, le64, le64_bytes, read_u32_be, read_u32_le, read_u64_le, u32_be_bytes, u32_le_bytes, u64_le_bytes, push_bytes};
use crate::encode::{at, lemma_at_concat};
use crate::portable::portable_decode;
use crate::serialization::native_decode;
use crate::serialization::{sorted_values, JvmLegacy, Native, Portable, Sealed};
use crate::treemap::Treemap;
use std::collections::BTreeMap;
use vstd::prelude::*;

verus! {

broadcast use vstd::std_specs::btree::group_btree_axioms;

/// The sets held by a map of bitmaps.
pub open spec fn map_views(m: Map<u32, Bitmap>) -> Map<u32, Set<u32>> {
    Map::new(|k: u32| m.contains_key(k), |k: u32| m[k]@)
}

/// The four bytes of a key, big-endian when `be`.
pub open spec fn key_bytes(k: u32, be: bool) -> Seq<u8> {
    if be {
        be32_bytes(k as int)
    } else {
        le32_bytes(k as int)
    }
}

/// The key read from the four bytes at `p`, big-endian when `be`.
pub open spec fn key_at(b: Seq<u8>, p: int, be: bool) -> int {
    if be {
        be32(b, p)
    } else {
        le32(b, p)
    }
}

/// Each key of `ks` followed by its bitmap in format `B`.
pub open spec fn entries_bytes<B: crate::serialization::Serializer>(ks: Seq<u32>, m: Map<u32, Bitmap>, be: bool) -> Seq<u8>
    decreases ks.len(),
{
    if ks.len() == 0 {
        seq![]
    } else {
        entries_bytes::<B>(ks.drop_last(), m, be) + key_bytes(ks.last(), be) + B::serialized(
            m[ks.last()]@,
            m[ks.last()].keeps_runs(),
        )
    }
}

/// Reads `count` entries from position `pos` on, adding them to `acc`; the
/// resulting map and the end of the entries, or `None` on invalid input.
pub open spec fn entries_decode<D: crate::serialization::Deserializer>(b: Seq<u8>, count: nat, pos: int, be: bool, acc: Map<u32, Set<u32>>) -> Option<(Map<u32, Set<u32>>, int)>
    decreases count,
{
    if count == 0 {
        Some((acc, pos))
    } else if pos < 0 || pos + 4 > b.len() {
        None
    } else {
        match D::deserialized(b.skip(pos + 4)) {
            None => None,
            Some((s, k)) => entries_decode::<D>(b, (count - 1) as nat, pos + 4 + k, be, acc.insert(key_at(b, pos, be) as u32, s)),
        }
    }
}

/// A format in which treemaps can be written.
pub trait Serializer: Sealed {
    /// Whether a map of this size can be written.
    spec fn fits(m: Map<u32, Bitmap>) -> bool;

    /// The bytes written for a treemap whose bitmaps are `m`.
    spec fn serialized(m: Map<u32, Bitmap>) -> Seq<u8>;

    /// Appends the serialization of `treemap` to `dst`, and returns the added
    /// bytes.
    fn serialize_into<'a>(treemap: &Treemap, dst: &'a mut Vec<u8>) -> (r: &'a [u8])
        requires
            Self::fits(treemap.map@),
        ensures
            final(dst)@ == old(dst)@ + Self::serialized(treemap.map@),
            r@ == Self::serialized(treemap.map@),
    ;

    /// The number of bytes needed to serialize `treemap`.
    fn get_serialized_size_in_bytes(treemap: &Treemap) -> (r: usize)
        requires
            Self::fits(treemap.map@),
        ensures
            r == Self::serialized(treemap.map@).len(),
    ;
}

/// A format from which treemaps can be read.
pub trait Deserializer: Sealed {
    /// The bitmaps held by a valid serialization at the start of `b`, and the
    /// number of bytes it takes; `None` when `b` does not start with one.
    spec fn deserialized(b: Seq<u8>) -> Option<(Map<u32, Set<u32>>, int)>;

    /// Reads a treemap from the start of `buffer`, with the number of bytes
    /// it takes; `None` when the buffer does not start with a valid
    /// serialization.
    fn try_deserialize(buffer: &[u8]) -> (r: Option<(Treemap, usize)>)
        ensures
            match Self::deserialized(buffer@) {
                None => r is None,
                Some((m, n)) => r matches Some((t, k)) && map_views(t.map@) == m && k == n,
            },
    ;
}

/// The keys of a treemap in increasing order are its sorted keys.
proof fn lemma_keys_sorted(t: &Treemap, ks: Seq<u32>)
    requires
        forall|k: u32| #[trigger] ks.contains(k) <==> t.map@.contains_key(k),
        forall|i: int, j: int| 0 <= i < j < ks.len() ==> ks[i] < ks[j],
    ensures
        ks == sorted_values(t.map@.dom()),
{
    assert forall|k: u32| #[trigger] ks.contains(k) == t.map@.dom().contains(k) by {}
    crate::serialization::lemma_sorted_values(t.map@.dom(), ks);
}

/// Appends each key of `t`, in increasing order, followed by its bitmap in
/// format `B`.
fn write_entries<B: crate::serialization::Serializer>(t: &Treemap, be: bool, dst: &mut Vec<u8>)
    ensures
        final(dst)@ == old(dst)@ + entries_bytes::<B>(sorted_values(t.map@.dom()), t.map@, be),
{
    let ks = t.keys();
    proof {
        lemma_keys_sorted(t, ks@);
    }
    let ghost m = t.map@;
    let mut i: usize = 0;
    proof {
        assert(ks@.take(0) =~= Seq::<u32>::empty());
        assert(dst@ =~= old(dst)@ + entries_bytes::<B>(ks@.take(0), m, be));
    }
    while i < ks.len()
        invariant
            m == t.map@,
            forall|k: u32| #[trigger] ks@.contains(k) <==> t.map@.contains_key(k),
            i <= ks@.len(),
            dst@ == old(dst)@ + entries_bytes::<B>(ks@.take(i as int), m, be),
        decreases ks@.len() - i,
    {
        let k = ks[i];
        assert(ks@.contains(k));
        if be {
            let w = u32_be_bytes(k);
            push_bytes(dst, &w);
        } else {
            let w = u32_le_bytes(k);
            push_bytes(dst, &w);
        }
        let bm = t.map.get(&k).unwrap();
        B::serialize_into_vec(bm, dst);
        proof {
            let s = ks@.take(i + 1);
            assert(s.drop_last() =~= ks@.take(i as int));
            assert(s.last() == k);
            assert(dst@ =~= old(dst)@ + entries_bytes::<B>(s, m, be));
        }
        i = i + 1;
    }
    proof {
        assert(ks@.take(ks@.len() as int) == ks@);
    }
}

/// Reads `count` entries of a serialized treemap, starting at `start`.
fn read_entries<D: crate::serialization::Deserializer>(buf: &[u8], count: u64, start: usize, be: bool) -> (r: Option<(Treemap, usize)>)
    requires
        start <= buf@.len(),
    ensures
        match entries_decode::<D>(buf@, count as nat, start as int, be, Map::empty()) {
            None => r is None,
            Some((m, n)) => r matches Some((t, k)) && map_views(t.map@) == m && k == n,
        },
{
    let mut map: BTreeMap<u32, Bitmap> = BTreeMap::new();
    let mut pos: usize = start;
    let mut i: u64 = 0;
    proof {
        assert(map_views(map@) =~= Map::<u32, Set<u32>>::empty());
    }
    while i < count
        invariant
            pos <= buf@.len(),
            i <= count,
            entries_decode::<D>(buf@, count as nat, start as int, be, Map::empty()) == entries_decode::<D>(
                buf@,
                (count - i) as nat,
                pos as int,
                be,
                map_views(map@),
            ),
        decreases count - i,
    {
        if buf.len() - pos < 4 {
            return None;
        }
        let key = if be {
            read_u32_be(buf, pos)
        } else {
            read_u32_le(buf, pos)
        };
        assert(key == key_at(buf@, pos as int, be));
        let rest = vstd::slice::slice_subrange(buf, pos + 4, buf.len());
        assert(rest@ =~= buf@.skip(pos + 4));
        match D::try_deserialize_with_len(rest) {
            None => {
                return None;
            },
            Some((bm, k)) => {
                let ghost before = map_views(map@);
                let ghost s = bm@;
                map.insert(key, bm);
                proof {
                    assert(map_views(map@) =~= before.insert(key, s));
                }
                pos = pos + 4 + k;
            },
        }
        i = i + 1;
    }
    Some((Treemap { map }, pos))
}

/// The number of keys of a treemap.
fn key_count(t: &Treemap) -> (r: usize)
    ensures
        r == t.map@.dom().len(),
{
    let ks = t.keys();
    proof {
        ks@.unique_seq_to_set();
        assert(ks@.to_set() =~= t.map@.dom());
    }
    ks.len()
}

/// Appends the serialization of `t` with a little-endian `u64` count and
/// little-endian keys, each bitmap in format `B`.
fn write_counted<'a, B: crate::serialization::Serializer>(t: &Treemap, dst: &'a mut Vec<u8>) -> (r: &'a [u8])
    ensures
        final(dst)@ == old(dst)@ + le64_bytes(t.map@.dom().len() as int) + entries_bytes::<B>(
            sorted_values(t.map@.dom()),
            t.map@,
            false,
        ),
        r@ == le64_bytes(t.map@.dom().len() as int) + entries_bytes::<B>(
            sorted_values(t.map@.dom()),
            t.map@,
            false,
        ),
{
    let start = dst.len();
    let n = key_count(t);
    let w = u64_le_bytes(n as u64);
    push_bytes(dst, &w);
    write_entries::<B>(t, false, dst);
    let all: &'a [u8] = dst.as_slice();
    let end = all.len();
    let r = vstd::slice::slice_subrange(all, start, end);
    assert(r@ =~= le64_bytes(t.map@.dom().len() as int) + entries_bytes::<B>(
        sorted_values(t.map@.dom()),
        t.map@,
        false,
    ));
    r
}

impl Serializer for Portable {
    open spec fn fits(m: Map<u32, Bitmap>) -> bool {
        true
    }

    open spec fn serialized(m: Map<u32, Bitmap>) -> Seq<u8> {
        le64_bytes(m.dom().len() as int) + entries_bytes::<Portable>(sorted_values(m.dom()), m, false)
    }

    fn serialize_into<'a>(treemap: &Treemap, dst: &'a mut Vec<u8>) -> (r: &'a [u8]) {
        write_counted::<Portable>(treemap, dst)
    }

    fn get_serialized_size_in_bytes(treemap: &Treemap) -> (r: usize) {
        let mut buf: Vec<u8> = Vec::new();
        let r = write_counted::<Portable>(treemap, &mut buf);
        r.len()
    }
}

impl Deserializer for Portable {
    open spec fn deserialized(b: Seq<u8>) -> Option<(Map<u32, Set<u32>>, int)> {
        if b.len() < 8 {
            None
        } else {
            entries_decode::<Portable>(b, le64(b, 0) as nat, 8, false, Map::empty())
        }
    }

    fn try_deserialize(buffer: &[u8]) -> (r: Option<(Treemap, usize)>) {
        if buffer.len() < 8 {
            return None;
        }
        let count = read_u64_le(buffer, 0);
        read_entries::<Portable>(buffer, count, 8, false)
    }
}

impl Serializer for Native {
    open spec fn fits(m: Map<u32, Bitmap>) -> bool {
        true
    }

    open spec fn serialized(m: Map<u32, Bitmap>) -> Seq<u8> {
        le64_bytes(m.dom().len() as int) + entries_bytes::<Native>(sorted_values(m.dom()), m, false)
    }

    fn serialize_into<'a>(treemap: &Treemap, dst: &'a mut Vec<u8>) -> (r: &'a [u8]) {
        write_counted::<Native>(treemap, dst)
    }

    fn get_serialized_size_in_bytes(treemap: &Treemap) -> (r: usize) {
        let mut buf: Vec<u8> = Vec::new();
        let r = write_counted::<Native>(treemap, &mut buf);
        r.len()
    }
}

impl Deserializer for Native {
    open spec fn deserialized(b: Seq<u8>) -> Option<(Map<u32, Set<u32>>, int)> {
        if b.len() < 8 {
            None
        } else {
            entries_decode::<Native>(b, le64(b, 0) as nat, 8, false, Map::empty())
        }
    }

    fn try_deserialize(buffer: &[u8]) -> (r: Option<(Treemap, usize)>) {
        if buffer.len() < 8 {
            return None;
        }
        let count = read_u64_le(buffer, 0);
        read_entries::<Native>(buffer, count, 8, false)
    }
}

/// Appends the JVM legacy serialization of `t`.
fn write_jvm<'a>(t: &Treemap, dst: &'a mut Vec<u8>) -> (r: &'a [u8])
    requires
        t.map@.dom().len() <= u32::MAX,
    ensures
        final(dst)@ == old(dst)@ + <JvmLegacy as Serializer>::serialized(t.map@),
        r@ == <JvmLegacy as Serializer>::serialized(t.map@),
{
    let start = dst.len();
    dst.push(0u8);
    let n = key_count(t);
    let w = u32_be_bytes(n as u32);
    push_bytes(dst, &w);
    write_entries::<Portable>(t, true, dst);
    let all: &'a [u8] = dst.as_slice();
    let end = all.len();
    let r = vstd::slice::slice_subrange(all, start, end);
    assert(r@ =~= <JvmLegacy as Serializer>::serialized(t.map@));
    assert(dst@ =~= old(dst)@ + <JvmLegacy as Serializer>::serialized(t.map@));
    r
}

impl Serializer for JvmLegacy {
    open spec fn fits(m: Map<u32, Bitmap>) -> bool {
        m.dom().len() <= u32::MAX
    }

    open spec fn serialized(m: Map<u32, Bitmap>) -> Seq<u8> {
        seq![0u8] + be32_bytes(m.dom().len() as int) + entries_bytes::<Portable>(sorted_values(m.dom()), m, true)
    }

    fn serialize_into<'a>(treemap: &Treemap, dst: &'a mut Vec<u8>) -> (r: &'a [u8]) {
        write_jvm(treemap, dst)
    }

    fn get_serialized_size_in_bytes(treemap: &Treemap) -> (r: usize) {
        let mut buf: Vec<u8> = Vec::new();
        let r = write_jvm(treemap, &mut buf);
        r.len()
    }
}

impl Deserializer for JvmLegacy {
    open spec fn deserialized(b: Seq<u8>) -> Option<(Map<u32, Set<u32>>, int)> {
        if b.len() < 5 {
            None
        } else {
            entries_decode::<Portable>(b, be32(b, 1) as nat, 5, true, Map::empty())
        }
    }

    fn try_deserialize(buffer: &[u8]) -> (r: Option<(Treemap, usize)>) {
        if buffer.len() < 5 {
            return None;
        }
        let count = read_u32_be(buffer, 1);
        read_entries::<Portable>(buffer, count as u64, 5, true)
    }
}

impl Treemap {
    /// Computes the serialized size in bytes of the treemap in format `S`.
    pub fn get_serialized_size_in_bytes<S: Serializer>(&self) -> (r: usize)
        requires
            S::fits(self.map@),
        ensures
            r == S::serialized(self.map@).len(),
    {
        S::get_serialized_size_in_bytes(self)
    }

    /// Serializes the treemap to a vector of bytes in format `S`.
    pub fn serialize<S: Serializer>(&self) -> (r: Vec<u8>)
        requires
            S::fits(self.map@),
        ensures
            r@ == S::serialized(self.map@),
    {
        let mut dst: Vec<u8> = Vec::new();
        S::serialize_into(self, &mut dst);
        assert(dst@ =~= S::serialized(self.map@));
        dst
    }

    /// Serializes the treemap in format `S` after the existing contents of
    /// `dst`, and returns the added bytes.
    pub fn serialize_into<'a, S: Serializer>(&self, dst: &'a mut Vec<u8>) -> (r: &'a [u8])
        requires
            S::fits(self.map@),
        ensures
            final(dst)@ == old(dst)@ + S::serialized(self.map@),
            r@ == S::serialized(self.map@),
    {
        S::serialize_into(self, dst)
    }

    /// Reads a treemap in format `D` from the start of `buffer`; `None` on
    /// invalid input.
    pub fn try_deserialize<D: Deserializer>(buffer: &[u8]) -> (r: Option<Self>)
        ensures
            match D::deserialized(buffer@) {
                None => r is None,
                Some((m, _)) => r matches Some(t) && map_views(t.map@) == m,
            },
    {
        match D::try_deserialize(buffer) {
            None => None,
            Some((t, _)) => Some(t),
        }
    }
}

// ---------------------------------------------------------------------------
// Reading back what was written
// ---------------------------------------------------------------------------

proof fn lemma_at_le64(b: Seq<u8>, p: int, v: int)
    requires
        0 <= v <= u64::MAX,
        at(b, p, le64_bytes(v)),
    ensures
        le64(b, p) == v,
{
    let lo = v % 0x1_0000_0000;
    let hi = v / 0x1_0000_0000 % 0x1_0000_0000;
    lemma_at_concat(b, p, le32_bytes(lo), le32_bytes(hi));
    crate::encode::lemma_at_le32(b, p, lo);
    crate::encode::lemma_at_le32(b, p + 4, hi);
    assert(lo + 0x1_0000_0000 * hi == v) by (nonlinear_arith)
        requires
            0 <= v <= u64::MAX,
            lo == v % 0x1_0000_0000,
            hi == v / 0x1_0000_0000 % 0x1_0000_0000,
    ;
}

proof fn lemma_at_be32(b: Seq<u8>, p: int, v: int)
    requires
        0 <= v < 0x1_0000_0000,
        at(b, p, be32_bytes(v)),
    ensures
        be32(b, p) == v,
{
    let w = be32_bytes(v);
    assert(b[p + 0] == w[0] && b[p + 1] == w[1] && b[p + 2] == w[2] && b[p + 3] == w[3]);
}

proof fn lemma_at_key(b: Seq<u8>, p: int, k: u32, be: bool)
    requires
        at(b, p, key_bytes(k, be)),
    ensures
        key_at(b, p, be) == k,
{
    if be {
        lemma_at_be32(b, p, k as int);
    } else {
        crate::encode::lemma_at_le32(b, p, k as int);
    }
}

/// Maps whose bitmaps hold the same values and keep run compression alike
/// write the same entries.
proof fn lemma_entries_same<B: crate::serialization::Serializer>(ks: Seq<u32>, m1: Map<u32, Bitmap>, m2: Map<u32, Bitmap>, be: bool)
    requires
        crate::treemap::same_buckets(m1, m2),
        forall|i: int| 0 <= i < ks.len() ==> m1.contains_key(#[trigger] ks[i]),
    ensures
        entries_bytes::<B>(ks, m1, be) == entries_bytes::<B>(ks, m2, be),
    decreases ks.len(),
{
    if ks.len() > 0 {
        lemma_entries_same::<B>(ks.drop_last(), m1, m2, be);
        assert(m1.contains_key(ks[ks.len() - 1]));
    }
}

/// Maps whose bitmaps hold the same values and keep run compression alike
/// have the same portable bytes.
pub proof fn lemma_same_buckets_bytes(m1: Map<u32, Bitmap>, m2: Map<u32, Bitmap>)
    requires
        crate::treemap::same_buckets(m1, m2),
    ensures
        <Portable as Serializer>::serialized(m1) == <Portable as Serializer>::serialized(m2),
{
    let ks = sorted_values(m1.dom());
    crate::serialization::lemma_sorted_exists(m1.dom());
    assert forall|i: int| 0 <= i < ks.len() implies m1.contains_key(#[trigger] ks[i]) by {
        assert(ks.contains(ks[i]));
    }
    lemma_entries_same::<Portable>(ks, m1, m2, false);
}

/// The bytes a bitmap of `m` is written as in format `B`.
pub open spec fn bitmap_bytes<B: crate::serialization::Serializer>(m: Map<u32, Bitmap>, k: u32) -> Seq<u8> {
    B::serialized(m[k]@, m[k].keeps_runs())
}

/// The entries split after the first one.
proof fn lemma_entries_first<B: crate::serialization::Serializer>(ks: Seq<u32>, m: Map<u32, Bitmap>, be: bool)
    requires
        ks.len() > 0,
    ensures
        entries_bytes::<B>(ks, m, be) == key_bytes(ks[0], be) + bitmap_bytes::<B>(m, ks[0]) + entries_bytes::<B>(
            ks.skip(1),
            m,
            be,
        ),
    decreases ks.len(),
{
    if ks.len() == 1 {
        assert(ks.drop_last() =~= Seq::<u32>::empty());
        assert(ks.skip(1) =~= Seq::<u32>::empty());
        assert(entries_bytes::<B>(ks, m, be) =~= key_bytes(ks[0], be) + bitmap_bytes::<B>(m, ks[0]) + entries_bytes::<B>(
            ks.skip(1),
            m,
            be,
        ));
    } else {
        let t = ks.drop_last();
        lemma_entries_first::<B>(t, m, be);
        assert(t[0] == ks[0]);
        assert(t.skip(1) =~= ks.skip(1).drop_last());
        assert(ks.skip(1).last() == ks.last());
        assert(entries_bytes::<B>(ks, m, be) =~= key_bytes(ks[0], be) + bitmap_bytes::<B>(m, ks[0]) + entries_bytes::<B>(
            ks.skip(1),
            m,
            be,
        ));
    }
}

/// The sets held by the bitmaps of `m` under the keys `ks`.
pub open spec fn entries_map(ks: Seq<u32>, m: Map<u32, Bitmap>) -> Map<u32, Set<u32>> {
    Map::new(|k: u32| ks.contains(k), |k: u32| m[k]@)
}

/// Written entries read back, given that format `D` reads back what `B` writes.
proof fn lemma_entries_roundtrip<B: crate::serialization::Serializer, D: crate::serialization::Deserializer>(
    b: Seq<u8>,
    ks: Seq<u32>,
    m: Map<u32, Bitmap>,
    pos: int,
    be: bool,
    acc: Map<u32, Set<u32>>,
)
    requires
        forall|s: Set<u32>, rk: bool, x: Seq<u8>| #[trigger] at(x, 0, B::serialized(s, rk)) ==> D::deserialized(x)
            == Some((s, B::serialized(s, rk).len() as int)),
        at(b, pos, entries_bytes::<B>(ks, m, be)),
    ensures
        entries_decode::<D>(b, ks.len(), pos, be, acc) == Some(
            (acc.union_prefer_right(entries_map(ks, m)), pos + entries_bytes::<B>(ks, m, be).len()),
        ),
    decreases ks.len(),
{
    if ks.len() == 0 {
        assert(acc.union_prefer_right(entries_map(ks, m)) =~= acc);
    } else {
        let k = ks[0];
        let kb = key_bytes(k, be);
        let sb = bitmap_bytes::<B>(m, k);
        let rest = entries_bytes::<B>(ks.skip(1), m, be);
        lemma_entries_first::<B>(ks, m, be);
        lemma_at_concat(b, pos, kb + sb, rest);
        lemma_at_concat(b, pos, kb, sb);
        lemma_at_key(b, pos, k, be);
        let x = b.skip(pos + 4);
        assert forall|i: int| 0 <= i < sb.len() implies #[trigger] x[0 + i] == sb[i] by {
            assert(x[i] == b[pos + 4 + i]);
        }
        assert(at(x, 0, B::serialized(m[k]@, m[k].keeps_runs())));
        lemma_entries_roundtrip::<B, D>(b, ks.skip(1), m, pos + 4 + sb.len(), be, acc.insert(k, m[k]@));
        assert(acc.insert(k, m[k]@).union_prefer_right(entries_map(ks.skip(1), m)) =~= acc.union_prefer_right(
            entries_map(ks, m),
        )) by {
            assert forall|j: u32| #[trigger] ks.contains(j) == (j == k || ks.skip(1).contains(j)) by {
                if ks.contains(j) && j != k {
                    let i = choose|i: int| 0 <= i < ks.len() && ks[i] == j;
                    assert(ks.skip(1)[i - 1] == j);
                }
                if ks.skip(1).contains(j) {
                    let i = choose|i: int| 0 <= i < ks.skip(1).len() && ks.skip(1)[i] == j;
                    assert(ks[i + 1] == j);
                }
            }
        }
    }
}

/// The entries of all keys of `m` hold the sets of its bitmaps.
proof fn lemma_all_entries(m: Map<u32, Bitmap>)
    ensures
        Map::<u32, Set<u32>>::empty().union_prefer_right(entries_map(sorted_values(m.dom()), m)) == map_views(m),
        m.dom().len() <= 0x1_0000_0000,
{
    crate::serialization::lemma_sorted_exists(m.dom());
    crate::bitmap::lemma_u32_set_len(m.dom());
    assert(Map::<u32, Set<u32>>::empty().union_prefer_right(entries_map(sorted_values(m.dom()), m)) =~= map_views(m));
}

/// Whatever follows it, a portable bitmap serialization reads back.
proof fn lemma_portable_reads_back()
    ensures
        forall|s: Set<u32>, rk: bool, x: Seq<u8>| #[trigger] at(x, 0, <Portable as crate::serialization::Serializer>::serialized(s, rk))
            ==> <Portable as crate::serialization::Deserializer>::deserialized(x) == Some(
            (s, <Portable as crate::serialization::Serializer>::serialized(s, rk).len() as int),
        ),
{
    assert forall|s: Set<u32>, rk: bool, x: Seq<u8>| #[trigger] at(x, 0, <Portable as crate::serialization::Serializer>::serialized(s, rk))
        implies <Portable as crate::serialization::Deserializer>::deserialized(x) == Some(
        (s, <Portable as crate::serialization::Serializer>::serialized(s, rk).len() as int),
    ) by {
        crate::encode::lemma_portable_prefix(s, rk, x);
    }
}

/// Whatever follows it, a native bitmap serialization reads back.
proof fn lemma_native_reads_back()
    ensures
        forall|s: Set<u32>, rk: bool, x: Seq<u8>| #[trigger] at(x, 0, <Native as crate::serialization::Serializer>::serialized(s, rk))
            ==> <Native as crate::serialization::Deserializer>::deserialized(x) == Some(
            (s, <Native as crate::serialization::Serializer>::serialized(s, rk).len() as int),
        ),
{
    assert forall|s: Set<u32>, rk: bool, x: Seq<u8>| #[trigger] at(x, 0, <Native as crate::serialization::Serializer>::serialized(s, rk))
        implies <Native as crate::serialization::Deserializer>::deserialized(x) == Some(
        (s, <Native as crate::serialization::Serializer>::serialized(s, rk).len() as int),
    ) by {
        crate::serialization::lemma_native_prefix(s, rk, x);
    }
}

/// Reading back the portable serialization of a treemap gives the sets of its
/// bitmaps, and takes all of its bytes.
#[verifier::spinoff_prover]
#[verifier::rlimit(50)]
pub proof fn lemma_treemap_portable_roundtrip(m: Map<u32, Bitmap>)
    ensures
        <Portable as Deserializer>::deserialized(<Portable as Serializer>::serialized(m)) == Some(
            (map_views(m), <Portable as Serializer>::serialized(m).len() as int),
        ),
{
    let b = <Portable as Serializer>::serialized(m);
    let ks = sorted_values(m.dom());
    let n = m.dom().len() as int;
    lemma_all_entries(m);
    crate::serialization::lemma_sorted_exists(m.dom());
    crate::serialization::lemma_sorted_len(m.dom(), ks);
    lemma_portable_reads_back();
    assert(at(b, 0, b));
    lemma_at_concat(b, 0, le64_bytes(n), entries_bytes::<Portable>(ks, m, false));
    lemma_at_le64(b, 0, n);
    lemma_entries_roundtrip::<Portable, Portable>(b, ks, m, 8, false, Map::empty());
}

/// Reading back the native serialization of a treemap gives the sets of its
/// bitmaps, and takes all of its bytes.
#[verifier::spinoff_prover]
#[verifier::rlimit(50)]
pub proof fn lemma_treemap_native_roundtrip(m: Map<u32, Bitmap>)
    ensures
        <Native as Deserializer>::deserialized(<Native as Serializer>::serialized(m)) == Some(
            (map_views(m), <Native as Serializer>::serialized(m).len() as int),
        ),
{
    let b = <Native as Serializer>::serialized(m);
    let ks = sorted_values(m.dom());
    let n = m.dom().len() as int;
    lemma_all_entries(m);
    crate::serialization::lemma_sorted_exists(m.dom());
    crate::serialization::lemma_sorted_len(m.dom(), ks);
    lemma_native_reads_back();
    assert(at(b, 0, b));
    lemma_at_concat(b, 0, le64_bytes(n), entries_bytes::<Native>(ks, m, false));
    lemma_at_le64(b, 0, n);
    lemma_entries_roundtrip::<Native, Native>(b, ks, m, 8, false, Map::empty());
}

/// Reading back the JVM legacy serialization of a treemap that fits the
/// format gives the sets of its bitmaps, and takes all of its bytes.
#[verifier::spinoff_prover]
#[verifier::rlimit(50)]
pub proof fn lemma_treemap_jvm_roundtrip(m: Map<u32, Bitmap>)
    requires
        <JvmLegacy as Serializer>::fits(m),
    ensures
        <JvmLegacy as Deserializer>::deserialized(<JvmLegacy as Serializer>::serialized(m)) == Some(
            (map_views(m), <JvmLegacy as Serializer>::serialized(m).len() as int),
        ),
{
    let b = <JvmLegacy as Serializer>::serialized(m);
    let ks = sorted_values(m.dom());
    let n = m.dom().len() as int;
    lemma_all_entries(m);
    crate::serialization::lemma_sorted_exists(m.dom());
    crate::serialization::lemma_sorted_len(m.dom(), ks);
    lemma_portable_reads_back();
    assert(at(b, 0, b));
    lemma_at_concat(b, 0, seq![0u8] + be32_bytes(n), entries_bytes::<Portable>(ks, m, true));
    lemma_at_concat(b, 0, seq![0u8], be32_bytes(n));
    lemma_at_be32(b, 1, n);
    lemma_entries_roundtrip::<Portable, Portable>(b, ks, m, 5, true, Map::empty());
}

/// Whether every serialization that format `D` reads from a sequence lies
/// within it, and reads the same in any longer sequence that starts with it.
pub open spec fn reads_within<D: crate::serialization::Deserializer>() -> bool {
    forall|x: Seq<u8>, y: Seq<u8>|
        #[trigger] extends(x, y) && D::deserialized(x) is Some ==> D::deserialized(y) == D::deserialized(x) && (
        D::deserialized(x)->0).1 <= x.len()
}

/// Bitmaps in the portable format read within their bytes.
pub proof fn lemma_portable_reads_within()
    ensures
        reads_within::<Portable>(),
{
    assert forall|x: Seq<u8>, y: Seq<u8>| #[trigger] extends(x, y) && portable_decode(x) is Some implies portable_decode(y)
        == portable_decode(x) && (portable_decode(x)->0).1 <= x.len() by {
        crate::portable::lemma_portable_decode_extends(x, y);
    }
}

/// Bitmaps in the native format read within their bytes.
pub proof fn lemma_native_reads_within()
    ensures
        reads_within::<Native>(),
{
    assert forall|x: Seq<u8>, y: Seq<u8>| #[trigger] extends(x, y) && native_decode(x) is Some implies native_decode(y)
        == native_decode(x) && (native_decode(x)->0).1 <= x.len() by {
        crate::serialization::lemma_native_decode_extends(x, y);
    }
}

/// A run of entries that reads from `b` ends within `b`, and reads the same in
/// any longer sequence that starts with `b`.
proof fn lemma_entries_extends<D: crate::serialization::Deserializer>(
    b: Seq<u8>,
    b2: Seq<u8>,
    count: nat,
    pos: int,
    be: bool,
    acc: Map<u32, Set<u32>>,
)
    requires
        reads_within::<D>(),
        extends(b, b2),
        pos <= b.len(),
        entries_decode::<D>(b, count, pos, be, acc) is Some,
    ensures
        entries_decode::<D>(b2, count, pos, be, acc) == entries_decode::<D>(b, count, pos, be, acc),
        (entries_decode::<D>(b, count, pos, be, acc)->0).1 <= b.len(),
    decreases count,
{
    if count > 0 {
        lemma_extends_reads(b, b2, pos);
        assert(key_at(b2, pos, be) == key_at(b, pos, be));
        lemma_extends_skip(b, b2, pos + 4);
        let k = (D::deserialized(b.skip(pos + 4))->0).1;
        let s = (D::deserialized(b.skip(pos + 4))->0).0;
        lemma_entries_extends::<D>(b, b2, (count - 1) as nat, pos + 4 + k, be, acc.insert(key_at(b, pos, be) as u32, s));
    }
}

/// No strict prefix of the portable serialization of a treemap reads back:
/// every such truncated buffer is rejected.
pub proof fn lemma_treemap_portable_prefix_rejected(m: Map<u32, Bitmap>, j: int)
    requires
        0 <= j < <Portable as Serializer>::serialized(m).len(),
    ensures
        <Portable as Deserializer>::deserialized(<Portable as Serializer>::serialized(m).take(j)) is None,
{
    let b = <Portable as Serializer>::serialized(m);
    let p = b.take(j);
    lemma_treemap_portable_roundtrip(m);
    if <Portable as Deserializer>::deserialized(p) is Some {
        assert(extends(p, b));
        lemma_extends_reads(p, b, 0);
        lemma_portable_reads_within();
        lemma_entries_extends::<Portable>(p, b, le64(p, 0) as nat, 8, false, Map::empty());
        assert(false);
    }
}

/// No strict prefix of the native serialization of a treemap reads back:
/// every such truncated buffer is rejected.
pub proof fn lemma_treemap_native_prefix_rejected(m: Map<u32, Bitmap>, j: int)
    requires
        0 <= j < <Native as Serializer>::serialized(m).len(),
    ensures
        <Native as Deserializer>::deserialized(<Native as Serializer>::serialized(m).take(j)) is None,
{
    let b = <Native as Serializer>::serialized(m);
    let p = b.take(j);
    lemma_treemap_native_roundtrip(m);
    if <Native as Deserializer>::deserialized(p) is Some {
        assert(extends(p, b));
        lemma_extends_reads(p, b, 0);
        lemma_native_reads_within();
        lemma_entries_extends::<Native>(p, b, le64(p, 0) as nat, 8, false, Map::empty());
        assert(false);
    }
}

/// No strict prefix of the JVM legacy serialization of a treemap that fits
/// the format reads back: every such truncated buffer is rejected.
pub proof fn lemma_treemap_jvm_prefix_rejected(m: Map<u32, Bitmap>, j: int)
    requires
        <JvmLegacy as Serializer>::fits(m),
        0 <= j < <JvmLegacy as Serializer>::serialized(m).len(),
    ensures
        <JvmLegacy as Deserializer>::deserialized(<JvmLegacy as Serializer>::serialized(m).take(j)) is None,
{
    let b = <JvmLegacy as Serializer>::serialized(m);
    let p = b.take(j);
    lemma_treemap_jvm_roundtrip(m);
    if <JvmLegacy as Deserializer>::deserialized(p) is Some {
        assert(extends(p, b));
        lemma_extends_reads(p, b, 1);
        lemma_portable_reads_within();
        lemma_entries_extends::<Portable>(p, b, be32(p, 1) as nat, 5, true, Map::empty());
        assert(false);
    }
}

/// A writer that counts the bytes written through it; the writing itself is
/// done by the application around the library.
pub struct OffsetTrackingWriter<W> {
    /// The writer written to.
    pub writer: W,
    /// The number of bytes written so far.
    pub bytes_written: usize,
}

impl<W> OffsetTrackingWriter<W> {
    /// Starts counting the bytes written to `writer`.
    pub fn new(writer: W) -> (r: Self)
        ensures
            r.writer == writer,
            r.bytes_written == 0,
    {
        OffsetTrackingWriter { writer, bytes_written: 0 }
    }

    /// Records that `n` more bytes were written.
    pub fn record(&mut self, n: usize)
        requires
            old(self).bytes_written + n <= usize::MAX,
        ensures
            final(self).writer == old(self).writer,
            final(self).bytes_written == old(self).bytes_written + n,
    {
        self.bytes_written = self.bytes_written + n;
    }
}

} // verus!
