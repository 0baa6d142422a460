//! Fixed-width integers in byte buffers, little- and big-endian, read and
//! written through `byteorder`.
use byteorder::{BigEndian, ByteOrder, LittleEndian};
use vstd::prelude::*;

verus! {

/// The little-endian `u16` stored at `b[i..i + 2]`.
pub open spec fn le16(b: Seq<u8>, i: int) -> int {
    b[i] + 256 * b[i + 1]
}

/// The little-endian `u32` stored at `b[i..i + 4]`.
pub open spec fn le32(b: Seq<u8>, i: int) -> int {
    le16(b, i) + 0x1_0000 * le16(b, i + 2)
}

/// The little-endian `u64` stored at `b[i..i + 8]`.
pub open spec fn le64(b: Seq<u8>, i: int) -> int {
    le32(b, i) + 0x1_0000_0000 * le32(b, i + 4)
}

/// The big-endian `u32` stored at `b[i..i + 4]`.
pub open spec fn be32(b: Seq<u8>, i: int) -> int {
    0x100_0000 * b[i] + 0x1_0000 * b[i + 1] + 0x100 * b[i + 2] + b[i + 3]
}

/// The two bytes of `n`, least significant first.
pub open spec fn le16_bytes(n: int) -> Seq<u8> {
    seq![(n % 0x100) as u8, (n / 0x100 % 0x100) as u8]
}

/// The four bytes of `n`, least significant first.
pub open spec fn le32_bytes(n: int) -> Seq<u8> {
    le16_bytes(n % 0x1_0000) + le16_bytes(n / 0x1_0000 % 0x1_0000)
}

/// The eight bytes of `n`, least significant first.
pub open spec fn le64_bytes(n: int) -> Seq<u8> {
    le32_bytes(n % 0x1_0000_0000) + le32_bytes(n / 0x1_0000_0000 % 0x1_0000_0000)
}

/// The four bytes of `n`, most significant first.
pub open spec fn be32_bytes(n: int) -> Seq<u8> {
    seq![
        (n / 0x100_0000 % 0x100) as u8,
        (n / 0x1_0000 % 0x100) as u8,
        (n / 0x100 % 0x100) as u8,
        (n % 0x100) as u8,
    ]
}

/// `byteorder::LittleEndian::read_u16`: the little-endian `u16` at the start
/// of `buf[pos..]`; it panics on fewer than two bytes, which `requires` rules out.
#[verifier::external_body]
pub(crate) fn read_u16_le(buf: &[u8], pos: usize) -> (r: u16)
    requires
        pos + 2 <= buf@.len(),
    ensures
        r == le16(buf@, pos as int),
{
    LittleEndian::read_u16(&buf[pos..])
}

/// `byteorder::LittleEndian::read_u32`: the little-endian `u32` at the start
/// of `buf[pos..]`; it panics on fewer than four bytes, which `requires` rules out.
#[verifier::external_body]
pub(crate) fn read_u32_le(buf: &[u8], pos: usize) -> (r: u32)
    requires
        pos + 4 <= buf@.len(),
    ensures
        r == le32(buf@, pos as int),
{
    LittleEndian::read_u32(&buf[pos..])
}

/// `byteorder::LittleEndian::read_u64`: the little-endian `u64` at the start
/// of `buf[pos..]`; it panics on fewer than eight bytes, which `requires` rules out.
#[verifier::external_body]
pub(crate) fn read_u64_le(buf: &[u8], pos: usize) -> (r: u64)
    requires
        pos + 8 <= buf@.len(),
    ensures
        r == le64(buf@, pos as int),
{
    LittleEndian::read_u64(&buf[pos..])
}

/// `byteorder::BigEndian::read_u32`: the big-endian `u32` at the start of
/// `buf[pos..]`; it panics on fewer than four bytes, which `requires` rules out.
#[verifier::external_body]
pub(crate) fn read_u32_be(buf: &[u8], pos: usize) -> (r: u32)
    requires
        pos + 4 <= buf@.len(),
    ensures
        r == be32(buf@, pos as int),
{
    BigEndian::read_u32(&buf[pos..])
}

/// `byteorder::LittleEndian::write_u16` into a two-byte buffer: the bytes of
/// `n`, least significant first.
#[verifier::external_body]
pub(crate) fn u16_le_bytes(n: u16) -> (r: [u8; 2])
    ensures
        r@ == le16_bytes(n as int),
{
    let mut b = [0u8; 2];
    LittleEndian::write_u16(&mut b, n);
    b
}

/// `byteorder::LittleEndian::write_u32` into a four-byte buffer: the bytes of
/// `n`, least significant first.
#[verifier::external_body]
pub(crate) fn u32_le_bytes(n: u32) -> (r: [u8; 4])
    ensures
        r@ == le32_bytes(n as int),
{
    let mut b = [0u8; 4];
    LittleEndian::write_u32(&mut b, n);
    b
}

/// `byteorder::LittleEndian::write_u64` into an eight-byte buffer: the bytes
/// of `n`, least significant first.
#[verifier::external_body]
pub(crate) fn u64_le_bytes(n: u64) -> (r: [u8; 8])
    ensures
        r@ == le64_bytes(n as int),
{
    let mut b = [0u8; 8];
    LittleEndian::write_u64(&mut b, n);
    b
}

/// `byteorder::BigEndian::write_u32` into a four-byte buffer: the bytes of `n`,
/// most significant first.
#[verifier::external_body]
pub(crate) fn u32_be_bytes(n: u32) -> (r: [u8; 4])
    ensures
        r@ == be32_bytes(n as int),
{
    let mut b = [0u8; 4];
    BigEndian::write_u32(&mut b, n);
    b
}

/// Reading back the bytes of a `u16` gives the `u16`.
pub proof fn lemma_le16_roundtrip(b: Seq<u8>, i: int, n: int)
    requires
        0 <= n < 0x1_0000,
        0 <= i,
        i + 2 <= b.len(),
        b.subrange(i, i + 2) == le16_bytes(n),
    ensures
        le16(b, i) == n,
{
    assert(b[i] == le16_bytes(n)[0] && b[i + 1] == le16_bytes(n)[1]);
}

/// Reading back the bytes of a `u32` gives the `u32`.
pub proof fn lemma_le32_roundtrip(b: Seq<u8>, i: int, n: int)
    requires
        0 <= n < 0x1_0000_0000,
        0 <= i,
        i + 4 <= b.len(),
        b.subrange(i, i + 4) == le32_bytes(n),
    ensures
        le32(b, i) == n,
{
    let whole = b.subrange(i, i + 4);
    let x = le16_bytes(n % 0x1_0000);
    let y = le16_bytes(n / 0x1_0000 % 0x1_0000);
    assert(whole == x + y);
    assert(whole[0] == x[0] && whole[1] == x[1] && whole[2] == y[0] && whole[3] == y[1]);
    assert(b.subrange(i, i + 2) =~= x);
    assert(b.subrange(i + 2, i + 4) =~= y);
    lemma_le16_roundtrip(b, i, n % 0x1_0000);
    lemma_le16_roundtrip(b, i + 2, n / 0x1_0000 % 0x1_0000);
}

/// Reading back the bytes of a `u64` gives the `u64`.
pub proof fn lemma_le64_roundtrip(b: Seq<u8>, i: int, n: int)
    requires
        0 <= n <= u64::MAX,
        0 <= i,
        i + 8 <= b.len(),
        b.subrange(i, i + 8) == le64_bytes(n),
    ensures
        le64(b, i) == n,
{
    let whole = b.subrange(i, i + 8);
    let x = le32_bytes(n % 0x1_0000_0000);
    let y = le32_bytes(n / 0x1_0000_0000 % 0x1_0000_0000);
    assert(whole == x + y);
    assert forall|j: int| 0 <= j < 4 implies #[trigger] b.subrange(i, i + 4)[j] == x[j] by {
        assert(whole[j] == x[j]);
    }
    assert forall|j: int| 0 <= j < 4 implies #[trigger] b.subrange(i + 4, i + 8)[j] == y[j] by {
        assert(whole[j + 4] == y[j]);
    }
    assert(b.subrange(i, i + 4) =~= x);
    assert(b.subrange(i + 4, i + 8) =~= y);
    lemma_le32_roundtrip(b, i, n % 0x1_0000_0000);
    lemma_le32_roundtrip(b, i + 4, n / 0x1_0000_0000 % 0x1_0000_0000);
}

/// Reading back the big-endian bytes of a `u32` gives the `u32`.
pub proof fn lemma_be32_roundtrip(b: Seq<u8>, i: int, n: int)
    requires
        0 <= n < 0x1_0000_0000,
        0 <= i,
        i + 4 <= b.len(),
        b.subrange(i, i + 4) == be32_bytes(n),
    ensures
        be32(b, i) == n,
{
    assert(b[i] == be32_bytes(n)[0] && b[i + 1] == be32_bytes(n)[1] && b[i + 2] == be32_bytes(n)[2]
        && b[i + 3] == be32_bytes(n)[3]);
}

/// Appends bytes to a buffer.
pub fn push_bytes(out: &mut Vec<u8>, bytes: &[u8])
    ensures
        final(out)@ == old(out)@ + bytes@,
{
    let mut i: usize = 0;
    while i < bytes.len()
        invariant
            i <= bytes@.len(),
            out@ == old(out)@ + bytes@.take(i as int),
        decreases bytes@.len() - i,
    {
        out.push(bytes[i]);
        assert(bytes@.take(i + 1) == bytes@.take(i as int).push(bytes@[i as int]));
        i = i + 1;
    }
    assert(bytes@.take(bytes@.len() as int) == bytes@);
}

/// `b2` starts with the bytes of `b`.
pub open spec fn extends(b: Seq<u8>, b2: Seq<u8>) -> bool {
    b.len() <= b2.len() && forall|i: int| 0 <= i < b.len() ==> #[trigger] b2[i] == b[i]
}

/// The integers stored within the bytes of `b` read the same in a longer
/// sequence that starts with them.
pub proof fn lemma_extends_reads(b: Seq<u8>, b2: Seq<u8>, i: int)
    requires
        extends(b, b2),
        0 <= i,
    ensures
        i + 2 <= b.len() ==> le16(b2, i) == le16(b, i),
        i + 4 <= b.len() ==> le32(b2, i) == le32(b, i) && be32(b2, i) == be32(b, i),
        i + 8 <= b.len() ==> le64(b2, i) == le64(b, i),
{
    if i + 2 <= b.len() {
        assert(b2[i] == b[i] && b2[i + 1] == b[i + 1]);
    }
    if i + 4 <= b.len() {
        assert(b2[i + 2] == b[i + 2] && b2[i + 3] == b[i + 3]);
    }
    if i + 8 <= b.len() {
        assert(b2[i + 4] == b[i + 4] && b2[i + 5] == b[i + 5]);
        assert(b2[i + 6] == b[i + 6] && b2[i + 7] == b[i + 7]);
    }
}

/// Dropping the same first bytes keeps one sequence a start of the other.
pub proof fn lemma_extends_skip(b: Seq<u8>, b2: Seq<u8>, q: int)
    requires
        extends(b, b2),
        0 <= q <= b.len(),
    ensures
        extends(b.skip(q), b2.skip(q)),
{
    assert forall|i: int| 0 <= i < b.skip(q).len() implies #[trigger] b2.skip(q)[i] == b.skip(q)[i] by {
        assert(b2[q + i] == b[q + i]);
    }
}

} // verus!
