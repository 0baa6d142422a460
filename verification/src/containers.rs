//! The array and bitset forms of a container in the portable format: the
//! bytes each form is made of, and the proofs that they read back as the
//! container's values.
use crate::bytes::{le16, le16_bytes, u16_le_bytes};
use crate::encode::{at, lemma_at_concat, local_ok};
use crate::portable::{array_ok, array_vals, array_value, bit_of, bitset_ok, bitset_vals};
use crate::runs::{in_runs, runs_card, runs_set};
use vstd::prelude::*;

verus! {

// ---------------------------------------------------------------------------
// Bytes made of bits
// ---------------------------------------------------------------------------

/// The bits `0..8` of `x` are the truths of `f(0..8)`.
pub open spec fn byte_bits(x: u8, f: spec_fn(int) -> bool) -> bool {
    forall|t: int| 0 <= t < 8 ==> #[trigger] bit_of(x, t) == f(t)
}

/// The byte whose bits `0..8` are the truths of `f(0..8)`.
pub open spec fn byte_from(f: spec_fn(int) -> bool) -> u8 {
    choose|x: u8| byte_bits(x, f)
}

/// Setting bit `u` of a byte sets that bit and keeps the others.
pub proof fn lemma_bit_set(x: u8, u: int, t: int)
    requires
        0 <= u < 8,
        0 <= t < 8,
    ensures
        bit_of(x | (1u8 << (u as u8)), t) == (bit_of(x, t) || t == u),
{
    let uu = u as u8;
    let tt = t as u8;
    assert((((x | (1u8 << uu)) >> tt) & 1u8 == 1u8) == (((x >> tt) & 1u8 == 1u8) || tt == uu)) by (bit_vector)
        requires
            uu < 8,
            tt < 8,
    ;
}

/// No bit of zero is set.
pub(crate) proof fn lemma_bit_zero(t: int)
    requires
        0 <= t < 8,
    ensures
        !bit_of(0u8, t),
{
    let tt = t as u8;
    assert(((0u8 >> tt) & 1u8) != 1u8) by (bit_vector);
}

/// A byte is determined by its bits.
pub proof fn lemma_byte_unique(x: u8, y: u8)
    requires
        forall|t: int| 0 <= t < 8 ==> #[trigger] bit_of(x, t) == bit_of(y, t),
    ensures
        x == y,
{
    assert(bit_of(x, 0) == bit_of(y, 0));
    assert(bit_of(x, 1) == bit_of(y, 1));
    assert(bit_of(x, 2) == bit_of(y, 2));
    assert(bit_of(x, 3) == bit_of(y, 3));
    assert(bit_of(x, 4) == bit_of(y, 4));
    assert(bit_of(x, 5) == bit_of(y, 5));
    assert(bit_of(x, 6) == bit_of(y, 6));
    assert(bit_of(x, 7) == bit_of(y, 7));
    assert(x == y) by (bit_vector)
        requires
            (((x >> 0u8) & 1u8) == 1u8) == (((y >> 0u8) & 1u8) == 1u8),
            (((x >> 1u8) & 1u8) == 1u8) == (((y >> 1u8) & 1u8) == 1u8),
            (((x >> 2u8) & 1u8) == 1u8) == (((y >> 2u8) & 1u8) == 1u8),
            (((x >> 3u8) & 1u8) == 1u8) == (((y >> 3u8) & 1u8) == 1u8),
            (((x >> 4u8) & 1u8) == 1u8) == (((y >> 4u8) & 1u8) == 1u8),
            (((x >> 5u8) & 1u8) == 1u8) == (((y >> 5u8) & 1u8) == 1u8),
            (((x >> 6u8) & 1u8) == 1u8) == (((y >> 6u8) & 1u8) == 1u8),
            (((x >> 7u8) & 1u8) == 1u8) == (((y >> 7u8) & 1u8) == 1u8),
    ;
}

/// A byte with the first `n` bits given by `f` and the others clear.
proof fn byte_prefix(f: spec_fn(int) -> bool, n: int) -> (x: u8)
    requires
        0 <= n <= 8,
    ensures
        forall|t: int| 0 <= t < 8 ==> #[trigger] bit_of(x, t) == (t < n && f(t)),
    decreases n,
{
    if n == 0 {
        assert forall|t: int| 0 <= t < 8 implies #[trigger] bit_of(0u8, t) == (t < n && f(t)) by {
            lemma_bit_zero(t);
        }
        0u8
    } else {
        let y = byte_prefix(f, n - 1);
        if f(n - 1) {
            let x = y | (1u8 << ((n - 1) as u8));
            assert forall|t: int| 0 <= t < 8 implies #[trigger] bit_of(x, t) == (t < n && f(t)) by {
                lemma_bit_set(y, n - 1, t);
            }
            x
        } else {
            y
        }
    }
}

/// `byte_from(f)` has the bits `f` gives, and is the only such byte.
pub proof fn lemma_byte_from(f: spec_fn(int) -> bool)
    ensures
        byte_bits(byte_from(f), f),
        forall|y: u8| #[trigger] byte_bits(y, f) ==> y == byte_from(f),
{
    let x = byte_prefix(f, 8);
    assert(byte_bits(x, f));
    let c = byte_from(f);
    assert forall|y: u8| #[trigger] byte_bits(y, f) implies y == c by {
        assert forall|t: int| 0 <= t < 8 implies #[trigger] bit_of(y, t) == bit_of(c, t) by {
            assert(bit_of(y, t) == f(t));
        }
        lemma_byte_unique(y, c);
    }
}

// ---------------------------------------------------------------------------
// The array form
// ---------------------------------------------------------------------------

/// The values of runs, in increasing order.
pub open spec fn run_values(lr: Seq<(u32, u32)>) -> Seq<u32>
    decreases lr.len(),
{
    if lr.len() == 0 {
        seq![]
    } else {
        run_values(lr.drop_last()) + Seq::new((lr.last().1 - lr.last().0 + 1) as nat, |i: int| (lr.last().0 + i) as u32)
    }
}

/// Two little-endian bytes for each value.
pub open spec fn array_bytes(q: Seq<u32>) -> Seq<u8>
    decreases q.len(),
{
    if q.len() == 0 {
        seq![]
    } else {
        array_bytes(q.drop_last()) + le16_bytes(q.last() as int)
    }
}

/// The values of a container's runs come in increasing order, one for each
/// value the runs cover, and are below `2^16`.
pub proof fn lemma_run_values(lr: Seq<(u32, u32)>)
    requires
        forall|j: int| 0 <= j < lr.len() ==> #[trigger] lr[j].0 <= lr[j].1 && lr[j].1 <= 0xFFFF,
        forall|j: int| 0 < j < lr.len() ==> #[trigger] lr[j].0 > lr[j - 1].1,
    ensures
        run_values(lr).len() == runs_card(lr),
        forall|i: int, j: int| 0 <= i < j < run_values(lr).len() ==> run_values(lr)[i] < run_values(lr)[j],
        forall|v: u32| #[trigger] run_values(lr).contains(v) == in_runs(lr, v),
        forall|i: int| 0 <= i < run_values(lr).len() ==> run_values(lr)[i] <= 0xFFFF,
        lr.len() > 0 ==> forall|i: int| 0 <= i < run_values(lr).len() ==> run_values(lr)[i] <= lr.last().1,
    decreases lr.len(),
{
    if lr.len() > 0 {
        let t = lr.drop_last();
        assert forall|j: int| 0 <= j < t.len() implies #[trigger] t[j].0 <= t[j].1 && t[j].1 <= 0xFFFF by {
            assert(t[j] == lr[j]);
        }
        assert forall|j: int| 0 < j < t.len() implies #[trigger] t[j].0 > t[j - 1].1 by {
            assert(t[j] == lr[j] && t[j - 1] == lr[j - 1]);
        }
        lemma_run_values(t);
        let (lo, hi) = lr.last();
        let tail = Seq::new((hi - lo + 1) as nat, |i: int| (lo + i) as u32);
        let q = run_values(lr);
        assert(q == run_values(t) + tail);
        if t.len() > 0 {
            assert(t.last() == lr[lr.len() - 2]);
            assert(lr[lr.len() - 1].0 > lr[lr.len() - 2].1);
        }
        assert forall|i: int, j: int| 0 <= i < j < q.len() implies q[i] < q[j] by {
            if j >= run_values(t).len() && i < run_values(t).len() {
                assert(q[i] == run_values(t)[i]);
            }
        }
        assert forall|v: u32| #[trigger] q.contains(v) == in_runs(lr, v) by {
            if q.contains(v) {
                let i = choose|i: int| 0 <= i < q.len() && q[i] == v;
                if i < run_values(t).len() {
                    assert(run_values(t)[i] == v);
                    assert(run_values(t).contains(v));
                    let k = choose|k: int| 0 <= k < t.len() && #[trigger] t[k].0 <= v && v <= t[k].1;
                    assert(lr[k] == t[k]);
                } else {
                    assert(lr[lr.len() - 1].0 <= v && v <= lr[lr.len() - 1].1);
                }
            }
            if in_runs(lr, v) {
                let k = choose|k: int| 0 <= k < lr.len() && #[trigger] lr[k].0 <= v && v <= lr[k].1;
                if k < t.len() {
                    assert(t[k] == lr[k]);
                    assert(in_runs(t, v));
                    assert(run_values(t).contains(v));
                    let i = choose|i: int| 0 <= i < run_values(t).len() && run_values(t)[i] == v;
                    assert(q[i] == v);
                } else {
                    let i = v - lo;
                    assert(q[run_values(t).len() + i] == v);
                }
            }
        }
    }
}

pub(crate) proof fn lemma_array_bytes_len(q: Seq<u32>)
    ensures
        array_bytes(q).len() == 2 * q.len(),
    decreases q.len(),
{
    if q.len() > 0 {
        lemma_array_bytes_len(q.drop_last());
    }
}

/// Where `array_bytes(q)` is stored at `p`, value `i` reads back.
proof fn lemma_array_bytes_read(b: Seq<u8>, p: int, q: Seq<u32>, i: int)
    requires
        at(b, p, array_bytes(q)),
        forall|j: int| 0 <= j < q.len() ==> q[j] <= 0xFFFF,
        0 <= i < q.len(),
    ensures
        le16(b, p + 2 * i) == q[i],
    decreases q.len(),
{
    let t = q.drop_last();
    lemma_array_bytes_len(t);
    lemma_at_concat(b, p, array_bytes(t), le16_bytes(q.last() as int));
    if i < t.len() {
        assert forall|j: int| 0 <= j < t.len() implies t[j] <= 0xFFFF by {
            assert(t[j] == q[j]);
        }
        lemma_array_bytes_read(b, p, t, i);
        assert(t[i] == q[i]);
    } else {
        let w = le16_bytes(q.last() as int);
        assert(b[p + 2 * i + 0] == w[0]);
        assert(b[p + 2 * i + 1] == w[1]);
    }
}

/// The array form of a container reads back as its values.
pub proof fn lemma_array_read(b: Seq<u8>, p: int, lr: Seq<(u32, u32)>)
    requires
        local_ok(lr),
        at(b, p, array_bytes(run_values(lr))),
    ensures
        array_ok(b, p, runs_card(lr) as int),
        array_vals(b, p, runs_card(lr) as int) == runs_set(lr),
        array_bytes(run_values(lr)).len() == 2 * runs_card(lr),
{
    let q = run_values(lr);
    lemma_run_values(lr);
    lemma_array_bytes_len(q);
    let card = runs_card(lr) as int;
    assert forall|j: int| 0 <= j < card implies #[trigger] array_value(b, p, j) == q[j] by {
        lemma_array_bytes_read(b, p, q, j);
    }
    assert forall|j: int| 0 <= j < card - 1 implies #[trigger] array_value(b, p, j) < array_value(b, p, j + 1) by {
        assert(array_value(b, p, j + 1) == q[j + 1]);
    }
    assert forall|v: u32| #[trigger] array_vals(b, p, card).contains(v) == runs_set(lr).contains(v) by {
        if array_vals(b, p, card).contains(v) {
            let j = choose|j: int| 0 <= j < card && #[trigger] array_value(b, p, j) == v;
            assert(q[j] == v);
            assert(q.contains(v));
        }
        if runs_set(lr).contains(v) {
            assert(q.contains(v));
            let j = choose|j: int| 0 <= j < q.len() && q[j] == v;
            assert(array_value(b, p, j) == v);
        }
    }
    assert(array_vals(b, p, card) =~= runs_set(lr));
}

// ---------------------------------------------------------------------------
// The bitset form
// ---------------------------------------------------------------------------

/// Whether value `base + t` is in `s`.
pub open spec fn member_at(s: Set<u32>, base: int) -> spec_fn(int) -> bool {
    |t: int| s.contains((base + t) as u32)
}

/// The 8192 bytes with one bit for each value below `2^16`, set for the
/// values of `s`.
pub open spec fn bitset_bytes(s: Set<u32>) -> Seq<u8> {
    Seq::new(8192, |j: int| byte_from(member_at(s, 8 * j)))
}

/// The bitset form of a container reads back as its values.
pub proof fn lemma_bitset_read(b: Seq<u8>, p: int, lr: Seq<(u32, u32)>)
    requires
        local_ok(lr),
        at(b, p, bitset_bytes(runs_set(lr))),
    ensures
        bitset_ok(b, p, runs_card(lr) as int),
        bitset_vals(b, p) == runs_set(lr),
{
    let s = runs_set(lr);
    assert forall|v: u32| #[trigger] bitset_vals(b, p).contains(v) == s.contains(v) by {
        if v < 0x1_0000 {
            let j = v / 8;
            let t = v % 8;
            lemma_byte_from(member_at(s, 8 * j));
            assert(b[p + j] == bitset_bytes(s)[j as int]);
            assert(bit_of(b[p + j], t as int) == member_at(s, 8 * j)(t as int));
            assert((8 * j + t) as u32 == v);
        } else if s.contains(v) {
            let k = choose|k: int| 0 <= k < lr.len() && #[trigger] lr[k].0 <= v && v <= lr[k].1;
            assert(lr[k].1 <= 0xFFFF);
        }
    }
    assert(bitset_vals(b, p) =~= s);
    lemma_runs_len(lr);
}

/// The runs of a container hold as many values as they cover.
pub proof fn lemma_runs_len(lr: Seq<(u32, u32)>)
    requires
        local_ok(lr),
    ensures
        runs_set(lr).finite(),
        runs_set(lr).len() == runs_card(lr),
{
    let q = run_values(lr);
    lemma_run_values(lr);
    assert(q.no_duplicates()) by {
        assert forall|i: int, j: int| 0 <= i < q.len() && 0 <= j < q.len() && i != j implies q[i] != q[j] by {
            if i < j {
                assert(q[i] < q[j]);
            } else {
                assert(q[j] < q[i]);
            }
        }
    }
    q.unique_seq_to_set();
    assert(q.to_set() =~= runs_set(lr));
}

// ---------------------------------------------------------------------------
// Writing the forms
// ---------------------------------------------------------------------------

/// Writes the array form of a container.
pub(crate) fn write_array(lr: &Vec<(u32, u32)>, out: &mut Vec<u8>)
    requires
        local_ok(lr@),
    ensures
        final(out)@ == old(out)@ + array_bytes(run_values(lr@)),
{
    let ghost start = old(out)@;
    let mut j: usize = 0;
    proof {
        assert(lr@.take(0) =~= Seq::<(u32, u32)>::empty());
        assert(out@ =~= start + array_bytes(run_values(lr@.take(0))));
    }
    while j < lr.len()
        invariant
            local_ok(lr@),
            start == old(out)@,
            j <= lr@.len(),
            out@ == start + array_bytes(run_values(lr@.take(j as int))),
        decreases lr@.len() - j,
    {
        let (lo, hi) = lr[j];
        assert(lo <= hi && hi <= 0xFFFF);
        let ghost before = run_values(lr@.take(j as int));
        let mut v: u32 = lo;
        proof {
            assert(before + Seq::new((v - lo) as nat, |i: int| (lo + i) as u32) =~= before);
        }
        while v <= hi
            invariant
                lo <= v <= hi + 1,
                hi <= 0xFFFF,
                out@ == start + array_bytes(before + Seq::new((v - lo) as nat, |i: int| (lo + i) as u32)),
            decreases hi + 1 - v,
        {
            let w = u16_le_bytes(v as u16);
            out.push(w[0]);
            out.push(w[1]);
            proof {
                let q0 = before + Seq::new((v - lo) as nat, |i: int| (lo + i) as u32);
                let q1 = before + Seq::new((v + 1 - lo) as nat, |i: int| (lo + i) as u32);
                assert(q1.drop_last() =~= q0);
                assert(q1.last() == v);
                assert(out@ =~= start + array_bytes(q1));
            }
            v = v + 1;
        }
        proof {
            let t = lr@.take(j + 1);
            assert(t.drop_last() =~= lr@.take(j as int));
            assert(t.last() == (lo, hi));
            assert(run_values(t) =~= before + Seq::new((v - lo) as nat, |i: int| (lo + i) as u32));
        }
        j = j + 1;
    }
    proof {
        assert(lr@.take(lr@.len() as int) == lr@);
    }
}

/// Writes the bitset form of a container.
pub(crate) fn write_bitset(lr: &Vec<(u32, u32)>, out: &mut Vec<u8>)
    requires
        local_ok(lr@),
    ensures
        final(out)@ == old(out)@ + bitset_bytes(runs_set(lr@)),
{
    let mut bytes: Vec<u8> = Vec::new();
    let mut z: usize = 0;
    while z < 8192
        invariant
            z <= 8192,
            bytes@.len() == z,
            forall|j: int| 0 <= j < z ==> bytes@[j] == 0u8,
        decreases 8192 - z,
    {
        bytes.push(0u8);
        z = z + 1;
    }
    proof {
        assert(lr@.take(0) =~= Seq::<(u32, u32)>::empty());
        assert forall|j: int, t: int| 0 <= j < 8192 && 0 <= t < 8 implies #[trigger] bit_of(bytes@[j], t) == runs_set(
            lr@.take(0),
        ).contains((8 * j + t) as u32) by {
            lemma_bit_zero(t);
        }
    }
    let mut k: usize = 0;
    while k < lr.len()
        invariant
            local_ok(lr@),
            k <= lr@.len(),
            bytes@.len() == 8192,
            forall|j: int, t: int| 0 <= j < 8192 && 0 <= t < 8 ==> #[trigger] bit_of(bytes@[j], t) == runs_set(
                lr@.take(k as int),
            ).contains((8 * j + t) as u32),
        decreases lr@.len() - k,
    {
        let (lo, hi) = lr[k];
        assert(lo <= hi && hi <= 0xFFFF);
        let ghost done = runs_set(lr@.take(k as int));
        let mut v: u32 = lo;
        while v <= hi
            invariant
                lo <= v <= hi + 1,
                hi <= 0xFFFF,
                bytes@.len() == 8192,
                forall|j: int, t: int| 0 <= j < 8192 && 0 <= t < 8 ==> #[trigger] bit_of(bytes@[j], t) == (done.contains(
                    (8 * j + t) as u32,
                ) || (lo <= 8 * j + t < v)),
            decreases hi + 1 - v,
        {
            let j = (v / 8) as usize;
            let t = (v % 8) as u8;
            let old_byte = bytes[j];
            let ghost prev = bytes@;
            bytes[j] = old_byte | (1u8 << t);
            proof {
                assert forall|jj: int, tt: int| 0 <= jj < 8192 && 0 <= tt < 8 implies #[trigger] bit_of(bytes@[jj], tt) == (
                done.contains((8 * jj + tt) as u32) || (lo <= 8 * jj + tt < v + 1)) by {
                    if jj == j {
                        lemma_bit_set(old_byte, t as int, tt);
                        assert(bit_of(prev[jj], tt) == (done.contains((8 * jj + tt) as u32) || (lo <= 8 * jj + tt < v)));
                    } else {
                        assert(bytes@[jj] == prev[jj]);
                        assert(8 * jj + tt != v);
                    }
                }
            }
            v = v + 1;
        }
        proof {
            let t = lr@.take(k + 1);
            assert(t =~= lr@.take(k as int).push((lo, hi)));
            crate::runs::lemma_runs_set_push(lr@.take(k as int), (lo, hi));
            assert forall|j: int, tt: int| 0 <= j < 8192 && 0 <= tt < 8 implies #[trigger] bit_of(bytes@[j], tt) == runs_set(
                t,
            ).contains((8 * j + tt) as u32) by {
                assert(crate::runs::interval(lo as int, hi as int).contains((8 * j + tt) as u32) == (lo <= 8 * j + tt < v));
            }
        }
        k = k + 1;
    }
    proof {
        assert(lr@.take(lr@.len() as int) == lr@);
        let s = runs_set(lr@);
        assert forall|j: int| 0 <= j < 8192 implies bytes@[j] == #[trigger] bitset_bytes(s)[j] by {
            let f = member_at(s, 8 * j);
            lemma_byte_from(f);
            assert forall|t: int| 0 <= t < 8 implies #[trigger] bit_of(bytes@[j], t) == f(t) by {
                assert(bit_of(bytes@[j], t) == s.contains((8 * j + t) as u32));
            }
            assert(byte_bits(bytes@[j], f));
        }
        assert(bytes@ =~= bitset_bytes(s));
    }
    crate::bytes::push_bytes(out, bytes.as_slice());
}

} // verus!
