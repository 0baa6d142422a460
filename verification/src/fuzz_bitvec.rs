//! Operations drawn by a fuzzer, applied both to a bitmap and to a bit vector
//! that holds one bit per value; the two are shown to agree after each one.
use crate::bitmap::{below, strictly_increasing, Bitmap};
use crate::encode::lemma_increasing_unique;
use crate::fuzz_ops::{
    below_max, built, compared, every_other, mutated, num_range_exec, BitmapCompOperation, FuzzInput,
    MutableBitmapOperation, ReadBitmapOp, MAX_NUM,
};
use crate::runs::interval;
use bitvec::vec::BitVec;
use vstd::prelude::*;

verus! {

/// A bit vector: bit `i` stands for the value `i`.
#[verifier::external_body]
pub struct Bits {
    v: BitVec,
}

/// The bits of a bit vector, in order.
pub uninterp spec fn bits(b: Bits) -> Seq<bool>;

/// The positions of the set bits of `s` in `[lo, hi]`.
pub open spec fn ones_between(s: Seq<bool>, lo: int, hi: int) -> Set<int> {
    Set::new(|i: int| lo <= i <= hi && 0 <= i < s.len() && s[i])
}

/// `s` holds a set bit at `i` exactly for the values `i` of `b`.
pub open spec fn models(s: Seq<bool>, b: Set<u32>) -> bool {
    &&& s.len() <= 0x1_0000_0000
    &&& forall|x: u32| #[trigger] b.contains(x) ==> x < s.len()
    &&& forall|i: int| 0 <= i < s.len() ==> #[trigger] s[i] == b.contains(i as u32)
}

/// The bits of `s` with those of `[lo, hi]` replaced by `f` of the old bit.
pub open spec fn mapped_between(s: Seq<bool>, lo: int, hi: int, f: spec_fn(bool) -> bool) -> Seq<bool> {
    Seq::new(s.len(), |i: int| if lo <= i <= hi { f(s[i]) } else { s[i] })
}

/// Each position of `q` is below the next.
pub open spec fn increasing(q: Seq<usize>) -> bool {
    forall|i: int, j: int| 0 <= i < j < q.len() ==> q[i] < q[j]
}

impl Bits {
    /// `len` cleared bits (`BitVec::repeat`).
    #[verifier::external_body]
    fn repeat_cleared(len: usize) -> (r: Bits)
        requires
            len <= usize::MAX / 8,
        ensures
            bits(r) == Seq::new(len as nat, |i: int| false),
    {
        Bits { v: BitVec::repeat(false, len) }
    }

    /// The number of bits (`BitSlice::len`), which never exceeds
    /// `BitSlice::MAX_BITS`, a bit vector's bound of `usize::MAX >> 3` bits.
    #[verifier::external_body]
    fn len(&self) -> (r: usize)
        ensures
            r == bits(*self).len(),
            r <= usize::MAX / 8,
    {
        self.v.len()
    }

    /// The bit at `i` (indexing a `BitSlice`, which panics out of bounds).
    #[verifier::external_body]
    fn at(&self, i: usize) -> (r: bool)
        requires
            i < bits(*self).len(),
        ensures
            r == bits(*self)[i as int],
    {
        self.v[i]
    }

    /// Writes `value` into the bit at `i` (`BitSlice::set`, which panics out
    /// of bounds).
    #[verifier::external_body]
    fn set(&mut self, i: usize, value: bool)
        requires
            i < bits(*old(self)).len(),
        ensures
            bits(*final(self)) == bits(*old(self)).update(i as int, value),
    {
        self.v.set(i, value)
    }

    /// Writes `value` into every bit of `[lo, hi]` (`BitSlice::fill` on the
    /// slice `lo..=hi`, which panics unless `lo <= hi < len`).
    #[verifier::external_body]
    fn fill(&mut self, lo: usize, hi: usize, value: bool)
        requires
            lo <= hi < bits(*old(self)).len(),
        ensures
            bits(*final(self)) == mapped_between(bits(*old(self)), lo as int, hi as int, |b: bool| value),
    {
        self.v[lo..=hi].fill(value)
    }

    /// Inverts every bit of `[lo, hi]` (`Not` on the mutable slice `lo..=hi`).
    #[verifier::external_body]
    fn invert(&mut self, lo: usize, hi: usize)
        requires
            lo <= hi < bits(*old(self)).len(),
        ensures
            bits(*final(self)) == mapped_between(bits(*old(self)), lo as int, hi as int, |b: bool| !b),
    {
        let _ = !&mut self.v[lo..=hi];
    }

    /// Whether every bit of `[lo, hi]` is set (`BitSlice::all`).
    #[verifier::external_body]
    fn all_set(&self, lo: usize, hi: usize) -> (r: bool)
        requires
            lo <= hi < bits(*self).len(),
        ensures
            r == forall|i: int| lo <= i <= hi ==> #[trigger] bits(*self)[i],
    {
        self.v[lo..=hi].all()
    }

    /// Whether some bit of `[lo, hi]` is set (`BitSlice::any`).
    #[verifier::external_body]
    fn any_set(&self, lo: usize, hi: usize) -> (r: bool)
        requires
            lo <= hi < bits(*self).len(),
        ensures
            r == (exists|i: int| lo <= i <= hi && #[trigger] bits(*self)[i]),
    {
        self.v[lo..=hi].any()
    }

    /// The number of set bits in `[lo, hi]` (`BitSlice::count_ones` on the
    /// slice).
    #[verifier::external_body]
    fn count_between(&self, lo: usize, hi: usize) -> (r: usize)
        requires
            lo <= hi < bits(*self).len(),
        ensures
            r == ones_between(bits(*self), lo as int, hi as int).len(),
    {
        self.v[lo..=hi].count_ones()
    }

    /// The number of set bits (`BitSlice::count_ones`).
    #[verifier::external_body]
    fn count_ones(&self) -> (r: usize)
        ensures
            r == ones_between(bits(*self), 0, bits(*self).len() - 1).len(),
    {
        self.v.count_ones()
    }

    /// Whether no bit is set (`BitSlice::not_any`).
    #[verifier::external_body]
    fn not_any(&self) -> (r: bool)
        ensures
            r == forall|i: int| 0 <= i < bits(*self).len() ==> !#[trigger] bits(*self)[i],
    {
        self.v.not_any()
    }

    /// The position of the first set bit (`BitSlice::first_one`).
    #[verifier::external_body]
    fn first_one(&self) -> (r: Option<usize>)
        ensures
            r is None ==> forall|i: int| 0 <= i < bits(*self).len() ==> !#[trigger] bits(*self)[i],
            r matches Some(i) ==> i < bits(*self).len() && bits(*self)[i as int] && forall|j: int|
                0 <= j < i ==> !#[trigger] bits(*self)[j],
    {
        self.v.first_one()
    }

    /// The position of the last set bit (`BitSlice::last_one`).
    #[verifier::external_body]
    fn last_one(&self) -> (r: Option<usize>)
        ensures
            r is None ==> forall|i: int| 0 <= i < bits(*self).len() ==> !#[trigger] bits(*self)[i],
            r matches Some(i) ==> i < bits(*self).len() && bits(*self)[i as int] && forall|j: int|
                i < j < bits(*self).len() ==> !#[trigger] bits(*self)[j],
    {
        self.v.last_one()
    }

    /// The positions of the set bits, in increasing order (collected from
    /// `BitSlice::iter_ones`).
    #[verifier::external_body]
    fn iter_ones(&self) -> (r: Vec<usize>)
        ensures
            increasing(r@),
            forall|p: usize| r@.contains(p) <==> (p < bits(*self).len() && bits(*self)[p as int]),
    {
        self.v.iter_ones().collect()
    }

    /// Clears every bit that is not set in `other` too; bits past the end of
    /// `other` are cleared (`BitAndAssign` of a `BitVec` into a `BitVec`).
    #[verifier::external_body]
    fn and_assign(&mut self, other: &Bits)
        ensures
            bits(*final(self)).len() == bits(*old(self)).len(),
            forall|i: int| 0 <= i < bits(*old(self)).len() ==> #[trigger] bits(*final(self))[i] == (bits(*old(self))[i]
                && i < bits(*other).len() && bits(*other)[i]),
    {
        self.v &= &other.v;
    }

    /// The number of bits.
    pub fn length(&self) -> (r: usize)
        ensures
            r == bits(*self).len(),
    {
        self.len()
    }

    /// The number of set bits.
    pub fn count(&self) -> (r: usize)
        ensures
            r == ones_between(bits(*self), 0, bits(*self).len() - 1).len(),
    {
        self.count_ones()
    }

    /// A bit vector of `len` cleared bits.
    pub fn cleared(len: usize) -> (r: Bits)
        requires
            len <= usize::MAX / 8,
        ensures
            bits(r) == Seq::new(len as nat, |i: int| false),
    {
        Self::repeat_cleared(len)
    }
}

/// Under a model, counting the set bits of `[lo, hi]` counts the values of
/// the set in that range.
proof fn lemma_count_models(s: Seq<bool>, b: Set<u32>, lo: int, hi: int)
    requires
        models(s, b),
        b.finite(),
        0 <= lo,
    ensures
        ones_between(s, lo, hi).len() == b.intersect(interval(lo, hi)).len(),
{
    let f = |x: u32| x as int;
    let part = b.intersect(interval(lo, hi));
    assert forall|i: int| #[trigger] ones_between(s, lo, hi).contains(i) implies part.map(f).contains(i) by {
        let x = i as u32;
        assert(s[i] == b.contains(x));
        assert(part.contains(x) && f(x) == i);
    }
    assert forall|i: int| #[trigger] part.map(f).contains(i) implies ones_between(s, lo, hi).contains(i) by {
        let x = choose|x: u32| part.contains(x) && f(x) == i;
        assert(s[x as int] == b.contains(x));
    }
    assert(part.map(f) =~= ones_between(s, lo, hi));
    assert(part.finite());
    vstd::set_lib::lemma_map_size(part, ones_between(s, lo, hi), f);
}

/// A strictly increasing sequence holds each of its values once, so its first
/// `j` values make a set of `j` values.
proof fn lemma_prefix_len(q: Seq<u32>, j: int)
    requires
        strictly_increasing(q),
        0 <= j <= q.len(),
    ensures
        q.take(j).to_set().len() == j,
{
    assert(q.take(j).no_duplicates()) by {
        assert forall|a: int, b: int| 0 <= a < q.take(j).len() && 0 <= b < q.take(j).len() && a != b implies
            q.take(j)[a] != q.take(j)[b] by {
            if a < b {
                assert(q[a] < q[b]);
            } else {
                assert(q[b] < q[a]);
            }
        }
    }
    q.take(j).unique_seq_to_set();
}

/// In a strictly increasing listing of `s`, the values below the one at `j`
/// are the first `j`.
proof fn lemma_below_prefix(q: Seq<u32>, s: Set<u32>, j: int)
    requires
        strictly_increasing(q),
        forall|x: u32| #[trigger] q.contains(x) == s.contains(x),
        0 <= j < q.len(),
    ensures
        below(s, q[j] as int) == q.take(j).to_set(),
{
    assert forall|x: u32| #[trigger] below(s, q[j] as int).contains(x) == q.take(j).to_set().contains(x) by {
        if below(s, q[j] as int).contains(x) {
            assert(q.contains(x));
            let k = choose|k: int| 0 <= k < q.len() && q[k] == x;
            if k >= j {
                if k > j {
                    assert(q[j] < q[k]);
                }
            }
            assert(q.take(j)[k] == x);
        }
        if q.take(j).to_set().contains(x) {
            let k = choose|k: int| 0 <= k < q.take(j).len() && q.take(j)[k] == x;
            assert(q[k] == x && q[k] < q[j]);
            assert(q.contains(x));
        }
    }
    assert(below(s, q[j] as int) =~= q.take(j).to_set());
}

/// The positions of the set bits of `v`, as values, in increasing order.
pub fn set_values(v: &Bits) -> (r: Vec<u32>)
    requires
        bits(*v).len() <= 0x1_0000_0000,
    ensures
        strictly_increasing(r@),
        forall|x: u32| #[trigger] r@.contains(x) <==> (x < bits(*v).len() && bits(*v)[x as int]),
{
    let ones = v.iter_ones();
    let mut r: Vec<u32> = Vec::new();
    let mut k: usize = 0;
    while k < ones.len()
        invariant
            k <= ones@.len(),
            increasing(ones@),
            forall|p: usize| ones@.contains(p) <==> (p < bits(*v).len() && bits(*v)[p as int]),
            bits(*v).len() <= 0x1_0000_0000,
            r@.len() == k,
            forall|i: int| 0 <= i < k ==> #[trigger] r@[i] == ones@[i],
        decreases ones@.len() - k,
    {
        assert(ones@.contains(ones@[k as int]));
        r.push(ones[k] as u32);
        k = k + 1;
    }
    proof {
        assert forall|x: u32| #[trigger] r@.contains(x) <==> (x < bits(*v).len() && bits(*v)[x as int]) by {
            if r@.contains(x) {
                let i = choose|i: int| 0 <= i < r@.len() && r@[i] == x;
                assert(ones@.contains(ones@[i]));
            }
            if x < bits(*v).len() && bits(*v)[x as int] {
                assert(ones@.contains(x as usize));
                let i = choose|i: int| 0 <= i < ones@.len() && ones@[i] == x as usize;
                assert(r@[i] == x);
            }
        }
        assert forall|i: int, j: int| 0 <= i < j < r@.len() implies r@[i] < r@[j] by {
            assert(ones@.contains(ones@[j]));
        }
    }
    r
}

/// The ranges and the value that a read looks up in the bit vector lie within
/// its `len` bits (indexing a bit vector out of bounds panics).
pub open spec fn read_in_bounds(op: ReadBitmapOp, len: int) -> bool {
    match op {
        ReadBitmapOp::ContainsRange(r) => r.start.0 <= r.last.0 < len,
        ReadBitmapOp::Contains(i) => i.0 < len,
        ReadBitmapOp::Index(i) => i.0 < len,
        ReadBitmapOp::RangeCardinality(r) => r.start.0 <= r.last.0 < len,
        ReadBitmapOp::IntersectWithRange(r) => r.start.0 <= r.last.0 < len,
        _ => true,
    }
}

impl ReadBitmapOp {
    /// Performs the read on `b` and on the bit vector `v` that holds the same
    /// values; the two answers agree.
    pub fn on_both(&self, b: &Bitmap, v: &Bits)
        requires
            models(bits(*v), b@),
            read_in_bounds(*self, bits(*v).len() as int),
    {
        proof {
            b.lemma_finite();
        }
        let ghost s = bits(*v);
        match self {
            ReadBitmapOp::ContainsRange(r) => {
                let x = v.all_set(r.start.0 as usize, r.last.0 as usize);
                let y = b.contains_range(num_range_exec(r));
                proof {
                    let range = interval(r.start.0 as int, r.last.0 as int);
                    if x {
                        assert forall|u: u32| range.contains(u) implies b@.contains(u) by {
                            assert(s[u as int]);
                        }
                    }
                    if y {
                        assert forall|i: int| r.start.0 <= i <= r.last.0 implies #[trigger] s[i] by {
                            assert(range.contains(i as u32));
                        }
                    }
                }
                assert(x == y);
            },
            ReadBitmapOp::Contains(i) => {
                let x = v.at(i.0 as usize);
                let y = b.contains(i.0);
                assert(x == y);
            },
            ReadBitmapOp::RangeCardinality(r) => {
                let x = v.count_between(r.start.0 as usize, r.last.0 as usize);
                let y = b.range_cardinality(num_range_exec(r));
                proof {
                    lemma_count_models(s, b@, r.start.0 as int, r.last.0 as int);
                }
                assert(x as u64 == y);
            },
            ReadBitmapOp::Cardinality => {
                let x = v.count_ones();
                let y = b.cardinality();
                proof {
                    lemma_count_models(s, b@, 0, s.len() - 1);
                    assert(b@.intersect(interval(0, s.len() - 1)) =~= b@);
                }
                assert(x as u64 == y);
            },
            ReadBitmapOp::ToVec => {
                let vec_iter = b.to_vec();
                let ones = set_values(v);
                proof {
                    lemma_increasing_unique(vec_iter@, ones@);
                }
                assert(vec_iter@ == ones@);
            },
            ReadBitmapOp::IsEmpty => {
                let x = v.not_any();
                let y = b.is_empty();
                proof {
                    if x {
                        assert forall|u: u32| !b@.contains(u) by {
                            if b@.contains(u) {
                                assert(s[u as int]);
                            }
                        }
                        assert(b@ =~= Set::<u32>::empty());
                    }
                    if y {
                        assert forall|i: int| 0 <= i < s.len() implies !#[trigger] s[i] by {
                            assert(!b@.contains(i as u32));
                        }
                    }
                }
                assert(x == y);
            },
            ReadBitmapOp::IntersectWithRange(r) => {
                let x = v.any_set(r.start.0 as usize, r.last.0 as usize);
                let y = b.intersect_with_range(num_range_exec(r));
                proof {
                    let range = interval(r.start.0 as int, r.last.0 as int);
                    if x {
                        let i = choose|i: int| r.start.0 <= i <= r.last.0 && #[trigger] s[i];
                        assert(b@.contains(i as u32) && range.contains(i as u32));
                    }
                    if y {
                        let u = choose|u: u32| b@.contains(u) && range.contains(u);
                        assert(s[u as int]);
                    }
                }
                assert(x == y);
            },
            ReadBitmapOp::Minimum => {
                let first = v.first_one();
                let x: Option<u32> = match first {
                    Some(p) => Some(p as u32),
                    None => None,
                };
                let y = b.minimum();
                proof {
                    match first {
                        Some(p) => {
                            assert(b@.contains(p as u32));
                            let m = y->0;
                            assert(s[m as int]);
                        },
                        None => {
                            if y is Some {
                                assert(s[y->0 as int]);
                            }
                        },
                    }
                }
                assert(x == y);
            },
            ReadBitmapOp::Maximum => {
                let last = v.last_one();
                let x: Option<u32> = match last {
                    Some(p) => Some(p as u32),
                    None => None,
                };
                let y = b.maximum();
                proof {
                    match last {
                        Some(p) => {
                            assert(b@.contains(p as u32));
                            let m = y->0;
                            assert(s[m as int]);
                        },
                        None => {
                            if y is Some {
                                assert(s[y->0 as int]);
                            }
                        },
                    }
                }
                assert(x == y);
            },
            ReadBitmapOp::Rank(i) => {
                let ones = set_values(v);
                let mut c: usize = 0;
                while c < ones.len() && ones[c] <= i.0
                    invariant
                        c <= ones@.len(),
                        forall|k: int| 0 <= k < c ==> #[trigger] ones@[k] <= i.0,
                    decreases ones@.len() - c,
                {
                    c = c + 1;
                }
                let y = b.rank(i.0);
                proof {
                    lemma_prefix_len(ones@, c as int);
                    assert forall|u: u32| #[trigger] ones@.take(c as int).to_set().contains(u) == b@.filter(
                        |w: u32| w <= i.0,
                    ).contains(u) by {
                        if ones@.take(c as int).to_set().contains(u) {
                            let k = choose|k: int| 0 <= k < c && ones@.take(c as int)[k] == u;
                            assert(ones@.contains(ones@[k]));
                        }
                        if b@.contains(u) && u <= i.0 {
                            assert(s[u as int]);
                            assert(ones@.contains(u));
                            let k = choose|k: int| 0 <= k < ones@.len() && ones@[k] == u;
                            if k >= c {
                                if k > c {
                                    assert(ones@[c as int] < ones@[k]);
                                }
                            }
                            assert(ones@.take(c as int)[k] == u);
                        }
                    }
                    assert(ones@.take(c as int).to_set() =~= b@.filter(|w: u32| w <= i.0));
                }
                assert(c as u64 == y);
            },
            ReadBitmapOp::Index(i) => {
                let actual = b.position(i.0);
                let here = v.at(i.0 as usize);
                match actual {
                    Some(p) => {
                        assert(here);
                        let before: usize = if i.0 == 0 {
                            0
                        } else {
                            v.count_between(0, (i.0 - 1) as usize)
                        };
                        proof {
                            if i.0 > 0 {
                                lemma_count_models(s, b@, 0, i.0 - 1);
                                assert(b@.intersect(interval(0, i.0 - 1)) =~= below(b@, i.0 as int));
                            } else {
                                assert(below(b@, 0) =~= Set::<u32>::empty());
                            }
                        }
                        assert(before as int == p as int);
                    },
                    None => {
                        assert(!here);
                    },
                }
            },
            ReadBitmapOp::Select(i) => {
                let ones = set_values(v);
                let x: Option<u32> = if (i.0 as usize) < ones.len() {
                    Some(ones[i.0 as usize])
                } else {
                    None
                };
                let y = b.select(i.0);
                proof {
                    lemma_prefix_len(ones@, ones@.len() as int);
                    assert(ones@.take(ones@.len() as int) == ones@);
                    assert(ones@.to_set() =~= b@) by {
                        assert forall|u: u32| #[trigger] ones@.to_set().contains(u) == b@.contains(u) by {
                            if b@.contains(u) {
                                assert(s[u as int]);
                            }
                        }
                    }
                    match y {
                        Some(w) => {
                            assert(s[w as int]);
                            assert(ones@.contains(w));
                            let k = choose|k: int| 0 <= k < ones@.len() && ones@[k] == w;
                            lemma_below_prefix(ones@, b@, k);
                            lemma_prefix_len(ones@, k);
                        },
                        None => {},
                    }
                }
                assert(x == y);
            },
            _ => {
                self.on_roaring(b);
            },
        }
    }
}

/// The values whose bits are set in `s`.
pub open spec fn values_of(s: Seq<bool>) -> Set<u32> {
    Set::new(|x: u32| x < s.len() && s[x as int])
}

/// Some of the first `k` numbers of `items` is `j`.
pub open spec fn listed(items: Seq<crate::fuzz_ops::Num>, k: int, j: int) -> bool {
    exists|t: int| 0 <= t < k && items[t].0 == j
}

/// The values and the ranges that a change writes lie within `len` bits.
pub open spec fn write_in_bounds(op: MutableBitmapOperation, len: int) -> bool {
    match op {
        MutableBitmapOperation::Add(i) => i.0 < len,
        MutableBitmapOperation::AddChecked(i) => i.0 < len,
        MutableBitmapOperation::AddMany(items) => forall|k: int| 0 <= k < items.len() ==> #[trigger] items@[k].0 < len,
        MutableBitmapOperation::AddRange(r) => r.start.0 <= r.last.0 < len,
        MutableBitmapOperation::RemoveRange(r) => r.start.0 <= r.last.0 < len,
        MutableBitmapOperation::Remove(i) => i.0 < len,
        MutableBitmapOperation::RemoveChecked(i) => i.0 < len,
        MutableBitmapOperation::FlipInplace(r) => r.start.0 <= r.last.0 < len,
        _ => true,
    }
}

impl MutableBitmapOperation {
    /// Applies the change to a bit vector of [`MAX_NUM`] bits, which then
    /// holds the values that the change leaves in a bitmap below [`MAX_NUM`].
    pub fn on_bitvec(&self, b: &mut Bits)
        requires
            bits(*old(b)).len() == MAX_NUM,
            write_in_bounds(*self, MAX_NUM as int),
        ensures
            bits(*final(b)).len() == MAX_NUM,
            models(bits(*final(b)), mutated(*self, values_of(bits(*old(b)))).intersect(below_max())),
    {
        let ghost s0 = bits(*b);
        let ghost v0 = values_of(s0);
        match self {
            MutableBitmapOperation::Add(i) => {
                b.set(i.0 as usize, true);
            },
            MutableBitmapOperation::AddChecked(i) => {
                b.set(i.0 as usize, true);
            },
            MutableBitmapOperation::AddMany(items) => {
                let mut k: usize = 0;
                while k < items.len()
                    invariant
                        k <= items@.len(),
                        forall|t: int| 0 <= t < items.len() ==> #[trigger] items@[t].0 < MAX_NUM,
                        bits(*b).len() == MAX_NUM,
                        forall|j: int| 0 <= j < MAX_NUM ==> #[trigger] bits(*b)[j] == (s0[j] || listed(items@, k as int, j)),
                    decreases items@.len() - k,
                {
                    let ghost pre = bits(*b);
                    b.set(items[k].0 as usize, true);
                    proof {
                        assert forall|j: int| 0 <= j < MAX_NUM implies #[trigger] bits(*b)[j] == (s0[j] || listed(
                            items@,
                            k + 1,
                            j,
                        )) by {
                            if j != items@[k as int].0 {
                                assert(bits(*b)[j] == pre[j]);
                                if listed(items@, k + 1, j) {
                                    let t = choose|t: int| 0 <= t < k + 1 && items@[t].0 == j;
                                    assert(t < k);
                                }
                            } else {
                                assert(items@[k as int].0 == j);
                            }
                        }
                    }
                    k = k + 1;
                }
                proof {
                    let f = |n: crate::fuzz_ops::Num| n.0;
                    assert forall|j: int| 0 <= j < MAX_NUM implies #[trigger] listed(items@, items@.len() as int, j)
                        == items@.map_values(f).to_set().contains(j as u32) by {
                        if listed(items@, items@.len() as int, j) {
                            let t = choose|t: int| 0 <= t < items.len() && items@[t].0 == j;
                            assert(items@.map_values(f)[t] == j as u32);
                        }
                        if items@.map_values(f).to_set().contains(j as u32) {
                            let t = choose|t: int| 0 <= t < items@.map_values(f).len() && items@.map_values(f)[t] == j as u32;
                            assert(items@[t].0 == j);
                        }
                    }
                }
            },
            MutableBitmapOperation::AddRange(r) => {
                b.fill(r.start.0 as usize, r.last.0 as usize, true);
            },
            MutableBitmapOperation::RemoveRange(r) => {
                b.fill(r.start.0 as usize, r.last.0 as usize, false);
            },
            MutableBitmapOperation::Clear => {
                let len = b.len();
                b.fill(0, len - 1, false);
            },
            MutableBitmapOperation::Remove(i) => {
                b.set(i.0 as usize, false);
            },
            MutableBitmapOperation::RemoveChecked(i) => {
                b.set(i.0 as usize, false);
            },
            MutableBitmapOperation::FlipInplace(r) => {
                b.invert(r.start.0 as usize, r.last.0 as usize);
            },
            MutableBitmapOperation::ShrinkToFit
            | MutableBitmapOperation::RunOptimize
            | MutableBitmapOperation::RemoveRunCompression => {},
            MutableBitmapOperation::MakeBitmap { key } => {
                if *key < (MAX_NUM / 0x1_0000) as u16 {
                    let start: usize = (*key as usize) * 0x1_0000;
                    let end: usize = start + 9 * 1024;
                    let mut i: usize = start;
                    while i < end
                        invariant
                            start == key * 0x1_0000,
                            key < 4,
                            end == start + 9 * 1024,
                            start <= i <= end + 1,
                            (i - start) % 2 == 0,
                            bits(*b).len() == MAX_NUM,
                            forall|j: int| 0 <= j < MAX_NUM ==> #[trigger] bits(*b)[j] == (s0[j] || (start <= j < i
                                && (j - start) % 2 == 0)),
                        decreases end - i,
                    {
                        b.set(i, true);
                        i = i + 2;
                    }
                }
            },
            MutableBitmapOperation::MakeRange { key } => {
                if *key < (MAX_NUM / 0x1_0000) as u16 {
                    let start: usize = (*key as usize) * 0x1_0000;
                    let end: usize = start + 0x0_FFFF;
                    b.fill(start, end, true);
                }
            },
        }
        proof {
            let t = mutated(*self, v0).intersect(below_max());
            assert forall|j: int| 0 <= j < MAX_NUM implies #[trigger] bits(*b)[j] == t.contains(j as u32) by {
                assert(s0[j] == v0.contains(j as u32));
                match *self {
                    MutableBitmapOperation::MakeBitmap { key } => {
                        if key >= 4 {
                            assert(!every_other(key * 0x1_0000).contains(j as u32));
                        }
                    },
                    MutableBitmapOperation::MakeRange { key } => {},
                    _ => {},
                }
            }
        }
    }
}

/// Some of the first `k` values of `q` is `j`.
pub open spec fn among(q: Seq<u32>, k: int, j: int) -> bool {
    exists|t: int| 0 <= t < k && q[t] == j
}

/// One step further, the first `k + 1` values of `q` hold `j` when the first
/// `k` do or the next one is `j`.
proof fn lemma_among_next(q: Seq<u32>, k: int, j: int)
    requires
        0 <= k < q.len(),
    ensures
        among(q, k + 1, j) == (among(q, k, j) || q[k] == j),
{
    if among(q, k + 1, j) && q[k] != j {
        let t = choose|t: int| 0 <= t < k + 1 && q[t] == j;
        assert(t < k);
    }
    if q[k] == j {
        assert(0 <= k < k + 1 && q[k] == j);
    }
}

/// When a strictly increasing listing of `s` has been walked up to `k`, where
/// it reaches `len` or ends, the values met below `len` are those of `s`.
proof fn lemma_walked_below(q: Seq<u32>, s: Set<u32>, k: int, len: int, j: int)
    requires
        strictly_increasing(q),
        forall|x: u32| #[trigger] q.contains(x) == s.contains(x),
        0 <= k <= q.len(),
        k < q.len() ==> q[k] >= len,
        0 <= j < len <= 0x1_0000_0000,
    ensures
        among(q, k, j) == s.contains(j as u32),
{
    if s.contains(j as u32) {
        assert(q.contains(j as u32));
        let t = choose|t: int| 0 <= t < q.len() && q[t] == j as u32;
        if t >= k {
            if t > k {
                assert(q[k] < q[t]);
            }
        }
        assert(q[t] == j);
    }
    if among(q, k, j) {
        let t = choose|t: int| 0 <= t < k && q[t] == j;
        assert(q.contains(q[t]));
    }
}

/// A model holds exactly the values of the set it models.
proof fn lemma_models_values(s: Seq<bool>, b: Set<u32>)
    requires
        models(s, b),
    ensures
        values_of(s) == b,
{
    assert forall|x: u32| #[trigger] values_of(s).contains(x) == b.contains(x) by {
        if b.contains(x) {
            assert(s[x as int] == b.contains(x));
        }
    }
    assert(values_of(s) =~= b);
}

/// A bit vector of `max` bits holding the values of `b` below `max`.
pub fn to_bitvec(b: &Bitmap, max: usize) -> (r: Bits)
    requires
        max <= usize::MAX / 8,
    ensures
        bits(r).len() == max,
        forall|i: int| 0 <= i < max ==> #[trigger] bits(r)[i] == (i <= u32::MAX && b@.contains(i as u32)),
{
    let mut res = Bits::cleared(max);
    let vals = b.to_vec();
    let mut k: usize = 0;
    while k < vals.len() && (vals[k] as usize) < max
        invariant
            k <= vals@.len(),
            bits(res).len() == max,
            forall|j: int| 0 <= j < max ==> #[trigger] bits(res)[j] == among(vals@, k as int, j),
        decreases vals@.len() - k,
    {
        let ghost pre = bits(res);
        res.set(vals[k] as usize, true);
        proof {
            assert forall|j: int| 0 <= j < max implies #[trigger] bits(res)[j] == among(vals@, k + 1, j) by {
                if j == vals@[k as int] {
                    assert(vals@[k as int] == j);
                } else {
                    assert(bits(res)[j] == pre[j]);
                    if among(vals@, k + 1, j) {
                        let t = choose|t: int| 0 <= t < k + 1 && vals@[t] == j;
                        assert(t < k);
                    }
                }
            }
        }
        k = k + 1;
    }
    proof {
        assert forall|i: int| 0 <= i < max implies #[trigger] bits(res)[i] == (i <= u32::MAX && b@.contains(i as u32)) by {
            if i <= u32::MAX {
                let len = if max <= 0x1_0000_0000 { max as int } else { 0x1_0000_0000 };
                lemma_walked_below(vals@, b@, k as int, len, i);
            } else {
                if among(vals@, k as int, i) {
                    let t = choose|t: int| 0 <= t < k && vals@[t] == i;
                }
            }
        }
    }
    res
}

impl BitmapCompOperation {
    /// Combines `rhs` into the bit vector `lhs` as the operation combines it
    /// into a bitmap, for the values below the length of `lhs`.
    pub fn on_bitvec(&self, lhs: &mut Bits, rhs: &Bitmap)
        requires
            bits(*old(lhs)).len() <= 0x1_0000_0000,
        ensures
            bits(*final(lhs)).len() == bits(*old(lhs)).len(),
            forall|i: int| 0 <= i < bits(*old(lhs)).len() ==> #[trigger] bits(*final(lhs))[i] == compared(
                *self,
                values_of(bits(*old(lhs))),
                rhs@,
            ).contains(i as u32),
    {
        let ghost s0 = bits(*lhs);
        match self {
            BitmapCompOperation::Eq
            | BitmapCompOperation::IsSubset
            | BitmapCompOperation::IsStrictSubset
            | BitmapCompOperation::Intersect
            | BitmapCompOperation::JacardIndex => {},
            BitmapCompOperation::And => {
                let tmp = to_bitvec(rhs, lhs.len());
                lhs.and_assign(&tmp);
            },
            BitmapCompOperation::Or => {
                let vals = rhs.to_vec();
                let mut k: usize = 0;
                while k < vals.len() && (vals[k] as usize) < lhs.len()
                    invariant
                        k <= vals@.len(),
                        bits(*lhs).len() == s0.len(),
                        forall|j: int| 0 <= j < s0.len() ==> #[trigger] bits(*lhs)[j] == (s0[j] || among(vals@, k as int, j)),
                    decreases vals@.len() - k,
                {
                    lhs.set(vals[k] as usize, true);
                    proof {
                        assert forall|j: int| 0 <= j < s0.len() implies #[trigger] bits(*lhs)[j] == (s0[j] || among(
                            vals@,
                            k + 1,
                            j,
                        )) by {
                            lemma_among_next(vals@, k as int, j);
                        }
                    }
                    k = k + 1;
                }
                proof {
                    assert forall|j: int| 0 <= j < s0.len() implies among(vals@, k as int, j) == rhs@.contains(j as u32) by {
                        lemma_walked_below(vals@, rhs@, k as int, s0.len() as int, j);
                    }
                }
            },
            BitmapCompOperation::Xor => {
                let vals = rhs.to_vec();
                let mut k: usize = 0;
                while k < vals.len() && (vals[k] as usize) < lhs.len()
                    invariant
                        k <= vals@.len(),
                        strictly_increasing(vals@),
                        bits(*lhs).len() == s0.len(),
                        forall|j: int| 0 <= j < s0.len() ==> #[trigger] bits(*lhs)[j] == (s0[j] != among(vals@, k as int, j)),
                    decreases vals@.len() - k,
                {
                    let i = vals[k] as usize;
                    let old_val = lhs.at(i);
                    lhs.set(i, !old_val);
                    proof {
                        assert(!among(vals@, k as int, i as int)) by {
                            if among(vals@, k as int, i as int) {
                                let t = choose|t: int| 0 <= t < k && vals@[t] == i;
                                assert(vals@[t] < vals@[k as int]);
                            }
                        }
                        assert forall|j: int| 0 <= j < s0.len() implies #[trigger] bits(*lhs)[j] == (s0[j] != among(
                            vals@,
                            k + 1,
                            j,
                        )) by {
                            lemma_among_next(vals@, k as int, j);
                        }
                    }
                    k = k + 1;
                }
                proof {
                    assert forall|j: int| 0 <= j < s0.len() implies among(vals@, k as int, j) == rhs@.contains(j as u32) by {
                        lemma_walked_below(vals@, rhs@, k as int, s0.len() as int, j);
                    }
                }
            },
            BitmapCompOperation::AndNot => {
                let vals = rhs.to_vec();
                let mut k: usize = 0;
                while k < vals.len() && (vals[k] as usize) < lhs.len()
                    invariant
                        k <= vals@.len(),
                        bits(*lhs).len() == s0.len(),
                        forall|j: int| 0 <= j < s0.len() ==> #[trigger] bits(*lhs)[j] == (s0[j] && !among(vals@, k as int, j)),
                    decreases vals@.len() - k,
                {
                    lhs.set(vals[k] as usize, false);
                    proof {
                        assert forall|j: int| 0 <= j < s0.len() implies #[trigger] bits(*lhs)[j] == (s0[j] && !among(
                            vals@,
                            k + 1,
                            j,
                        )) by {
                            lemma_among_next(vals@, k as int, j);
                        }
                    }
                    k = k + 1;
                }
                proof {
                    assert forall|j: int| 0 <= j < s0.len() implies among(vals@, k as int, j) == rhs@.contains(j as u32) by {
                        lemma_walked_below(vals@, rhs@, k as int, s0.len() as int, j);
                    }
                }
            },
        }
        proof {
            assert forall|i: int| 0 <= i < s0.len() implies #[trigger] bits(*lhs)[i] == compared(
                *self,
                values_of(s0),
                rhs@,
            ).contains(i as u32) by {
                assert(values_of(s0).contains(i as u32) == s0[i]);
            }
        }
    }
}

/// Checks that the values of `b` below the length of `v` are the positions of
/// the set bits of `v`, in order.
pub fn check_equal(b: &Bitmap, v: &Bits)
    requires
        bits(*v).len() <= u32::MAX,
        forall|i: int| 0 <= i < bits(*v).len() ==> #[trigger] bits(*v)[i] == b@.contains(i as u32),
{
    let n = v.len() as u32;
    let vals = b.to_vec();
    let mut lhs: Vec<u32> = Vec::new();
    let mut k: usize = 0;
    while k < vals.len() && vals[k] < n
        invariant
            k <= vals@.len(),
            lhs@ == vals@.take(k as int),
            forall|t: int| 0 <= t < k ==> #[trigger] vals@[t] < n,
        decreases vals@.len() - k,
    {
        lhs.push(vals[k]);
        k = k + 1;
        assert(lhs@ =~= vals@.take(k as int));
    }
    let rhs = set_values(v);
    proof {
        assert forall|x: u32| #[trigger] lhs@.contains(x) == rhs@.contains(x) by {
            if x < n {
                lemma_walked_below(vals@, b@, k as int, n as int, x as int);
                if among(vals@, k as int, x as int) {
                    let t = choose|t: int| 0 <= t < k && vals@[t] == x;
                    assert(lhs@[t] == x);
                }
                if lhs@.contains(x) {
                    let t = choose|t: int| 0 <= t < lhs@.len() && lhs@[t] == x;
                    assert(vals@[t] == x);
                }
            } else {
                if lhs@.contains(x) {
                    let t = choose|t: int| 0 <= t < lhs@.len() && lhs@[t] == x;
                    assert(vals@[t] == x);
                    assert(vals@[t] < n);
                }
            }
        }
        lemma_increasing_unique(lhs@, rhs@);
    }
    assert(lhs@ == rhs@);
}

/// Every operation of the round stays within [`MAX_NUM`] bits.
pub open spec fn input_in_bounds(input: FuzzInput) -> bool {
    &&& forall|k: int| 0 <= k < input.lhs_ops.len() ==> write_in_bounds(#[trigger] input.lhs_ops@[k], MAX_NUM as int)
    &&& forall|k: int| 0 <= k < input.rhs_ops.len() ==> write_in_bounds(#[trigger] input.rhs_ops@[k], MAX_NUM as int)
    &&& forall|k: int| 0 <= k < input.view_ops.len() ==> read_in_bounds(#[trigger] input.view_ops@[k], MAX_NUM as int)
}

/// Applies each change to a bitmap and to a bit vector of [`MAX_NUM`] bits;
/// after every step the two hold the same values.
fn build_both(ops: &Vec<MutableBitmapOperation>, b: &mut Bitmap, v: &mut Bits)
    requires
        forall|k: int| 0 <= k < ops.len() ==> write_in_bounds(#[trigger] ops@[k], MAX_NUM as int),
        bits(*old(v)).len() == MAX_NUM,
        models(bits(*old(v)), old(b)@),
    ensures
        bits(*final(v)).len() == MAX_NUM,
        models(bits(*final(v)), final(b)@),
        final(b)@ == built(ops@, old(b)@),
{
    let mut k: usize = 0;
    proof {
        assert(ops@.take(0) =~= Seq::<MutableBitmapOperation>::empty());
    }
    while k < ops.len()
        invariant
            k <= ops@.len(),
            b@ == built(ops@.take(k as int), old(b)@),
            forall|t: int| 0 <= t < ops.len() ==> write_in_bounds(#[trigger] ops@[t], MAX_NUM as int),
            bits(*v).len() == MAX_NUM,
            models(bits(*v), b@),
        decreases ops@.len() - k,
    {
        let op = &ops[k];
        proof {
            lemma_models_values(bits(*v), b@);
        }
        op.on_roaring(b);
        op.on_bitvec(v);
        check_equal(b, v);
        proof {
            assert(ops@.take(k + 1).drop_last() =~= ops@.take(k as int));
            assert(ops@.take(k + 1).last() == ops@[k as int]);
        }
        k = k + 1;
    }
    proof {
        assert(ops@.take(ops@.len() as int) =~= ops@);
    }
}

/// Runs a fuzzing round: the bitmaps and their bit vectors agree after every
/// change and every combination, and every read gives the same answer on
/// both.
pub fn against_bitvec(input: &FuzzInput)
    requires
        input_in_bounds(*input),
{
    let mut lhs = Bitmap::create();
    let mut rhs = Bitmap::create();
    let mut lhs_check = Bits::cleared(4 * 0x1_0000);
    let mut rhs_check = Bits::cleared(4 * 0x1_0000);
    assert(models(bits(lhs_check), lhs@));
    assert(models(bits(rhs_check), rhs@));
    build_both(&input.lhs_ops, &mut lhs, &mut lhs_check);
    build_both(&input.rhs_ops, &mut rhs, &mut rhs_check);
    let mut k: usize = 0;
    while k < input.comp_ops.len()
        invariant
            k <= input.comp_ops@.len(),
            forall|t: int| 0 <= t < input.view_ops.len() ==> read_in_bounds(#[trigger] input.view_ops@[t], MAX_NUM as int),
            bits(lhs_check).len() == MAX_NUM,
            bits(rhs_check).len() == MAX_NUM,
            models(bits(lhs_check), lhs@),
            models(bits(rhs_check), rhs@),
        decreases input.comp_ops@.len() - k,
    {
        let op = &input.comp_ops[k];
        let ghost pre = bits(lhs_check);
        let ghost l0 = lhs@;
        proof {
            lemma_models_values(pre, lhs@);
        }
        op.on_roaring(&mut lhs, &rhs);
        op.on_bitvec(&mut lhs_check, &rhs);
        proof {
            assert forall|x: u32| #[trigger] lhs@.contains(x) implies x < MAX_NUM by {
                assert(compared(*op, l0, rhs@).contains(x));
                assert(l0.contains(x) || rhs@.contains(x));
                if l0.contains(x) {
                    assert(pre[x as int] == l0.contains(x));
                }
            }
        }
        check_equal(&lhs, &lhs_check);
        k = k + 1;
    }
    let mut k: usize = 0;
    while k < input.view_ops.len()
        invariant
            k <= input.view_ops@.len(),
            forall|t: int| 0 <= t < input.view_ops.len() ==> read_in_bounds(#[trigger] input.view_ops@[t], MAX_NUM as int),
            bits(lhs_check).len() == MAX_NUM,
            bits(rhs_check).len() == MAX_NUM,
            models(bits(lhs_check), lhs@),
            models(bits(rhs_check), rhs@),
        decreases input.view_ops@.len() - k,
    {
        let op = &input.view_ops[k];
        op.on_both(&rhs, &rhs_check);
        op.on_both(&lhs, &lhs_check);
        k = k + 1;
    }
}

} // verus!
