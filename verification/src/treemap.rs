//! Treemap is a RoaringBitmap-based structure that supports 64bit unsigned
//! integer values: a [`BTreeMap`] from the high 32 bits of each value to a
//! [`Bitmap`] of its low 32 bits.
use crate::bitmap::{op_holds, strictly_increasing, Bitmap, SetOp};
use crate::range::{interval64, RangeInclusive};
use crate::runs::interval;
use std::collections::BTreeMap;
use vstd::prelude::*;
use vstd::set_lib::{lemma_map_size, lemma_set_disjoint_lens};
use vstd::std_specs::iter::IteratorSpec;

verus! {

broadcast use vstd::std_specs::btree::group_btree_axioms;

/// The high 32 bits of a 64-bit value.
pub open spec fn hi(x: u64) -> u32 {
    (x / 0x1_0000_0000) as u32
}

/// The low 32 bits of a 64-bit value.
pub open spec fn lo(x: u64) -> u32 {
    (x % 0x1_0000_0000) as u32
}

/// The 64-bit value with the given high and low halves.
pub open spec fn joined(high: u32, low: u32) -> u64 {
    (high * 0x1_0000_0000 + low) as u64
}

/// Splits a 64-bit value into its high and low 32 bits.
pub fn split(value: u64) -> (r: (u32, u32))
    ensures
        r.0 == hi(value),
        r.1 == lo(value),
        joined(r.0, r.1) == value,
{
    let h = (value >> 32u64) as u32;
    let l = value as u32;
    assert(h == hi(value) && l == lo(value)) by (bit_vector)
        requires
            h == (value >> 32u64) as u32,
            l == value as u32,
    ;
    assert(joined(h, l) == value) by (nonlinear_arith)
        requires
            h == value / 0x1_0000_0000,
            l == value % 0x1_0000_0000,
    ;
    (h, l)
}

/// Joins high and low 32 bits into a 64-bit value.
pub fn join(high: u32, low: u32) -> (r: u64)
    ensures
        r == joined(high, low),
        hi(r) == high,
        lo(r) == low,
{
    let r = ((high as u64) << 32u64) | (low as u64);
    assert(r == high as u64 * 0x1_0000_0000 + low as u64) by (bit_vector)
        requires
            r == ((high as u64) << 32u64) | (low as u64),
    ;
    assert(hi(r) == high && lo(r) == low) by (nonlinear_arith)
        requires
            r == high * 0x1_0000_0000 + low,
            low < 0x1_0000_0000,
    ;
    r
}

/// The 64-bit values that a map of bitmaps holds.
pub open spec fn map_set(m: Map<u32, Bitmap>) -> Set<u64> {
    Set::new(|x: u64| m.contains_key(hi(x)) && m[hi(x)]@.contains(lo(x)))
}

/// The values of `m` whose high half is one of the keys in `ks`.
pub open spec fn part(m: Map<u32, Bitmap>, ks: Set<u32>) -> Set<u64> {
    Set::new(|x: u64| ks.contains(hi(x)) && m.contains_key(hi(x)) && m[hi(x)]@.contains(lo(x)))
}

/// The 64-bit values whose high half is `k` and whose low half lies in `b`.
pub open spec fn slice(k: u32, b: Set<u32>) -> Set<u64> {
    Set::new(|x: u64| hi(x) == k && b.contains(lo(x)))
}

pub(crate) proof fn lemma_joined_hi_lo(x: u64)
    ensures
        joined(hi(x), lo(x)) == x,
{
    assert(joined(hi(x), lo(x)) == x) by (nonlinear_arith)
        requires
            hi(x) == x / 0x1_0000_0000,
            lo(x) == x % 0x1_0000_0000,
    ;
}

pub(crate) proof fn lemma_hi_lo_joined(h: u32, l: u32)
    ensures
        hi(joined(h, l)) == h,
        lo(joined(h, l)) == l,
{
    assert(hi(joined(h, l)) == h && lo(joined(h, l)) == l) by (nonlinear_arith)
        requires
            l < 0x1_0000_0000,
            h < 0x1_0000_0000,
    ;
}

/// A slice has as many values as the bitmap it comes from.
proof fn lemma_slice_len(k: u32, b: Set<u32>)
    requires
        b.finite(),
    ensures
        slice(k, b).finite(),
        slice(k, b).len() == b.len(),
{
    let f = |l: u32| joined(k, l);
    assert forall|l1: u32, l2: u32| b.contains(l1) && b.contains(l2) && #[trigger] f(l1) == #[trigger] f(l2)
        implies l1 == l2 by {
        lemma_hi_lo_joined(k, l1);
        lemma_hi_lo_joined(k, l2);
    }
    assert forall|x: u64| slice(k, b).contains(x) implies b.map(f).contains(x) by {
        lemma_joined_hi_lo(x);
        assert(b.contains(lo(x)) && f(lo(x)) == x);
    }
    assert forall|x: u64| b.map(f).contains(x) implies slice(k, b).contains(x) by {
        let l = choose|l: u32| b.contains(l) && f(l) == x;
        lemma_hi_lo_joined(k, l);
    }
    assert(b.map(f) =~= slice(k, b));
    lemma_map_size(b, slice(k, b), f);
}

/// Adding one key to a set of keys adds that key's slice to the part.
proof fn lemma_part_insert(m: Map<u32, Bitmap>, ks: Set<u32>, k: u32)
    requires
        ks.finite(),
        !ks.contains(k),
        m.contains_key(k),
        part(m, ks).finite(),
    ensures
        part(m, ks.insert(k)) == part(m, ks).union(slice(k, m[k]@)),
        part(m, ks.insert(k)).finite(),
        part(m, ks.insert(k)).len() == part(m, ks).len() + m[k]@.len(),
{
    assert(part(m, ks.insert(k)) =~= part(m, ks).union(slice(k, m[k]@)));
    m[k].lemma_finite();
    lemma_slice_len(k, m[k]@);
    assert(part(m, ks).disjoint(slice(k, m[k]@)));
    lemma_set_disjoint_lens(part(m, ks), slice(k, m[k]@));
}

/// The part of a map's values under a finite set of keys is finite.
proof fn lemma_part_finite(m: Map<u32, Bitmap>, ks: Set<u32>)
    requires
        ks.finite(),
    ensures
        part(m, ks).finite(),
    decreases ks.len(),
{
    if ks.len() == 0 {
        assert(ks =~= Set::<u32>::empty());
        assert(part(m, ks) =~= Set::<u64>::empty());
    } else {
        let k = ks.choose();
        let rest = ks.remove(k);
        lemma_part_finite(m, rest);
        if m.contains_key(k) {
            m[k].lemma_finite();
            lemma_slice_len(k, m[k]@);
            assert(part(m, ks) =~= part(m, rest).union(slice(k, m[k]@)));
        } else {
            assert(part(m, ks) =~= part(m, rest));
        }
    }
}

/// A RoaringBitmap-based structure that supports 64bit unsigned integer values
///
/// Implemented as a [`BTreeMap`] of [`Bitmap`]s.
#[derive(Debug)]
pub struct Treemap {
    /// The underlying map of bitmaps
    pub map: BTreeMap<u32, Bitmap>,
}

/// Every bitmap of `m` holds some value.
pub open spec fn no_empty_bitmaps(m: Map<u32, Bitmap>) -> bool {
    forall|k: u32| #[trigger] m.contains_key(k) ==> m[k]@ != Set::<u32>::empty()
}

/// Two maps of bitmaps with the same keys whose bitmaps hold the same values
/// and keep run compression alike: they serialize alike.
pub open spec fn same_buckets(m1: Map<u32, Bitmap>, m2: Map<u32, Bitmap>) -> bool {
    &&& m1.dom() == m2.dom()
    &&& forall|k: u32| #[trigger] m1.contains_key(k) ==> m1[k]@ == m2[k]@ && m1[k].keeps_runs() == m2[k].keeps_runs()
}

/// The bitmaps under the keys that two maps share keep run compression alike.
pub open spec fn runs_agree(m1: Map<u32, Bitmap>, m2: Map<u32, Bitmap>) -> bool {
    forall|k: u32| #[trigger] m1.contains_key(k) && m2.contains_key(k) ==> m1[k].keeps_runs() == m2[k].keeps_runs()
}

/// Under each key, a non-empty bitmap of `after` keeps run compression exactly
/// when `before` held a non-empty bitmap there that kept it: a bitmap that
/// holds values again, or for the first time, starts without run containers.
pub open spec fn runs_carried(before: Map<u32, Bitmap>, after: Map<u32, Bitmap>) -> bool {
    forall|k: u32| #[trigger] after.contains_key(k) && after[k]@ != Set::<u32>::empty() ==> after[k].keeps_runs() == (
    before.contains_key(k) && before[k]@ != Set::<u32>::empty() && before[k].keeps_runs())
}

/// Every key with a non-empty bitmap in `before` has one in `after`.
pub open spec fn buckets_kept(before: Map<u32, Bitmap>, after: Map<u32, Bitmap>) -> bool {
    forall|k: u32| #[trigger] before.contains_key(k) && before[k]@ != Set::<u32>::empty() ==> after.contains_key(k)
        && after[k]@ != Set::<u32>::empty()
}

/// Carrying run compression from `a` to `b` and on to `c` carries it from
/// `a` to `c`, when no non-empty bitmap is lost on the way from `a` to `b`, or
/// none appears on the way from `b` to `c`.
pub proof fn lemma_runs_carried_chain(a: Map<u32, Bitmap>, b: Map<u32, Bitmap>, c: Map<u32, Bitmap>)
    requires
        runs_carried(a, b),
        runs_carried(b, c),
        buckets_kept(a, b) || buckets_kept(c, b),
    ensures
        runs_carried(a, c),
{
    assert forall|k: u32| #[trigger] c.contains_key(k) && c[k]@ != Set::<u32>::empty() implies c[k].keeps_runs() == (
    a.contains_key(k) && a[k]@ != Set::<u32>::empty() && a[k].keeps_runs()) by {
        if b.contains_key(k) && b[k]@ != Set::<u32>::empty() {
        } else if a.contains_key(k) && a[k]@ != Set::<u32>::empty() {
            assert(!buckets_kept(a, b));
            assert(!buckets_kept(c, b));
        }
    }
}

/// Two maps without empty bitmaps that hold the same 64-bit values have the
/// same keys, and the same values under each key.
pub proof fn lemma_same_values_same_keys(m1: Map<u32, Bitmap>, m2: Map<u32, Bitmap>)
    requires
        no_empty_bitmaps(m1),
        no_empty_bitmaps(m2),
        map_set(m1) == map_set(m2),
    ensures
        m1.dom() == m2.dom(),
        forall|k: u32| #[trigger] m1.contains_key(k) ==> m1[k]@ == m2[k]@,
{
    assert forall|k: u32| #[trigger] m1.contains_key(k) implies m2.contains_key(k) by {
        assert(m1[k]@ != Set::<u32>::empty());
        let l = choose|l: u32| m1[k]@.contains(l);
        if !m1[k]@.contains(l) {
            assert(m1[k]@ =~= Set::<u32>::empty());
        }
        lemma_hi_lo_joined(k, l);
        assert(map_set(m1).contains(joined(k, l)));
    }
    assert forall|k: u32| #[trigger] m2.contains_key(k) implies m1.contains_key(k) by {
        assert(m2[k]@ != Set::<u32>::empty());
        let l = choose|l: u32| m2[k]@.contains(l);
        if !m2[k]@.contains(l) {
            assert(m2[k]@ =~= Set::<u32>::empty());
        }
        lemma_hi_lo_joined(k, l);
        assert(map_set(m2).contains(joined(k, l)));
    }
    assert(m1.dom() =~= m2.dom());
    assert forall|k: u32| #[trigger] m1.contains_key(k) implies m1[k]@ == m2[k]@ by {
        assert forall|l: u32| m1[k]@.contains(l) == m2[k]@.contains(l) by {
            lemma_hi_lo_joined(k, l);
            assert(map_set(m1).contains(joined(k, l)) == m1[k]@.contains(l));
            assert(map_set(m2).contains(joined(k, l)) == m2[k]@.contains(l));
        }
        assert(m1[k]@ =~= m2[k]@);
    }
}

/// The bitmap under `k` in `m` holds what it held in `m0`, and keeps run
/// compression exactly when `on`.
pub open spec fn settled(m: Map<u32, Bitmap>, m0: Map<u32, Bitmap>, k: u32, on: bool) -> bool {
    m[k]@ == m0[k]@ && m[k].keeps_runs() == on
}

impl View for Treemap {
    type V = Set<u64>;

    open spec fn view(&self) -> Set<u64> {
        map_set(self.map@)
    }
}

impl Treemap {
    /// Creates an empty `Treemap`.
    pub fn new() -> (r: Self)
        ensures
            r@ == Set::<u64>::empty(),
            r.map@ == Map::<u32, Bitmap>::empty(),
    {
        let r = Treemap { map: BTreeMap::new() };
        assert(r@ =~= Set::<u64>::empty());
        r
    }

    /// Creates an empty `Treemap`; same as [`Treemap::new`].
    pub fn create() -> (r: Self)
        ensures
            r@ == Set::<u64>::empty(),
            r.map@ == Map::<u32, Bitmap>::empty(),
    {
        Self::new()
    }

    /// Returns the number of elements contained in the Treemap
    pub fn cardinality(&self) -> (r: u64)
        requires
            self@.len() <= u64::MAX,
        ensures
            r == self@.len(),
    {
        let ghost m = self.map@;
        let mut sum: u64 = 0;
        let ghost mut seen: Set<u32> = Set::empty();
        proof {
            assert(part(m, seen) =~= Set::<u64>::empty());
        }
        let ghost entries = vstd::std_specs::btree::spec_btree_map_iter(&self.map).remaining();
        for (k, b) in it: self.map.iter()
            invariant
                m == self.map@,
                it.seq() == entries,
                entries.no_duplicates(),
                seen.finite(),
                forall|key: u32| #[trigger] seen.contains(key) <==> exists|i: int|
                    0 <= i < it.index() && *it.seq()[i].0 == key,
                part(m, seen).finite(),
                sum == part(m, seen).len(),
                self@.len() <= u64::MAX,
        {
            proof {
                assert(it.seq()[it.index()] == (k, b));
                if seen.contains(*k) {
                    let i = choose|i: int| 0 <= i < it.index() && *it.seq()[i].0 == *k;
                    assert(m.contains_key(*it.seq()[i].0) && m[*it.seq()[i].0] == *it.seq()[i].1);
                    assert(it.seq()[i] == it.seq()[it.index()]);
                }
                lemma_part_insert(m, seen, *k);
                assert(part(m, seen.insert(*k)).subset_of(self@));
                self.lemma_finite();
                vstd::set_lib::lemma_len_subset(part(m, seen.insert(*k)), self@);
            }
            sum = sum + b.cardinality();
            proof {
                seen = seen.insert(*k);
            }
        }
        proof {
            assert(part(m, seen) =~= self@) by {
                assert forall|x: u64| self@.contains(x) implies part(m, seen).contains(x) by {
                    assert(m.contains_key(hi(x)));
                    assert(entries.contains((&hi(x), &m[hi(x)])));
                    let i = choose|i: int| 0 <= i < entries.len() && entries[i] == (&hi(x), &m[hi(x)]);
                    assert(*entries[i].0 == hi(x));
                }
            }
        }
        sum
    }

    /// A treemap holds finitely many values.
    pub proof fn lemma_finite(&self)
        ensures
            self@.finite(),
    {
        lemma_part_finite(self.map@, self.map@.dom());
        assert(part(self.map@, self.map@.dom()) =~= self@);
    }
}

/// Keys listed by a map iterator come in increasing order.
proof fn lemma_increasing_keys(ks: Seq<u32>)
    requires
        vstd::std_specs::btree::increasing_seq(ks),
    ensures
        forall|i: int, j: int| 0 <= i < j < ks.len() ==> ks[i] < ks[j],
{
    assert forall|i: int, j: int| 0 <= i < j < ks.len() implies ks[i] < ks[j] by {
        assert(vstd::std_specs::cmp::OrdSpec::cmp_spec(&ks[i], &ks[j]) is Less);
    }
}

impl Clone for Treemap {
    fn clone(&self) -> (r: Self)
        ensures
            r.map@ == self.map@,
            r@ == self@,
    {
        Treemap { map: self.map.clone() }
    }
}

impl Treemap {
    /// Add the integer element to the bitmap
    pub fn add(&mut self, value: u64)
        ensures
            final(self)@ == old(self)@.insert(value),
            no_empty_bitmaps(old(self).map@) ==> no_empty_bitmaps(final(self).map@),
            runs_carried(old(self).map@, final(self).map@),
            buckets_kept(old(self).map@, final(self).map@),
    {
        let (h, l) = split(value);
        let mut b = match self.map.remove(&h) {
            Some(b) => {
                if b.is_empty() {
                    Bitmap::new()
                } else {
                    b
                }
            },
            None => Bitmap::new(),
        };
        b.add(l);
        assert(b@.contains(l));
        self.map.insert(h, b);
        proof {
            assert forall|x: u64| #[trigger] self@.contains(x) == old(self)@.insert(value).contains(x) by {
                lemma_joined_hi_lo(x);
            }
            assert(self@ =~= old(self)@.insert(value));
        }
    }

    /// Returns true if the integer element is contained in the bitmap
    pub fn contains(&self, value: u64) -> (r: bool)
        ensures
            r == self@.contains(value),
    {
        let (h, l) = split(value);
        match self.map.get(&h) {
            None => false,
            Some(b) => b.contains(l),
        }
    }

    /// Removes element from Treemap
    pub fn remove(&mut self, element: u64)
        ensures
            final(self)@ == old(self)@.remove(element),
            no_empty_bitmaps(old(self).map@) ==> no_empty_bitmaps(final(self).map@),
            runs_carried(old(self).map@, final(self).map@),
            buckets_kept(final(self).map@, old(self).map@),
    {
        let (h, l) = split(element);
        match self.map.remove(&h) {
            None => {
                assert(self@ =~= old(self)@.remove(element));
            },
            Some(mut b) => {
                assert(b == old(self).map@[h]);
                b.remove(l);
                let ghost bv = b@;
                let empty = b.is_empty();
                if !empty {
                    self.map.insert(h, b);
                }
                proof {
                    if !empty {
                        if forall|x: u32| !bv.contains(x) {
                            assert(bv =~= Set::<u32>::empty());
                        }
                        let x = choose|x: u32| bv.contains(x);
                        assert(old(self).map@[h]@.contains(x));
                    }
                    assert(runs_carried(old(self).map@, self.map@));
                    assert(buckets_kept(self.map@, old(self).map@));
                    assert forall|x: u64| #[trigger] self@.contains(x) == old(self)@.remove(
                        element,
                    ).contains(x) by {
                        lemma_joined_hi_lo(x);
                        if hi(x) == h && empty {
                            assert(!bv.contains(lo(x)));
                        }
                    }
                    assert(self@ =~= old(self)@.remove(element));
                }
            },
        }
    }

    /// Returns true if the Treemap is empty.
    pub fn is_empty(&self) -> (r: bool)
        ensures
            r == (self@ == Set::<u64>::empty()),
    {
        let ghost m = self.map@;
        let ghost entries = vstd::std_specs::btree::spec_btree_map_iter(&self.map).remaining();
        let ghost mut idx: int = 0;
        for (k, b) in it: self.map.iter()
            invariant
                m == self.map@,
                it.seq() == entries,
                idx == it.index(),
                forall|i: int| 0 <= i < idx ==> (#[trigger] entries[i].1)@ == Set::<u32>::empty(),
        {
            if !b.is_empty() {
                proof {
                    assert(it.seq()[it.index()] == (k, b));
                    let y = choose|y: u32| b@.contains(y);
                    assert(!(b@ =~= Set::<u32>::empty()));
                    assert(b@.contains(y));
                    lemma_hi_lo_joined(*k, y);
                    assert(self@.contains(joined(*k, y)));
                }
                return false;
            }
            proof {
                idx = idx + 1;
            }
        }
        proof {
            assert(idx == entries.len());
            assert forall|x: u64| !#[trigger] self@.contains(x) by {
                if self@.contains(x) {
                    assert(entries.contains((&hi(x), &m[hi(x)])));
                    let i = choose|i: int| 0 <= i < entries.len() && entries[i] == (&hi(x), &m[hi(x)]);
                    assert(entries[i].1@ == Set::<u32>::empty());
                }
            }
            assert(self@ =~= Set::<u64>::empty());
        }
        true
    }

    /// Compresses each bitmap of the treemap with runs wherever they are the
    /// smaller form; returns whether any bitmap was modified, that is, did not
    /// keep run compression before and has a block of values that is smaller
    /// as runs. The values stay as they are.
    pub fn run_optimize(&mut self) -> (r: bool)
        ensures
            final(self).map@.dom() == old(self).map@.dom(),
            forall|k: u32| #[trigger] final(self).map@.contains_key(k) ==> final(self).map@[k]@ == old(self).map@[k]@
                && final(self).map@[k].keeps_runs(),
            final(self)@ == old(self)@,
            no_empty_bitmaps(old(self).map@) ==> no_empty_bitmaps(final(self).map@),
            r == exists|k: u32| #[trigger] old(self).map@.contains_key(k) && !old(self).map@[k].keeps_runs()
                && crate::encode::has_run(crate::encode::containers_of(old(self).map@[k]@), true),
    {
        self.set_run_compression(true).0
    }

    /// Removes run-length encoding from the treemap's bitmaps; returns whether
    /// some bitmap stored a block of values as runs. The values stay as they
    /// are.
    pub fn remove_run_compression(&mut self) -> (r: bool)
        ensures
            final(self).map@.dom() == old(self).map@.dom(),
            forall|k: u32| #[trigger] final(self).map@.contains_key(k) ==> final(self).map@[k]@ == old(self).map@[k]@
                && !final(self).map@[k].keeps_runs(),
            final(self)@ == old(self)@,
            no_empty_bitmaps(old(self).map@) ==> no_empty_bitmaps(final(self).map@),
            r == exists|k: u32| #[trigger] old(self).map@.contains_key(k) && old(self).map@[k].keeps_runs()
                && crate::encode::has_run(crate::encode::containers_of(old(self).map@[k]@), true),
    {
        self.set_run_compression(false).0
    }

    /// Runs `run_optimize` (when `on`) or `remove_run_compression` on every
    /// bitmap; returns whether any of them changed, and whether any of them
    /// has a block of values that is smaller as runs.
    pub(crate) fn set_run_compression(&mut self, on: bool) -> (r: (bool, bool))
        ensures
            final(self).map@.dom() == old(self).map@.dom(),
            forall|k: u32| #[trigger] final(self).map@.contains_key(k) ==> final(self).map@[k]@ == old(self).map@[k]@
                && final(self).map@[k].keeps_runs() == on,
            final(self)@ == old(self)@,
            r.0 == exists|k: u32| #[trigger] old(self).map@.contains_key(k) && old(self).map@[k].keeps_runs() != on
                && crate::encode::has_run(crate::encode::containers_of(old(self).map@[k]@), true),
            r.1 == exists|k: u32| #[trigger] old(self).map@.contains_key(k)
                && crate::encode::has_run(crate::encode::containers_of(old(self).map@[k]@), true),
    {
        let ks = self.keys();
        let ghost m0 = self.map@;
        let mut changed = false;
        let mut any = false;
        let mut i: usize = 0;
        while i < ks.len()
            invariant
                ks@.no_duplicates(),
                forall|k: u32| #[trigger] ks@.contains(k) <==> m0.contains_key(k),
                i <= ks@.len(),
                self.map@.dom() == m0.dom(),
                forall|j: int| 0 <= j < i ==> #[trigger] settled(self.map@, m0, ks@[j], on),
                forall|k: u32| #[trigger] self.map@.contains_key(k) && !ks@.take(i as int).contains(k) ==> self.map@[k] == m0[k],
                changed == exists|j: int| 0 <= j < i && #[trigger] crate::encode::has_run(crate::encode::containers_of(m0[ks@[j]]@), true)
                    && m0[ks@[j]].keeps_runs() != on,
                any == exists|j: int| 0 <= j < i && #[trigger] crate::encode::has_run(crate::encode::containers_of(m0[ks@[j]]@), true),
            decreases ks@.len() - i,
        {
            let k = ks[i];
            proof {
                assert(ks@.contains(k));
                assert(!ks@.take(i as int).contains(k)) by {
                    if ks@.take(i as int).contains(k) {
                        let j = choose|j: int| 0 <= j < i && ks@.take(i as int)[j] == k;
                        assert(ks@[j] == ks@[i as int]);
                    }
                }
            }
            let ghost before = self.map@;
            proof {
                assert(before.contains_key(k));
                assert(before[k] == m0[k]);
            }
            let mut b = self.map.remove(&k).unwrap();
            let ghost b0 = b;
            assert(b0 == m0[k]);
            let h = crate::encode::portable_has_run(&b, true);
            let x = if on {
                b.run_optimize()
            } else {
                b.remove_run_compression()
            };
            assert(b@ == b0@ && b.keeps_runs() == on);
            let ghost b1 = b;
            self.map.insert(k, b);
            proof {
                assert(self.map@[k] == b1);
                assert forall|j: int| 0 <= j < i + 1 implies #[trigger] settled(self.map@, m0, ks@[j], on) by {
                    if j < i {
                        assert(ks@[j] != k) by {
                            assert(ks@[j] != ks@[i as int]);
                        }
                        assert(self.map@[ks@[j]] == before[ks@[j]]);
                        assert(settled(before, m0, ks@[j], on));
                    } else {
                        assert(ks@[j] == k);
                    }
                }
                assert forall|kk: u32| #[trigger] self.map@.contains_key(kk) && !ks@.take(i + 1).contains(kk)
                    implies self.map@[kk] == m0[kk] by {
                    assert(kk != k) by {
                        assert(ks@.take(i + 1)[i as int] == k);
                    }
                    assert(!ks@.take(i as int).contains(kk)) by {
                        if ks@.take(i as int).contains(kk) {
                            let j = choose|j: int| 0 <= j < i && ks@.take(i as int)[j] == kk;
                            assert(ks@.take(i + 1)[j] == kk);
                        }
                    }
                }
                if x {
                    assert(crate::encode::has_run(crate::encode::containers_of(m0[ks@[i as int]]@), true)
                        && m0[ks@[i as int]].keeps_runs() != on);
                }
                if h {
                    assert(crate::encode::has_run(crate::encode::containers_of(m0[ks@[i as int]]@), true));
                }
            }
            changed = x || changed;
            any = h || any;
            i = i + 1;
        }
        proof {
            assert(ks@.take(ks@.len() as int) == ks@);
            assert forall|kk: u32| #[trigger] self.map@.contains_key(kk) implies self.map@[kk]@ == m0[kk]@
                && self.map@[kk].keeps_runs() == on by {
                assert(ks@.contains(kk));
                let j = choose|j: int| 0 <= j < ks@.len() && ks@[j] == kk;
                assert(settled(self.map@, m0, ks@[j], on));
            }
            assert(self@ =~= map_set(m0));
            if changed {
                let j = choose|j: int| 0 <= j < i && #[trigger] crate::encode::has_run(crate::encode::containers_of(m0[ks@[j]]@), true)
                    && m0[ks@[j]].keeps_runs() != on;
                assert(ks@.contains(ks@[j]));
                assert(m0.contains_key(ks@[j]));
            }
            if any {
                let j = choose|j: int| 0 <= j < i && #[trigger] crate::encode::has_run(crate::encode::containers_of(m0[ks@[j]]@), true);
                assert(ks@.contains(ks@[j]));
                assert(m0.contains_key(ks@[j]));
            }
            if exists|kk: u32| #[trigger] m0.contains_key(kk) && m0[kk].keeps_runs() != on && crate::encode::has_run(
                crate::encode::containers_of(m0[kk]@),
                true,
            ) {
                let kk = choose|kk: u32| #[trigger] m0.contains_key(kk) && m0[kk].keeps_runs() != on && crate::encode::has_run(
                    crate::encode::containers_of(m0[kk]@),
                    true,
                );
                assert(ks@.contains(kk));
                let j = choose|j: int| 0 <= j < ks@.len() && ks@[j] == kk;
                assert(crate::encode::has_run(crate::encode::containers_of(m0[ks@[j]]@), true));
            }
            if exists|kk: u32| #[trigger] m0.contains_key(kk) && crate::encode::has_run(
                crate::encode::containers_of(m0[kk]@),
                true,
            ) {
                let kk = choose|kk: u32| #[trigger] m0.contains_key(kk) && crate::encode::has_run(
                    crate::encode::containers_of(m0[kk]@),
                    true,
                );
                assert(ks@.contains(kk));
                let j = choose|j: int| 0 <= j < ks@.len() && ks@[j] == kk;
                assert(crate::encode::has_run(crate::encode::containers_of(m0[ks@[j]]@), true));
            }
        }
        (changed, any)
    }

    /// Returns a vector of the keys of the map, in increasing order.
    pub(crate) fn keys(&self) -> (r: Vec<u32>)
        ensures
            r@.no_duplicates(),
            forall|k: u32| #[trigger] r@.contains(k) <==> self.map@.contains_key(k),
            forall|i: int, j: int| 0 <= i < j < r@.len() ==> r@[i] < r@[j],
    {
        let ghost m = self.map@;
        let ghost entries = vstd::std_specs::btree::spec_btree_map_iter(&self.map).remaining();
        let mut out: Vec<u32> = Vec::new();
        for (k, b) in it: self.map.iter()
            invariant
                m == self.map@,
                it.seq() == entries,
                vstd::std_specs::btree::increasing_seq(entries.map_values(|kv: (&u32, &Bitmap)| *kv.0)),
                out@ == entries.take(it.index()).map_values(|kv: (&u32, &Bitmap)| *kv.0),
        {
            out.push(*k);
            proof {
                assert(entries.take(it.index() + 1).map_values(|kv: (&u32, &Bitmap)| *kv.0)
                    =~= entries.take(it.index()).map_values(|kv: (&u32, &Bitmap)| *kv.0).push(*k));
            }
        }
        proof {
            let ks = entries.map_values(|kv: (&u32, &Bitmap)| *kv.0);
            assert(entries.take(entries.len() as int) == entries);
            assert(out@ == ks);
            lemma_increasing_keys(ks);
            assert forall|k: u32| #[trigger] out@.contains(k) <==> m.contains_key(k) by {
                if m.contains_key(k) {
                    assert(entries.contains((&k, &m[k])));
                    let i = choose|i: int| 0 <= i < entries.len() && entries[i] == (&k, &m[k]);
                    assert(out@[i] == k);
                }
                if out@.contains(k) {
                    let i = choose|i: int| 0 <= i < out@.len() && out@[i] == k;
                    assert(*entries[i].0 == k);
                }
            }
            assert forall|i: int, j: int| 0 <= i < out@.len() && 0 <= j < out@.len() && i != j
                implies out@[i] != out@[j] by {
                if i < j {
                    assert(out@[i] < out@[j]);
                } else {
                    assert(out@[j] < out@[i]);
                }
            }
        }
        out
    }
}

/// The low halves stored under key `k` (empty when the key is absent).
pub open spec fn entry(m: Map<u32, Bitmap>, k: u32) -> Set<u32> {
    if m.contains_key(k) {
        m[k]@
    } else {
        Set::empty()
    }
}

/// The set of 64-bit values that `op` keeps from `a` and `b`.
pub open spec fn op_set64(op: SetOp, a: Set<u64>, b: Set<u64>) -> Set<u64> {
    Set::new(|x: u64| op_holds(op, a.contains(x), b.contains(x)))
}

/// The symmetric difference of two sets of 64-bit values.
pub open spec fn sym_diff64(a: Set<u64>, b: Set<u64>) -> Set<u64> {
    a.difference(b).union(b.difference(a))
}

proof fn lemma_op_sets64(a: Set<u64>, b: Set<u64>)
    ensures
        op_set64(SetOp::And, a, b) == a.intersect(b),
        op_set64(SetOp::Or, a, b) == a.union(b),
        op_set64(SetOp::Xor, a, b) == sym_diff64(a, b),
        op_set64(SetOp::AndNot, a, b) == a.difference(b),
{
    assert(op_set64(SetOp::And, a, b) =~= a.intersect(b));
    assert(op_set64(SetOp::Or, a, b) =~= a.union(b));
    assert(op_set64(SetOp::Xor, a, b) =~= sym_diff64(a, b));
    assert(op_set64(SetOp::AndNot, a, b) =~= a.difference(b));
}

/// When every key of `r` holds `op` applied to the same key of `a` and `b`, the
/// whole of `r` is `op` applied to `a` and `b`.
proof fn lemma_entrywise(r: Map<u32, Bitmap>, a: Map<u32, Bitmap>, b: Map<u32, Bitmap>, op: SetOp)
    requires
        forall|k: u32| #[trigger] entry(r, k) == crate::bitmap::op_set(op, entry(a, k), entry(b, k)),
    ensures
        map_set(r) == op_set64(op, map_set(a), map_set(b)),
{
    assert forall|x: u64| #[trigger] map_set(r).contains(x) == op_set64(op, map_set(a), map_set(b)).contains(x) by {
        assert(entry(r, hi(x)) == crate::bitmap::op_set(op, entry(a, hi(x)), entry(b, hi(x))));
        assert(map_set(r).contains(x) == entry(r, hi(x)).contains(lo(x)));
        assert(map_set(a).contains(x) == entry(a, hi(x)).contains(lo(x)));
        assert(map_set(b).contains(x) == entry(b, hi(x)).contains(lo(x)));
    }
    assert(map_set(r) =~= op_set64(op, map_set(a), map_set(b)));
}

/// `m1` holds under `k` what `m0` held there: the same bitmap, or none.
pub open spec fn same_at(m0: Map<u32, Bitmap>, m1: Map<u32, Bitmap>, k: u32) -> bool {
    m1.contains_key(k) == m0.contains_key(k) && (m0.contains_key(k) ==> m1[k] == m0[k])
}

/// Two maps that agree once `k` is removed hold the same under every other
/// key.
proof fn lemma_same_elsewhere(m0: Map<u32, Bitmap>, m1: Map<u32, Bitmap>, k: u32)
    requires
        m1.remove(k) == m0.remove(k),
    ensures
        forall|j: u32| j != k ==> #[trigger] same_at(m0, m1, j),
{
    assert forall|j: u32| j != k implies #[trigger] same_at(m0, m1, j) by {
        assert(m1.remove(k).contains_key(j) == m1.contains_key(j));
        assert(m0.remove(k).contains_key(j) == m0.contains_key(j));
        if m0.contains_key(j) {
            assert(m1.remove(k)[j] == m1[j]);
            assert(m0.remove(k)[j] == m0[j]);
        }
    }
}

/// Every bitmap of `m1` holds some value, or is the one `m0` held under its
/// key: no empty bitmap is new.
pub open spec fn no_new_empty(m0: Map<u32, Bitmap>, m1: Map<u32, Bitmap>) -> bool {
    forall|k: u32| #[trigger] m1.contains_key(k) ==> m1[k]@ != Set::<u32>::empty() || same_at(m0, m1, k)
}

/// Changing only the bitmap under `k`, to one that holds some value or to
/// none, adds no empty bitmap.
proof fn lemma_no_new_empty_step(m: Map<u32, Bitmap>, m0: Map<u32, Bitmap>, m1: Map<u32, Bitmap>, k: u32)
    requires
        no_new_empty(m, m0),
        m1.remove(k) == m0.remove(k),
        m1.contains_key(k) ==> m1[k]@ != Set::<u32>::empty(),
    ensures
        no_new_empty(m, m1),
{
    lemma_same_elsewhere(m0, m1, k);
    assert forall|j: u32| #[trigger] m1.contains_key(j) implies m1[j]@ != Set::<u32>::empty() || same_at(m, m1, j) by {
        if j != k {
            assert(same_at(m0, m1, j));
            assert(m0.contains_key(j));
        }
    }
}

/// Changing only the bitmap under `k`, to one that holds some value or to
/// none, keeps every bitmap non-empty.
proof fn lemma_no_empty_after_key(m0: Map<u32, Bitmap>, m1: Map<u32, Bitmap>, k: u32)
    requires
        no_empty_bitmaps(m0),
        m1.remove(k) == m0.remove(k),
        m1.contains_key(k) ==> m1[k]@ != Set::<u32>::empty(),
    ensures
        no_empty_bitmaps(m1),
{
    assert forall|j: u32| #[trigger] m1.contains_key(j) implies m1[j]@ != Set::<u32>::empty() by {
        if j != k {
            assert(m1.remove(k).contains_key(j));
            assert(m0.remove(k).contains_key(j));
            assert(m1.remove(k)[j] == m1[j]);
            assert(m0.remove(k)[j] == m0[j]);
        }
    }
}

impl Treemap {
    /// Replaces the bitmap under key `k` by `op` applied to it and to the
    /// bitmap under `k` in `other`; empty results leave the key absent.
    fn apply_key(&mut self, other: &Treemap, k: u32, op: SetOp)
        ensures
            entry(final(self).map@, k) == crate::bitmap::op_set(op, entry(old(self).map@, k), entry(other.map@, k)),
            forall|j: u32| j != k ==> #[trigger] entry(final(self).map@, j) == entry(old(self).map@, j),
            forall|j: u32| #[trigger] final(self).map@.contains_key(j) ==> old(self).map@.contains_key(j)
                || other.map@.contains_key(j),
            final(self).map@.remove(k) == old(self).map@.remove(k),
            final(self).map@.contains_key(k) ==> final(self).map@[k]@ != Set::<u32>::empty(),
    {
        let mine = self.map.remove(&k);
        let theirs = other.map.get(&k);
        let ghost gm: Option<Bitmap> = mine;
        let result: Option<Bitmap> = match mine {
            Some(mut b) => {
                match theirs {
                    Some(ob) => {
                        b.combine_inplace(ob, op);
                        Some(b)
                    },
                    None => {
                        match op {
                            SetOp::And => None,
                            _ => Some(b),
                        }
                    },
                }
            },
            None => {
                match theirs {
                    Some(ob) => {
                        match op {
                            SetOp::Or | SetOp::Xor => Some(ob.clone()),
                            _ => None,
                        }
                    },
                    None => None,
                }
            },
        };
        proof {
            assert(crate::bitmap::op_set(op, Set::<u32>::empty(), Set::<u32>::empty()) =~= Set::<u32>::empty());
            match gm {
                Some(b) => {
                    assert(crate::bitmap::op_set(op, b@, Set::<u32>::empty()) =~= (match op {
                        SetOp::And => Set::<u32>::empty(),
                        _ => b@,
                    }));
                },
                None => {
                    match theirs {
                        Some(ob) => {
                            assert(crate::bitmap::op_set(op, Set::<u32>::empty(), ob@) =~= (match op {
                                SetOp::Or | SetOp::Xor => ob@,
                                _ => Set::<u32>::empty(),
                            }));
                        },
                        None => {},
                    }
                },
            }
        }
        match result {
            Some(b) => {
                if !b.is_empty() {
                    self.map.insert(k, b);
                }
            },
            None => {},
        }
        assert(self.map@.remove(k) =~= old(self).map@.remove(k));
    }

    /// Replaces this treemap by `op` applied to it and to `other`. Every key
    /// of `other` ends with a bitmap that holds some value, or none; an
    /// intersection keeps only such keys, while the other operations leave
    /// the keys that `other` lacks as they were.
    fn combine_inplace(&mut self, other: &Treemap, op: SetOp)
        ensures
            forall|k: u32| #[trigger] entry(final(self).map@, k) == crate::bitmap::op_set(op, entry(old(self).map@, k), entry(other.map@, k)),
            final(self)@ == op_set64(op, old(self)@, other@),
            no_empty_bitmaps(old(self).map@) ==> no_empty_bitmaps(final(self).map@),
            forall|k: u32| #[trigger] final(self).map@.contains_key(k) && other.map@.contains_key(k) ==> final(self).map@[k]@
                != Set::<u32>::empty(),
            op is And ==> forall|k: u32| #[trigger] final(self).map@.contains_key(k) ==> other.map@.contains_key(k)
                && final(self).map@[k]@ != Set::<u32>::empty(),
            !(op is And) ==> forall|k: u32| !other.map@.contains_key(k) ==> #[trigger] same_at(old(self).map@, final(self).map@, k),
    {
        let ghost old_m = self.map@;
        let ghost om = other.map@;
        let is_and = match op {
            SetOp::And => true,
            _ => false,
        };
        let theirs = other.keys();
        let mine = self.keys();
        let ghost mut done: Set<u32> = Set::empty();
        let mut i: usize = 0;
        while i < theirs.len()
            invariant
                om == other.map@,
                forall|k: u32| #[trigger] theirs@.contains(k) <==> om.contains_key(k),
                forall|k: u32| #[trigger] mine@.contains(k) <==> old_m.contains_key(k),
                0 <= i <= theirs@.len(),
                theirs@.no_duplicates(),
                forall|k: u32| #[trigger] done.contains(k) <==> theirs@.take(i as int).contains(k),
                forall|k: u32| done.contains(k) ==> #[trigger] entry(self.map@, k) == crate::bitmap::op_set(op, entry(old_m, k), entry(om, k)),
                forall|k: u32| !done.contains(k) ==> #[trigger] entry(self.map@, k) == entry(old_m, k),
                forall|k: u32| done.contains(k) && #[trigger] self.map@.contains_key(k) ==> self.map@[k]@ != Set::<u32>::empty(),
                forall|k: u32| !done.contains(k) ==> #[trigger] same_at(old_m, self.map@, k),
                no_empty_bitmaps(old_m) ==> no_empty_bitmaps(self.map@),
            decreases theirs@.len() - i,
        {
            let k = theirs[i];
            proof {
                if done.contains(k) {
                    let tk = theirs@.take(i as int);
                    let t = choose|t: int| 0 <= t < tk.len() && #[trigger] tk[t] == k;
                    assert(theirs@[t] == theirs@[i as int]);
                }
            }
            let ghost pre = self.map@;
            self.apply_key(other, k, op);
            proof {
                lemma_same_elsewhere(pre, self.map@, k);
                if no_empty_bitmaps(old_m) {
                    lemma_no_empty_after_key(pre, self.map@, k);
                }
                assert(theirs@.take(i + 1) == theirs@.take(i as int).push(k));
                assert forall|j: u32| #[trigger] done.insert(k).contains(j) <==> theirs@.take(i + 1).contains(j) by {
                    if j == k {
                        assert(theirs@.take(i + 1)[i as int] == k);
                    }
                    if theirs@.take(i + 1).contains(j) && j != k {
                        let tk = theirs@.take(i + 1);
                        let t = choose|t: int| 0 <= t < tk.len() && #[trigger] tk[t] == j;
                        assert(theirs@.take(i as int)[t] == j);
                    }
                }
                assert forall|j: u32| done.insert(k).contains(j) && #[trigger] self.map@.contains_key(j) implies self.map@[j]@
                    != Set::<u32>::empty() by {
                    if j != k {
                        assert(same_at(pre, self.map@, j));
                    }
                }
                assert forall|j: u32| !done.insert(k).contains(j) implies #[trigger] same_at(old_m, self.map@, j) by {
                    assert(same_at(pre, self.map@, j));
                    assert(same_at(old_m, pre, j));
                }
                done = done.insert(k);
            }
            i = i + 1;
        }
        assert(theirs@.take(theirs@.len() as int) == theirs@);
        if is_and {
            let mut j: usize = 0;
            while j < mine.len()
                invariant
                    is_and == (op is And),
                    is_and,
                    om == other.map@,
                    forall|k: u32| #[trigger] theirs@.contains(k) <==> om.contains_key(k),
                    forall|k: u32| #[trigger] mine@.contains(k) <==> old_m.contains_key(k),
                    0 <= j <= mine@.len(),
                    forall|k: u32| om.contains_key(k) ==> #[trigger] done.contains(k),
                    forall|k: u32| #[trigger] mine@.take(j as int).contains(k) ==> done.contains(k),
                    forall|k: u32| #[trigger] done.contains(k) ==> om.contains_key(k) || mine@.take(j as int).contains(k),
                    mine@.no_duplicates(),
                    forall|k: u32| done.contains(k) ==> #[trigger] entry(self.map@, k) == crate::bitmap::op_set(op, entry(old_m, k), entry(om, k)),
                    forall|k: u32| !done.contains(k) ==> #[trigger] entry(self.map@, k) == entry(old_m, k),
                    forall|k: u32| done.contains(k) && #[trigger] self.map@.contains_key(k) ==> self.map@[k]@ != Set::<u32>::empty(),
                    forall|k: u32| !done.contains(k) ==> #[trigger] same_at(old_m, self.map@, k),
                    no_empty_bitmaps(old_m) ==> no_empty_bitmaps(self.map@),
                decreases mine@.len() - j,
            {
                let k = mine[j];
                proof {
                    if mine@.take(j as int).contains(k) {
                        let mk = mine@.take(j as int);
                        let t = choose|t: int| 0 <= t < mk.len() && #[trigger] mk[t] == k;
                        assert(mine@[t] == mine@[j as int]);
                    }
                }
                let in_other = other.map.contains_key(&k);
                if !in_other {
                    let ghost pre = self.map@;
                    self.apply_key(other, k, op);
                    proof {
                        lemma_same_elsewhere(pre, self.map@, k);
                        if no_empty_bitmaps(old_m) {
                            lemma_no_empty_after_key(pre, self.map@, k);
                        }
                        assert forall|t: u32| done.insert(k).contains(t) && #[trigger] self.map@.contains_key(t) implies self.map@[t]@
                            != Set::<u32>::empty() by {
                            if t != k {
                                assert(same_at(pre, self.map@, t));
                            }
                        }
                        assert forall|t: u32| !done.insert(k).contains(t) implies #[trigger] same_at(old_m, self.map@, t) by {
                            assert(same_at(pre, self.map@, t));
                            assert(same_at(old_m, pre, t));
                        }
                        done = done.insert(k);
                    }
                }
                proof {
                    assert(mine@.take(j + 1) == mine@.take(j as int).push(k));
                    assert(mine@.take(j + 1)[j as int] == k);
                    assert forall|t: u32| #[trigger] done.contains(t) implies om.contains_key(t) || mine@.take(j + 1).contains(t) by {
                        if !om.contains_key(t) && t != k {
                            assert(mine@.take(j as int).contains(t));
                            let mk = mine@.take(j as int);
                            let q = choose|q: int| 0 <= q < mk.len() && #[trigger] mk[q] == t;
                            assert(mine@.take(j + 1)[q] == t);
                        }
                    }
                    assert forall|t: u32| #[trigger] mine@.take(j + 1).contains(t) implies done.contains(t) by {
                        if t == k {
                            if in_other {
                                assert(om.contains_key(k));
                                assert(done.contains(k));
                            } else {
                                assert(done.contains(k));
                            }
                        }
                        if t != k {
                            let mk = mine@.take(j + 1);
                            let q = choose|q: int| 0 <= q < mk.len() && #[trigger] mk[q] == t;
                            assert(mine@.take(j as int)[q] == t);
                            assert(mine@.take(j as int).contains(t));
                        }
                    }
                }
                j = j + 1;
            }
            proof {
                assert(mine@.take(mine@.len() as int) == mine@);
                assert forall|k: u32| old_m.contains_key(k) implies #[trigger] done.contains(k) by {
                    assert(mine@.contains(k));
                    assert(mine@.take(mine@.len() as int).contains(k));
                }
            }
        }
        proof {
            assert(crate::bitmap::op_set(op, Set::<u32>::empty(), Set::<u32>::empty()) =~= Set::<u32>::empty());
            assert forall|k: u32| #[trigger] entry(self.map@, k) == crate::bitmap::op_set(op, entry(old_m, k), entry(om, k)) by {
                if !done.contains(k) {
                    if is_and {
                        assert(!old_m.contains_key(k));
                    } else {
                        assert(!om.contains_key(k));
                        assert(crate::bitmap::op_set(op, entry(old_m, k), Set::<u32>::empty()) =~= entry(old_m, k));
                    }
                }
            }
            assert forall|k: u32| #[trigger] self.map@.contains_key(k) && om.contains_key(k) implies self.map@[k]@
                != Set::<u32>::empty() by {
                assert(done.contains(k));
            }
            if is_and {
                assert forall|k: u32| #[trigger] self.map@.contains_key(k) implies om.contains_key(k) && self.map@[k]@
                    != Set::<u32>::empty() by {
                    if !done.contains(k) {
                        assert(same_at(old_m, self.map@, k));
                        assert(!old_m.contains_key(k));
                    } else {
                        assert(self.map@[k]@ != Set::<u32>::empty());
                        if !om.contains_key(k) {
                            assert(entry(self.map@, k) == crate::bitmap::op_set(op, entry(old_m, k), entry(om, k)));
                            assert(crate::bitmap::op_set(op, entry(old_m, k), Set::<u32>::empty()) =~= Set::<u32>::empty());
                        }
                    }
                }
            }
            lemma_entrywise(self.map@, old_m, om, op);
        }
    }

    /// Computes the intersection between two treemaps and returns the result
    /// as a new treemap
    pub fn and(&self, other: &Self) -> (r: Self)
        ensures
            r@ == self@.intersect(other@),
            no_empty_bitmaps(self.map@) ==> no_empty_bitmaps(r.map@),
            forall|k: u32| #[trigger] r.map@.contains_key(k) ==> other.map@.contains_key(k) && r.map@[k]@ != Set::<u32>::empty(),
    {
        let mut r = self.clone();
        r.combine_inplace(other, SetOp::And);
        proof { lemma_op_sets64(self@, other@); }
        r
    }

    /// Computes the intersection between two treemaps and stores the result
    /// in the current treemap
    pub fn and_inplace(&mut self, other: &Self)
        ensures
            final(self)@ == old(self)@.intersect(other@),
            no_empty_bitmaps(old(self).map@) ==> no_empty_bitmaps(final(self).map@),
            forall|k: u32| #[trigger] final(self).map@.contains_key(k) ==> other.map@.contains_key(k)
                && final(self).map@[k]@ != Set::<u32>::empty(),
    {
        self.combine_inplace(other, SetOp::And);
        proof { lemma_op_sets64(old(self)@, other@); }
    }

    /// Computes the union between two treemaps and returns the result
    /// as a new treemap
    pub fn or(&self, other: &Self) -> (r: Self)
        ensures
            r@ == self@.union(other@),
            no_empty_bitmaps(self.map@) ==> no_empty_bitmaps(r.map@),
    {
        let mut r = self.clone();
        r.combine_inplace(other, SetOp::Or);
        proof { lemma_op_sets64(self@, other@); }
        r
    }

    /// Computes the union between two treemaps and stores the result
    /// in the current treemap
    pub fn or_inplace(&mut self, other: &Self)
        ensures
            final(self)@ == old(self)@.union(other@),
            no_empty_bitmaps(old(self).map@) ==> no_empty_bitmaps(final(self).map@),
    {
        self.combine_inplace(other, SetOp::Or);
        proof { lemma_op_sets64(old(self)@, other@); }
    }

    /// Computes the symmetric difference (xor) between two treemaps
    /// and returns a new treemap.
    pub fn xor(&self, other: &Self) -> (r: Self)
        ensures
            r@ == sym_diff64(self@, other@),
            no_empty_bitmaps(self.map@) ==> no_empty_bitmaps(r.map@),
            forall|k: u32| #[trigger] r.map@.contains_key(k) && other.map@.contains_key(k) ==> r.map@[k]@ != Set::<u32>::empty(),
            forall|k: u32| !other.map@.contains_key(k) ==> #[trigger] same_at(self.map@, r.map@, k),
    {
        let mut r = self.clone();
        r.combine_inplace(other, SetOp::Xor);
        proof { lemma_op_sets64(self@, other@); }
        r
    }

    /// Inplace version of xor, stores result in the current treemap.
    pub fn xor_inplace(&mut self, other: &Self)
        ensures
            final(self)@ == sym_diff64(old(self)@, other@),
            no_empty_bitmaps(old(self).map@) ==> no_empty_bitmaps(final(self).map@),
            forall|k: u32| #[trigger] final(self).map@.contains_key(k) && other.map@.contains_key(k) ==> final(self).map@[k]@
                != Set::<u32>::empty(),
            forall|k: u32| !other.map@.contains_key(k) ==> #[trigger] same_at(old(self).map@, final(self).map@, k),
    {
        self.combine_inplace(other, SetOp::Xor);
        proof { lemma_op_sets64(old(self)@, other@); }
    }

    /// Computes the difference between two treemaps and returns the result.
    pub fn andnot(&self, other: &Self) -> (r: Self)
        ensures
            r@ == self@.difference(other@),
            no_empty_bitmaps(self.map@) ==> no_empty_bitmaps(r.map@),
    {
        let mut r = self.clone();
        r.combine_inplace(other, SetOp::AndNot);
        proof { lemma_op_sets64(self@, other@); }
        r
    }

    /// Computes the difference between two treemaps and stores the result
    /// in the current treemap.
    pub fn andnot_inplace(&mut self, other: &Self)
        ensures
            final(self)@ == old(self)@.difference(other@),
            no_empty_bitmaps(old(self).map@) ==> no_empty_bitmaps(final(self).map@),
    {
        self.combine_inplace(other, SetOp::AndNot);
        proof { lemma_op_sets64(old(self)@, other@); }
    }
}

/// Values ordered by their high halves first.
pub(crate) proof fn lemma_order_by_halves(a: u64, b: u64)
    ensures
        hi(a) < hi(b) ==> a < b,
        hi(a) == hi(b) && lo(a) < lo(b) ==> a < b,
        hi(a) == hi(b) && lo(a) == lo(b) ==> a == b,
{
    lemma_joined_hi_lo(a);
    lemma_joined_hi_lo(b);
    assert(hi(a) < hi(b) ==> a < b) by (nonlinear_arith)
        requires
            a == hi(a) * 0x1_0000_0000 + lo(a),
            b == hi(b) * 0x1_0000_0000 + lo(b),
            lo(a) < 0x1_0000_0000,
            lo(b) < 0x1_0000_0000,
    ;
}

/// The low halves of the values under key `k` that lie in `[start, last]`.
pub open spec fn key_range(k: u32, start: int, last: int) -> Set<u32> {
    Set::new(|l: u32| start <= joined(k, l) <= last)
}

/// How a value with halves `k` and `l` compares to `v`.
pub(crate) proof fn lemma_joined_order(k: u32, l: u32, v: u64)
    ensures
        (joined(k, l) < v) == (k < hi(v) || (k == hi(v) && l < lo(v))),
        (joined(k, l) == v) == (k == hi(v) && l == lo(v)),
{
    lemma_hi_lo_joined(k, l);
    lemma_order_by_halves(joined(k, l), v);
    lemma_order_by_halves(v, joined(k, l));
}

/// Which low halves under key `k` lie in `[start, end]`.
pub(crate) proof fn lemma_key_range(k: u32, start: u64, end: u64)
    ensures
        forall|l: u32| #[trigger] key_range(k, start as int, end as int).contains(l) == ((k > hi(start) || (k
            == hi(start) && l >= lo(start))) && (k < hi(end) || (k == hi(end) && l <= lo(end)))),
{
    assert forall|l: u32| #[trigger] key_range(k, start as int, end as int).contains(l) == ((k > hi(start) || (k
        == hi(start) && l >= lo(start))) && (k < hi(end) || (k == hi(end) && l <= lo(end)))) by {
        lemma_joined_order(k, l, start);
        lemma_joined_order(k, l, end);
    }
}

/// The strictly increasing sequences of 64-bit values.
pub open spec fn strictly_increasing64(s: Seq<u64>) -> bool {
    forall|i: int, j: int| 0 <= i < j < s.len() ==> s[i] < s[j]
}

impl Treemap {
    /// Empties the Treemap
    pub fn clear(&mut self)
        ensures
            final(self)@ == Set::<u64>::empty(),
            final(self).map@ == Map::<u32, Bitmap>::empty(),
    {
        self.map.clear();
        assert(self@ =~= Set::<u64>::empty());
    }

    /// Returns the smallest value in the set.
    /// Returns `None` if the set is empty.
    pub fn minimum(&self) -> (r: Option<u64>)
        ensures
            r is None <==> self@ == Set::<u64>::empty(),
            r matches Some(m) ==> self@.contains(m) && forall|y: u64| #[trigger] self@.contains(y) ==> m <= y,
    {
        let ks = self.keys();
        let mut i: usize = 0;
        while i < ks.len()
            invariant
                forall|k: u32| #[trigger] ks@.contains(k) <==> self.map@.contains_key(k),
                forall|a: int, b: int| 0 <= a < b < ks@.len() ==> ks@[a] < ks@[b],
                0 <= i <= ks@.len(),
                forall|a: int| 0 <= a < i ==> (#[trigger] entry(self.map@, ks@[a])) == Set::<u32>::empty(),
            decreases ks@.len() - i,
        {
            let k = ks[i];
            assert(ks@.contains(k));
            let b = self.map.get(&k).unwrap();
            match b.minimum() {
                Some(m) => {
                    let r = join(k, m);
                    proof {
                        assert(self@.contains(r));
                        assert forall|y: u64| #[trigger] self@.contains(y) implies r <= y by {
                            lemma_order_by_halves(r, y);
                            assert(ks@.contains(hi(y)));
                            let a = choose|a: int| 0 <= a < ks@.len() && ks@[a] == hi(y);
                            if a < i {
                                assert(entry(self.map@, ks@[a]) == Set::<u32>::empty());
                                assert(entry(self.map@, hi(y)).contains(lo(y)));
                            } else if a > i {
                                assert(k < hi(y));
                            } else {
                                assert(b@.contains(lo(y)));
                            }
                        }
                    }
                    return Some(r);
                },
                None => {},
            }
            i = i + 1;
        }
        proof {
            assert forall|y: u64| !#[trigger] self@.contains(y) by {
                if self@.contains(y) {
                    assert(ks@.contains(hi(y)));
                    let a = choose|a: int| 0 <= a < ks@.len() && ks@[a] == hi(y);
                    assert(entry(self.map@, ks@[a]) == Set::<u32>::empty());
                    assert(entry(self.map@, hi(y)).contains(lo(y)));
                }
            }
            assert(self@ =~= Set::<u64>::empty());
        }
        None
    }

    /// Returns the greatest value in the set.
    /// Returns `None` if the set is empty.
    pub fn maximum(&self) -> (r: Option<u64>)
        ensures
            r is None <==> self@ == Set::<u64>::empty(),
            r matches Some(m) ==> self@.contains(m) && forall|y: u64| #[trigger] self@.contains(y) ==> y <= m,
    {
        let ks = self.keys();
        let mut i: usize = ks.len();
        while i > 0
            invariant
                forall|k: u32| #[trigger] ks@.contains(k) <==> self.map@.contains_key(k),
                forall|a: int, b: int| 0 <= a < b < ks@.len() ==> ks@[a] < ks@[b],
                0 <= i <= ks@.len(),
                forall|a: int| i <= a < ks@.len() ==> (#[trigger] entry(self.map@, ks@[a])) == Set::<u32>::empty(),
            decreases i,
        {
            let k = ks[i - 1];
            assert(ks@.contains(k));
            let b = self.map.get(&k).unwrap();
            match b.maximum() {
                Some(m) => {
                    let r = join(k, m);
                    proof {
                        assert(self@.contains(r));
                        assert forall|y: u64| #[trigger] self@.contains(y) implies y <= r by {
                            lemma_order_by_halves(y, r);
                            assert(ks@.contains(hi(y)));
                            let a = choose|a: int| 0 <= a < ks@.len() && ks@[a] == hi(y);
                            if a > i - 1 {
                                assert(entry(self.map@, ks@[a]) == Set::<u32>::empty());
                                assert(entry(self.map@, hi(y)).contains(lo(y)));
                            } else if a < i - 1 {
                                assert(hi(y) < k);
                            } else {
                                assert(b@.contains(lo(y)));
                            }
                        }
                    }
                    return Some(r);
                },
                None => {},
            }
            i = i - 1;
        }
        proof {
            assert forall|y: u64| !#[trigger] self@.contains(y) by {
                if self@.contains(y) {
                    assert(ks@.contains(hi(y)));
                    let a = choose|a: int| 0 <= a < ks@.len() && ks@[a] == hi(y);
                    assert(entry(self.map@, ks@[a]) == Set::<u32>::empty());
                    assert(entry(self.map@, hi(y)).contains(lo(y)));
                }
            }
            assert(self@ =~= Set::<u64>::empty());
        }
        None
    }

    /// Returns a vector containing all of the integers stored in the Treemap
    /// in a sorted order.
    pub fn to_vec(&self) -> (r: Vec<u64>)
        ensures
            strictly_increasing64(r@),
            forall|x: u64| #[trigger] r@.contains(x) <==> self@.contains(x),
    {
        let ks = self.keys();
        let mut out: Vec<u64> = Vec::new();
        let mut i: usize = 0;
        while i < ks.len()
            invariant
                forall|k: u32| #[trigger] ks@.contains(k) <==> self.map@.contains_key(k),
                forall|a: int, b: int| 0 <= a < b < ks@.len() ==> ks@[a] < ks@[b],
                0 <= i <= ks@.len(),
                strictly_increasing64(out@),
                out@.len() > 0 ==> forall|c: int| i <= c < ks@.len() ==> hi(out@.last()) < #[trigger] ks@[c],
                forall|x: u64| #[trigger] out@.contains(x) <==> (self@.contains(x) && exists|a: int| 0 <= a < i && ks@[a] == hi(x)),
            decreases ks@.len() - i,
        {
            let k = ks[i];
            assert(ks@.contains(k));
            assert(out@.len() > 0 ==> hi(out@.last()) < ks@[i as int]);
            let b = self.map.get(&k).unwrap();
            let vals = b.to_vec();
            let ghost before = out@;
            let mut j: usize = 0;
            while j < vals.len()
                invariant
                    strictly_increasing(vals@),
                    forall|y: u32| #[trigger] vals@.contains(y) <==> b@.contains(y),
                    0 <= j <= vals@.len(),
                    strictly_increasing64(out@),
                    out@.len() >= before.len(),
                    out@.subrange(0, before.len() as int) == before,
                    before.len() > 0 ==> hi(before.last()) < k,
                    before.len() > 0 ==> forall|c: int| i <= c < ks@.len() ==> hi(before.last()) < #[trigger] ks@[c],
                    i < ks@.len(),
                    k == ks@[i as int],
                    forall|a: int, c: int| 0 <= a < c < ks@.len() ==> ks@[a] < ks@[c],
                    j > 0 ==> out@.len() > 0 && out@.last() == joined(k, vals@[j - 1]),
                    j == 0 ==> out@ == before,
                    forall|x: u64| #[trigger] out@.contains(x) <==> (before.contains(x) || (hi(x) == k
                        && exists|c: int| 0 <= c < j && vals@[c] == lo(x))),
                decreases vals@.len() - j,
            {
                let x = join(k, vals[j]);
                let ghost prev = out@;
                proof {
                    if prev.len() > 0 {
                        if j > 0 {
                            assert(vals@[j - 1] < vals@[j as int]);
                            lemma_order_by_halves(prev.last(), x);
                        } else {
                            lemma_order_by_halves(prev.last(), x);
                        }
                        assert forall|t: int| 0 <= t < prev.len() implies prev[t] < x by {
                            if t < prev.len() - 1 {
                                assert(prev[t] < prev[prev.len() - 1]);
                            }
                        }
                    }
                }
                out.push(x);
                proof {
                    assert forall|a: int, c: int| 0 <= a < c < out@.len() implies out@[a] < out@[c] by {
                        if c == prev.len() {
                            assert(out@[a] == prev[a]);
                        } else {
                            assert(out@[a] == prev[a] && out@[c] == prev[c]);
                        }
                    }
                    assert(out@.subrange(0, before.len() as int) =~= before);
                    assert forall|y: u64| #[trigger] out@.contains(y) <==> (before.contains(y) || (hi(y) == k
                        && exists|c: int| 0 <= c < j + 1 && vals@[c] == lo(y))) by {
                        if out@.contains(y) {
                            let t = choose|t: int| 0 <= t < out@.len() && out@[t] == y;
                            if t < prev.len() {
                                assert(prev.contains(y));
                            } else {
                                assert(y == x);
                                assert(vals@[j as int] == lo(y));
                            }
                        }
                        if hi(y) == k && exists|c: int| 0 <= c < j + 1 && vals@[c] == lo(y) {
                            let c = choose|c: int| 0 <= c < j + 1 && vals@[c] == lo(y);
                            if c == j {
                                lemma_joined_hi_lo(y);
                                assert(out@[prev.len() as int] == y);
                            } else {
                                assert(prev.contains(y));
                                let t = choose|t: int| 0 <= t < prev.len() && prev[t] == y;
                                assert(out@[t] == y);
                            }
                        }
                        if before.contains(y) {
                            assert(prev.contains(y));
                            let t = choose|t: int| 0 <= t < prev.len() && prev[t] == y;
                            assert(out@[t] == y);
                        }
                    }
                }
                j = j + 1;
            }
            proof {
                assert forall|x: u64| #[trigger] out@.contains(x) <==> (self@.contains(x) && exists|a: int| 0 <= a < i + 1 && ks@[a] == hi(x)) by {
                    if hi(x) == k {
                        assert(ks@[i as int] == hi(x));
                        if b@.contains(lo(x)) {
                            assert(vals@.contains(lo(x)));
                        }
                        if exists|c: int| 0 <= c < vals@.len() && vals@[c] == lo(x) {
                            let c = choose|c: int| 0 <= c < vals@.len() && vals@[c] == lo(x);
                            assert(vals@.contains(lo(x)));
                        }
                    } else {
                        if exists|a: int| 0 <= a < i + 1 && ks@[a] == hi(x) {
                            let a = choose|a: int| 0 <= a < i + 1 && ks@[a] == hi(x);
                            assert(a != i);
                        }
                    }
                }
                if out@.len() > 0 && out@.len() > before.len() {
                    lemma_hi_lo_joined(k, vals@[vals@.len() - 1]);
                    assert forall|c: int| i + 1 <= c < ks@.len() implies hi(out@.last()) < #[trigger] ks@[c] by {
                        assert(ks@[i as int] < ks@[c]);
                    }
                }
            }
            i = i + 1;
        }
        proof {
            assert forall|x: u64| #[trigger] out@.contains(x) <==> self@.contains(x) by {
                if self@.contains(x) {
                    assert(ks@.contains(hi(x)));
                }
            }
        }
        out
    }

    /// Creates a new treemap from a slice of u64 integers
    pub fn of(elements: &[u64]) -> (r: Self)
        ensures
            r@ == elements@.to_set(),
            no_empty_bitmaps(r.map@),
            runs_carried(Map::empty(), r.map@),
    {
        let mut r = Treemap::new();
        r.extend(elements);
        assert(Set::<u64>::empty().union(elements@.to_set()) =~= elements@.to_set());
        r
    }

    /// Adds all the given values to the treemap
    pub fn extend(&mut self, elements: &[u64])
        ensures
            final(self)@ == old(self)@.union(elements@.to_set()),
            no_empty_bitmaps(old(self).map@) ==> no_empty_bitmaps(final(self).map@),
            runs_carried(old(self).map@, final(self).map@),
            buckets_kept(old(self).map@, final(self).map@),
    {
        let mut i: usize = 0;
        while i < elements.len()
            invariant
                i <= elements@.len(),
                self@ == old(self)@.union(elements@.take(i as int).to_set()),
                no_empty_bitmaps(old(self).map@) ==> no_empty_bitmaps(self.map@),
                runs_carried(old(self).map@, self.map@),
                buckets_kept(old(self).map@, self.map@),
            decreases elements@.len() - i,
        {
            let ghost before = self.map@;
            self.add(elements[i]);
            proof {
                lemma_runs_carried_chain(old(self).map@, before, self.map@);
                assert(elements@.take(i + 1) == elements@.take(i as int).push(elements@[i as int]));
                elements@.take(i as int).lemma_push_to_set_commute(elements@[i as int]);
                assert(self@ =~= old(self)@.union(elements@.take(i + 1).to_set()));
            }
            i = i + 1;
        }
        assert(elements@.take(elements@.len() as int) == elements@);
    }

    /// Returns true if all the elements of Self are in &other.
    pub fn is_subset(&self, other: &Self) -> (r: bool)
        ensures
            r == self@.subset_of(other@),
    {
        let rest = self.andnot(other);
        let e = rest.is_empty();
        proof {
            if !e {
                assert(!(rest@ =~= Set::<u64>::empty()));
                let x = choose|x: u64| rest@.contains(x);
                assert(rest@.contains(x));
            } else {
                assert forall|x: u64| self@.contains(x) implies other@.contains(x) by {
                    assert(!rest@.contains(x));
                }
            }
        }
        e
    }

    /// Returns true if all the elements of Self are in &other and &other
    /// holds some element that Self does not.
    pub fn is_strict_subset(&self, other: &Self) -> (r: bool)
        ensures
            r == (self@.subset_of(other@) && self@ != other@),
    {
        let a = self.is_subset(other);
        let b = other.is_subset(self);
        proof {
            if a && b {
                assert(self@ =~= other@);
            }
        }
        a && !b
    }

    /// Add all values in range
    pub fn add_range(&mut self, range: RangeInclusive<u64>)
        ensures
            final(self)@ == old(self)@.union(interval64(range.start as int, range.last as int)),
            no_empty_bitmaps(old(self).map@) ==> no_empty_bitmaps(final(self).map@),
            range.start > range.last ==> final(self).map@ == old(self).map@,
            no_new_empty(old(self).map@, final(self).map@),
    {
        let start = range.start;
        let end = range.last;
        proof {
            assert(no_new_empty(self.map@, self.map@));
        }
        if start > end {
            assert(interval64(start as int, end as int) =~= Set::<u64>::empty());
            assert(self@.union(Set::<u64>::empty()) =~= self@);
            return;
        }
        let ghost old_m = self.map@;
        let (start_high, start_low) = split(start);
        let (end_high, end_low) = split(end);
        proof {
            lemma_order_by_halves(start, end);
        }
        proof {
            lemma_key_range(start_high, start, end);
            lemma_key_range(end_high, start, end);
        }
        if start_high == end_high {
            assert(interval(start_low as int, end_low as int) =~= key_range(start_high, start as int, end as int));
            let ghost pre = self.map@;
            self.add_range_in_key(start_high, start_low, end_low, Ghost(start as int), Ghost(end as int));
            proof {
                if no_empty_bitmaps(old_m) {
                    lemma_no_empty_after_key(pre, self.map@, start_high);
                }
                lemma_no_new_empty_step(old_m, pre, self.map@, start_high);
            }
        } else {
            // 1. the values of the first key from `start_low` on
            assert(interval(start_low as int, u32::MAX as int) =~= key_range(start_high, start as int, end as int));
            let ghost pre = self.map@;
            self.add_range_in_key(start_high, start_low, u32::MAX, Ghost(start as int), Ghost(end as int));
            proof {
                if no_empty_bitmaps(old_m) {
                    lemma_no_empty_after_key(pre, self.map@, start_high);
                }
                lemma_no_new_empty_step(old_m, pre, self.map@, start_high);
            }
            // 2. every value of the keys strictly between
            let mut k: u32 = start_high + 1;
            while k < end_high
                invariant
                    start_high < k <= end_high,
                    start == joined(start_high, start_low),
                    end == joined(end_high, end_low),
                    start_high == hi(start) && end_high == hi(end),
                    forall|j: u32| #[trigger] entry(self.map@, j) == if start_high <= j < k {
                        entry(old_m, j).union(key_range(j, start as int, end as int))
                    } else {
                        entry(old_m, j)
                    },
                    no_empty_bitmaps(old_m) ==> no_empty_bitmaps(self.map@),
                    no_new_empty(old_m, self.map@),
                decreases end_high - k,
            {
                proof {
                    lemma_key_range(k, start, end);
                    assert(interval(0, u32::MAX as int) =~= key_range(k, start as int, end as int));
                }
                let ghost pre = self.map@;
                self.add_range_in_key(k, 0, u32::MAX, Ghost(start as int), Ghost(end as int));
                proof {
                    if no_empty_bitmaps(old_m) {
                        lemma_no_empty_after_key(pre, self.map@, k);
                    }
                    lemma_no_new_empty_step(old_m, pre, self.map@, k);
                }
                k = k + 1;
            }
            // 3. the values of the last key up to `end_low`
            assert(interval(0, end_low as int) =~= key_range(end_high, start as int, end as int));
            let ghost pre = self.map@;
            self.add_range_in_key(end_high, 0, end_low, Ghost(start as int), Ghost(end as int));
            proof {
                if no_empty_bitmaps(old_m) {
                    lemma_no_empty_after_key(pre, self.map@, end_high);
                }
                lemma_no_new_empty_step(old_m, pre, self.map@, end_high);
            }
        }
        proof {
            assert forall|j: u32| #[trigger] entry(self.map@, j) == entry(old_m, j).union(key_range(j, start as int, end as int)) by {
                lemma_key_range(j, start, end);
                if j < start_high || j > end_high {
                    assert(key_range(j, start as int, end as int) =~= Set::<u32>::empty());
                    assert(entry(old_m, j).union(Set::<u32>::empty()) =~= entry(old_m, j));
                }
            }
            assert forall|x: u64| #[trigger] self@.contains(x) == old(self)@.union(interval64(start as int, end as int)).contains(x) by {
                lemma_joined_hi_lo(x);
                assert(self@.contains(x) == entry(self.map@, hi(x)).contains(lo(x)));
                assert(old(self)@.contains(x) == entry(old_m, hi(x)).contains(lo(x)));
                assert(entry(self.map@, hi(x)) == entry(old_m, hi(x)).union(key_range(hi(x), start as int, end as int)));
            }
            assert(self@ =~= old(self)@.union(interval64(start as int, end as int)));
        }
    }

    /// Adds the low halves `[lo, hi]` under key `k`, which are exactly the values of
    /// `[start, last]` under that key.
    fn add_range_in_key(&mut self, k: u32, lo_v: u32, hi_v: u32, Ghost(start): Ghost<int>, Ghost(last): Ghost<int>)
        requires
            interval(lo_v as int, hi_v as int) == key_range(k, start, last),
            lo_v <= hi_v,
        ensures
            entry(final(self).map@, k) == entry(old(self).map@, k).union(key_range(k, start, last)),
            forall|j: u32| j != k ==> #[trigger] entry(final(self).map@, j) == entry(old(self).map@, j),
            final(self).map@.remove(k) == old(self).map@.remove(k),
            final(self).map@.contains_key(k) ==> final(self).map@[k]@ != Set::<u32>::empty(),
    {
        let mut b = match self.map.remove(&k) {
            Some(b) => b,
            None => Bitmap::new(),
        };
        b.add_range(RangeInclusive { start: lo_v, last: hi_v });
        assert(b@.contains(lo_v));
        self.map.insert(k, b);
        assert(self.map@.remove(k) =~= old(self).map@.remove(k));
    }
}

impl Treemap {
    /// Removes the low halves `[lo, hi]` under key `k`, which are exactly the
    /// values of `[start, last]` under that key; a bitmap left empty is dropped.
    fn remove_range_in_key(&mut self, k: u32, lo_v: u32, hi_v: u32, Ghost(start): Ghost<int>, Ghost(last): Ghost<int>)
        requires
            interval(lo_v as int, hi_v as int) == key_range(k, start, last),
        ensures
            entry(final(self).map@, k) == entry(old(self).map@, k).difference(key_range(k, start, last)),
            forall|j: u32| j != k ==> #[trigger] entry(final(self).map@, j) == entry(old(self).map@, j),
            final(self).map@.remove(k) == old(self).map@.remove(k),
            final(self).map@.contains_key(k) ==> final(self).map@[k]@ != Set::<u32>::empty(),
    {
        match self.map.remove(&k) {
            Some(mut b) => {
                b.remove_range(RangeInclusive { start: lo_v, last: hi_v });
                if !b.is_empty() {
                    self.map.insert(k, b);
                } else {
                    assert(entry(self.map@, k) =~= b@);
                }
            },
            None => {
                assert(entry(self.map@, k) =~= entry(old(self).map@, k).difference(key_range(k, start, last)));
            },
        }
        assert(self.map@.remove(k) =~= old(self).map@.remove(k));
    }

    /// Remove all values in range
    pub fn remove_range(&mut self, range: RangeInclusive<u64>)
        ensures
            final(self)@ == old(self)@.difference(interval64(range.start as int, range.last as int)),
            no_empty_bitmaps(old(self).map@) ==> no_empty_bitmaps(final(self).map@),
    {
        let start = range.start;
        let end = range.last;
        if start > end {
            assert(interval64(start as int, end as int) =~= Set::<u64>::empty());
            assert(self@.difference(Set::<u64>::empty()) =~= self@);
            return;
        }
        let ghost old_m = self.map@;
        let (start_high, start_low) = split(start);
        let (end_high, end_low) = split(end);
        proof {
            lemma_order_by_halves(start, end);
        }
        let ks = self.keys();
        let mut i: usize = 0;
        while i < ks.len()
            invariant
                forall|k: u32| #[trigger] ks@.contains(k) <==> old_m.contains_key(k),
                ks@.no_duplicates(),
                0 <= i <= ks@.len(),
                start_high == hi(start) && end_high == hi(end),
                start_low == lo(start) && end_low == lo(end),
                start <= end,
                forall|j: u32| #[trigger] entry(self.map@, j) == if ks@.take(i as int).contains(j) {
                    entry(old_m, j).difference(key_range(j, start as int, end as int))
                } else {
                    entry(old_m, j)
                },
                no_empty_bitmaps(old_m) ==> no_empty_bitmaps(self.map@),
            decreases ks@.len() - i,
        {
            let k = ks[i];
            proof {
                if ks@.take(i as int).contains(k) {
                    let t = choose|t: int| 0 <= t < ks@.take(i as int).len() && #[trigger] ks@.take(i as int)[t] == k;
                    assert(ks@[t] == ks@[i as int]);
                }
                assert(ks@.take(i + 1) == ks@.take(i as int).push(k));
                lemma_key_range(k, start, end);
            }
            if start_high <= k && k <= end_high {
                let lo_v = if k == start_high { start_low } else { 0 };
                let hi_v = if k == end_high { end_low } else { u32::MAX };
                assert(interval(lo_v as int, hi_v as int) =~= key_range(k, start as int, end as int));
                let ghost pre = self.map@;
                self.remove_range_in_key(k, lo_v, hi_v, Ghost(start as int), Ghost(end as int));
                proof {
                    if no_empty_bitmaps(old_m) {
                        lemma_no_empty_after_key(pre, self.map@, k);
                    }
                }
            } else {
                assert(key_range(k, start as int, end as int) =~= Set::<u32>::empty());
                assert(entry(old_m, k).difference(Set::<u32>::empty()) =~= entry(old_m, k));
            }
            proof {
                assert forall|j: u32| #[trigger] ks@.take(i + 1).contains(j) == (ks@.take(i as int).contains(j) || j == k) by {
                    if ks@.take(i + 1).contains(j) && j != k {
                        let t = choose|t: int| 0 <= t < ks@.take(i + 1).len() && #[trigger] ks@.take(i + 1)[t] == j;
                        assert(ks@.take(i as int)[t] == j);
                    }
                    if j == k {
                        assert(ks@.take(i + 1)[i as int] == k);
                    }
                }
            }
            i = i + 1;
        }
        proof {
            assert(ks@.take(ks@.len() as int) == ks@);
            assert forall|x: u64| #[trigger] self@.contains(x) == old(self)@.difference(interval64(start as int, end as int)).contains(x) by {
                lemma_joined_hi_lo(x);
                lemma_key_range(hi(x), start, end);
                assert(self@.contains(x) == entry(self.map@, hi(x)).contains(lo(x)));
                assert(old(self)@.contains(x) == entry(old_m, hi(x)).contains(lo(x)));
                if !ks@.contains(hi(x)) {
                    assert(entry(old_m, hi(x)) == Set::<u32>::empty());
                }
                assert(key_range(hi(x), start as int, end as int).contains(lo(x)) == (start <= x <= end));
            }
            assert(self@ =~= old(self)@.difference(interval64(start as int, end as int)));
        }
    }
}

impl PartialEq for Treemap {
    fn eq(&self, other: &Self) -> (r: bool) {
        let a = self.is_subset(other);
        let b = other.is_subset(self);
        proof {
            if a && b {
                assert(self@ =~= other@);
            }
        }
        a && b
    }
}

impl vstd::std_specs::cmp::PartialEqSpecImpl for Treemap {
    open spec fn obeys_eq_spec() -> bool {
        true
    }

    open spec fn eq_spec(&self, other: &Self) -> bool {
        self@ == other@
    }
}

impl Eq for Treemap {
}

impl Default for Treemap {
    fn default() -> (r: Self)
        ensures
            r@ == Set::<u64>::empty(),
    {
        Self::new()
    }
}

/// An iterator over the values of a treemap, in increasing order.
pub struct TreemapIterator {
    values: Vec<u64>,
    next: usize,
}

impl TreemapIterator {
    #[verifier::type_invariant]
    spec fn inv(self) -> bool {
        self.next <= self.values@.len()
    }

    /// The values the iterator has yet to give, in order.
    pub closed spec fn remaining(&self) -> Seq<u64> {
        self.values@.skip(self.next as int)
    }

    /// The next value, if any.
    pub fn next(&mut self) -> (r: Option<u64>)
        ensures
            old(self).remaining().len() == 0 ==> r is None && final(self).remaining() == old(self).remaining(),
            old(self).remaining().len() > 0 ==> r == Some(old(self).remaining()[0]) && final(self).remaining()
                == old(self).remaining().skip(1),
    {
        proof {
            use_type_invariant(&*self);
        }
        if self.next < self.values.len() {
            let v = self.values[self.next];
            assert(old(self).values@.skip(old(self).next as int)[0] == v);
            self.next = self.next + 1;
            assert(self.values@.skip(self.next as int) =~= old(self).values@.skip(old(self).next as int).skip(1));
            Some(v)
        } else {
            None
        }
    }
}

impl Treemap {
    /// An iterator over the values of the treemap, in increasing order. Each
    /// bitmap of the treemap must hold some value.
    pub fn iter(&self) -> (r: TreemapIterator)
        requires
            no_empty_bitmaps(self.map@),
        ensures
            strictly_increasing64(r.remaining()),
            forall|x: u64| #[trigger] r.remaining().contains(x) <==> self@.contains(x),
    {
        let values = self.to_vec();
        let r = TreemapIterator { values, next: 0 };
        assert(r.values@.skip(0) =~= r.values@);
        r
    }
}

} // verus!
