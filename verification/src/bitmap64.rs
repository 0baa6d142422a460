//! A compressed bitmap of 64-bit integers. Its values are kept by the high 32
//! bits of each value in a map of 32-bit bitmaps.
use crate::bitmap::Bitmap;
use crate::encode::{containers_of, has_run};
use crate::range::{interval64, upper_u64, Bound, RangeInclusive};
use crate::serialization::{Portable, Sealed};
use crate::treemap::{hi, joined, lo, map_set, runs_carried, strictly_increasing64, sym_diff64, Treemap};
use crate::treemap_serialization::{map_views, Deserializer as TreemapDeserializer, Serializer as TreemapSerializer};
use vstd::prelude::*;

verus! {

/// The values of `a` that are smaller than `v`.
pub open spec fn below64(a: Set<u64>, v: int) -> Set<u64> {
    a.filter(|y: u64| y < v)
}

/// The values `lo, lo + step, lo + 2 * step, ...` up to `hi`.
pub open spec fn stepped64(lo: int, hi: int, step: int) -> Set<u64> {
    Set::new(|x: u64| lo <= x <= hi && (x - lo) % step == 0)
}

/// A compressed bitmap of 64-bit integers.
#[derive(Debug)]
pub struct Bitmap64 {
    tree: Treemap,
}

impl View for Bitmap64 {
    type V = Set<u64>;

    closed spec fn view(&self) -> Set<u64> {
        self.tree@
    }
}

impl Bitmap64 {
    /// Every 64-bit bitmap holds finitely many values.
    pub proof fn lemma_finite(&self)
        ensures
            self@.finite(),
    {
        self.tree.lemma_finite();
    }

    /// Create a new empty bitmap
    pub fn new() -> (r: Self)
        ensures
            r@ == Set::<u64>::empty(),
            r.buckets() == Map::<u32, Bitmap>::empty(),
    {
        let r = Bitmap64 { tree: Treemap::new() };
        assert(r.buckets() =~= Map::<u32, Bitmap>::empty());
        r
    }

    /// Creates a new bitmap from a slice of u64 integers
    pub fn of(slice: &[u64]) -> (r: Self)
        ensures
            r@ == slice@.to_set(),
            runs_carried(Map::empty(), r.buckets()),
    {
        let r = Bitmap64 { tree: Treemap::of(slice) };
        proof {
            lemma_buckets_carried(Map::empty(), r.tree.map@);
            assert(nonempty(Map::<u32, Bitmap>::empty()) =~= Map::<u32, Bitmap>::empty());
        }
        r
    }

    /// Create a new bitmap containing all the values in a range
    pub fn from_range(range: RangeInclusive<u64>) -> (r: Self)
        ensures
            r@ == interval64(range.start as int, range.last as int),
    {
        let mut tree = Treemap::new();
        tree.add_range(range);
        assert(Set::<u64>::empty().union(interval64(range.start as int, range.last as int)) =~= interval64(
            range.start as int,
            range.last as int,
        ));
        Bitmap64 { tree }
    }

    /// Create a new bitmap containing all the values in the range given by
    /// two bounds which are a multiple of `step` away from the lower bound.
    /// An excluded start bound steps from the start without including it. If
    /// `step` is 0 or no value of the range is a multiple of `step` away from
    /// the lower bound, the bitmap is empty.
    pub fn from_range_with_step(start_bound: Bound<u64>, end_bound: Bound<u64>, step: u64) -> (r: Self)
        ensures
            step == 0 ==> r@ == Set::<u64>::empty(),
            step > 0 ==> r@ == stepped64(
                match start_bound {
                    Bound::Included(i) => i as int,
                    Bound::Excluded(i) => i + step,
                    Bound::Unbounded => 0,
                },
                upper_u64(end_bound),
                step as int,
            ),
    {
        let ghost lo: int = match start_bound {
            Bound::Included(i) => i as int,
            Bound::Excluded(i) => i + step,
            Bound::Unbounded => 0,
        };
        let ghost hi = upper_u64(end_bound);
        if step == 0 {
            return Self::new();
        }
        let start: u64 = match start_bound {
            Bound::Included(i) => i,
            Bound::Excluded(i) => match i.checked_add(step) {
                Some(i) => i,
                None => {
                    assert(stepped64(lo, hi, step as int) =~= Set::<u64>::empty());
                    return Self::new();
                },
            },
            Bound::Unbounded => 0,
        };
        let last: u64 = match end_bound {
            Bound::Included(i) => i,
            Bound::Excluded(i) => match i.checked_sub(1) {
                Some(i) => i,
                None => {
                    assert(stepped64(lo, hi, step as int) =~= Set::<u64>::empty());
                    return Self::new();
                },
            },
            Bound::Unbounded => u64::MAX,
        };
        let ghost target = stepped64(start as int, last as int, step as int);
        let mut tree = Treemap::new();
        if start > last {
            assert(target =~= Set::<u64>::empty());
            return Bitmap64 { tree };
        }
        if step == 1 {
            tree.add_range(RangeInclusive { start, last });
            proof {
                assert forall|x: u64| #[trigger] target.contains(x) == interval64(start as int, last as int).contains(x) by {
                    if start <= x <= last {
                        assert((x - start) % 1 == 0);
                    }
                }
                assert(tree@ =~= target);
            }
            return Bitmap64 { tree };
        }
        let mut v: u64 = start;
        let ghost mut k: int = 0;
        loop
            invariant_except_break
                v <= last,
                forall|x: u64| #[trigger] tree@.contains(x) == (x < v && target.contains(x)),
            invariant
                step > 1,
                start <= last,
                target == stepped64(start as int, last as int, step as int),
                v == start + k * step,
                k >= 0,
            ensures
                forall|x: u64| #[trigger] tree@.contains(x) == target.contains(x),
            decreases last - v,
        {
            tree.add(v);
            proof {
                assert(target.contains(v)) by {
                    assert(v - start == k * step);
                    vstd::arithmetic::div_mod::lemma_fundamental_div_mod_converse(v - start, step as int, k, 0);
                }
            }
            if last - v < step {
                proof {
                    assert forall|x: u64| #[trigger] tree@.contains(x) == target.contains(x) by {
                        if v < x && target.contains(x) {
                            let d = x - v;
                            assert(x - start == k * step + d);
                            assert(0 < d < step);
                            vstd::arithmetic::div_mod::lemma_fundamental_div_mod_converse(
                                x - start,
                                step as int,
                                k,
                                d,
                            );
                        }
                    }
                }
                break;
            }
            proof {
                assert forall|x: u64| #[trigger] tree@.contains(x) == (x < v + step && target.contains(x)) by {
                    if v < x < v + step {
                        let d = x - v;
                        assert(x - start == k * step + d);
                        vstd::arithmetic::div_mod::lemma_fundamental_div_mod_converse(
                            x - start,
                            step as int,
                            k,
                            d,
                        );
                    }
                }
            }
            v = v + step;
            proof {
                k = k + 1;
                assert(v == start + k * step) by (nonlinear_arith)
                    requires
                        v == start + (k - 1) * step + step,
                ;
            }
        }
        proof {
            assert(tree@ =~= target);
        }
        Bitmap64 { tree }
    }

    /// Add a value to the bitmap
    pub fn add(&mut self, value: u64)
        ensures
            final(self)@ == old(self)@.insert(value),
            runs_carried(old(self).buckets(), final(self).buckets()),
    {
        self.tree.add(value);
        proof {
            lemma_buckets_carried(old(self).tree.map@, self.tree.map@);
        }
    }

    /// Add a value to the bitmap and return true if the value was not already
    /// present
    pub fn add_checked(&mut self, value: u64) -> (r: bool)
        ensures
            r == !old(self)@.contains(value),
            final(self)@ == old(self)@.insert(value),
            runs_carried(old(self).buckets(), final(self).buckets()),
    {
        let present = self.tree.contains(value);
        self.tree.add(value);
        proof {
            lemma_buckets_carried(old(self).tree.map@, self.tree.map@);
        }
        !present
    }

    /// Add many values to the bitmap
    pub fn add_many(&mut self, values: &[u64])
        ensures
            final(self)@ == old(self)@.union(values@.to_set()),
            runs_carried(old(self).buckets(), final(self).buckets()),
    {
        self.tree.extend(values);
        proof {
            lemma_buckets_carried(old(self).tree.map@, self.tree.map@);
        }
    }

    /// Add all values in range
    pub fn add_range(&mut self, range: RangeInclusive<u64>)
        ensures
            final(self)@ == old(self)@.union(interval64(range.start as int, range.last as int)),
    {
        self.tree.add_range(range);
    }

    /// Remove a value from the bitmap if present
    pub fn remove(&mut self, value: u64)
        ensures
            final(self)@ == old(self)@.remove(value),
            runs_carried(old(self).buckets(), final(self).buckets()),
    {
        self.tree.remove(value);
        proof {
            lemma_buckets_carried(old(self).tree.map@, self.tree.map@);
        }
    }

    /// Remove a value from the bitmap if present, and return true if the
    /// value was present
    pub fn remove_checked(&mut self, value: u64) -> (r: bool)
        ensures
            r == old(self)@.contains(value),
            final(self)@ == old(self)@.remove(value),
            runs_carried(old(self).buckets(), final(self).buckets()),
    {
        let present = self.tree.contains(value);
        self.tree.remove(value);
        proof {
            lemma_buckets_carried(old(self).tree.map@, self.tree.map@);
        }
        present
    }

    /// Remove many values from the bitmap
    pub fn remove_many(&mut self, vals: &[u64])
        ensures
            final(self)@ == old(self)@.difference(vals@.to_set()),
            runs_carried(old(self).buckets(), final(self).buckets()),
    {
        let mut i: usize = 0;
        while i < vals.len()
            invariant
                i <= vals@.len(),
                self@ == old(self)@.difference(vals@.take(i as int).to_set()),
                runs_carried(old(self).tree.map@, self.tree.map@),
            decreases vals@.len() - i,
        {
            let ghost before = self.tree.map@;
            self.tree.remove(vals[i]);
            proof {
                crate::treemap::lemma_runs_carried_chain(old(self).tree.map@, before, self.tree.map@);
                assert(vals@.take(i + 1) == vals@.take(i as int).push(vals@[i as int]));
                vals@.take(i as int).lemma_push_to_set_commute(vals@[i as int]);
                assert(old(self)@.difference(vals@.take(i as int).to_set()).remove(vals@[i as int])
                    =~= old(self)@.difference(vals@.take(i + 1).to_set()));
            }
            i = i + 1;
        }
        assert(vals@.take(vals@.len() as int) == vals@);
        proof {
            lemma_buckets_carried(old(self).tree.map@, self.tree.map@);
        }
    }

    /// Remove all values given, one after another
    pub fn remove_all(&mut self, values: &[u64])
        ensures
            final(self)@ == old(self)@.difference(values@.to_set()),
            runs_carried(old(self).buckets(), final(self).buckets()),
    {
        self.remove_many(values);
    }

    /// Remove all values in range
    pub fn remove_range(&mut self, range: RangeInclusive<u64>)
        ensures
            final(self)@ == old(self)@.difference(interval64(range.start as int, range.last as int)),
    {
        self.tree.remove_range(range);
    }

    /// Empty the bitmap
    pub fn clear(&mut self)
        ensures
            final(self)@ == Set::<u64>::empty(),
            final(self).buckets() == Map::<u32, Bitmap>::empty(),
    {
        self.tree.clear();
        assert(self.buckets() =~= Map::<u32, Bitmap>::empty());
    }

    /// Returns the number of values in the bitmap
    pub fn cardinality(&self) -> (r: u64)
        requires
            self@.len() <= u64::MAX,
        ensures
            r == self@.len(),
    {
        self.tree.cardinality()
    }

    /// The values of the bitmap within `[start, last]`, as a treemap.
    fn within(&self, start: u64, last: u64) -> (r: Treemap)
        ensures
            r@ == self@.intersect(interval64(start as int, last as int)),
    {
        let mut t = self.tree.clone();
        if start > last {
            t.clear();
            assert(self@.intersect(interval64(start as int, last as int)) =~= Set::<u64>::empty());
            return t;
        }
        if start > 0 {
            t.remove_range(RangeInclusive { start: 0, last: start - 1 });
        }
        if last < u64::MAX {
            t.remove_range(RangeInclusive { start: last + 1, last: u64::MAX });
        }
        assert(t@ =~= self@.intersect(interval64(start as int, last as int)));
        t
    }

    /// Returns the number of values in the bitmap in the given range
    pub fn range_cardinality(&self, range: RangeInclusive<u64>) -> (r: u64)
        requires
            self@.intersect(interval64(range.start as int, range.last as int)).len() <= u64::MAX,
        ensures
            r == self@.intersect(interval64(range.start as int, range.last as int)).len(),
    {
        self.within(range.start, range.last).cardinality()
    }

    /// Returns true if the bitmap is empty
    pub fn is_empty(&self) -> (r: bool)
        ensures
            r == (self@ == Set::<u64>::empty()),
    {
        self.tree.is_empty()
    }

    /// Returns true if all the elements of self are in other
    pub fn is_subset(&self, other: &Self) -> (r: bool)
        ensures
            r == self@.subset_of(other@),
    {
        self.tree.is_subset(&other.tree)
    }

    /// Returns true if all the elements of self are in other and self is not
    /// equal to other
    pub fn is_strict_subset(&self, other: &Self) -> (r: bool)
        ensures
            r == (self@.subset_of(other@) && self@ != other@),
    {
        self.tree.is_strict_subset(&other.tree)
    }

    /// Returns the smallest value in the bitmap, or None if the bitmap is empty
    pub fn minimum(&self) -> (r: Option<u64>)
        ensures
            r is None <==> self@ == Set::<u64>::empty(),
            r matches Some(m) ==> self@.contains(m) && forall|y: u64| #[trigger] self@.contains(y) ==> m <= y,
    {
        self.tree.minimum()
    }

    /// Returns the largest value in the bitmap, or None if the bitmap is empty
    pub fn maximum(&self) -> (r: Option<u64>)
        ensures
            r is None <==> self@ == Set::<u64>::empty(),
            r matches Some(m) ==> self@.contains(m) && forall|y: u64| #[trigger] self@.contains(y) ==> y <= m,
    {
        self.tree.maximum()
    }

    /// Returns true if the value is in the bitmap
    pub fn contains(&self, value: u64) -> (r: bool)
        ensures
            r == self@.contains(value),
    {
        self.tree.contains(value)
    }

    /// Check whether the bitmap contains all the values in the range; empty
    /// ranges are always contained
    pub fn contains_range(&self, range: RangeInclusive<u64>) -> (r: bool)
        ensures
            r == interval64(range.start as int, range.last as int).subset_of(self@),
    {
        let start = range.start;
        let last = range.last;
        let ghost iv = interval64(start as int, last as int);
        if start > last {
            assert(iv =~= Set::<u64>::empty());
            return true;
        }
        let (hs, ls) = crate::treemap::split(start);
        let (he, le) = crate::treemap::split(last);
        proof {
            crate::treemap::lemma_order_by_halves(last, start);
        }
        let mut k: u32 = hs;
        loop
            invariant_except_break
                hs <= k <= he,
            invariant
                start == range.start && last == range.last,
                start <= last,
                hs == hi(start) && ls == lo(start) && he == hi(last) && le == lo(last),
                iv == interval64(start as int, last as int),
                forall|x: u64| #[trigger] iv.contains(x) && hi(x) < k ==> self@.contains(x),
            ensures
                forall|x: u64| #[trigger] iv.contains(x) && hi(x) <= k ==> self@.contains(x),
                k == he,
            decreases he - k,
        {
            let lo_v = if k == hs {
                ls
            } else {
                0
            };
            let hi_v = if k == he {
                le
            } else {
                u32::MAX
            };
            proof {
                crate::treemap::lemma_key_range(k, start, last);
                assert forall|l: u32| #[trigger] crate::treemap::key_range(k, start as int, last as int).contains(l) == (lo_v
                    <= l && l <= hi_v) by {}
            }
            let found = match self.tree.map.get(&k) {
                None => false,
                Some(b) => b.contains_range(RangeInclusive { start: lo_v, last: hi_v }),
            };
            if !found {
                proof {
                    let l: u32 = if self.tree.map@.contains_key(k) {
                        let b = self.tree.map@[k];
                        choose|l: u32| crate::runs::interval(lo_v as int, hi_v as int).contains(l) && !b@.contains(l)
                    } else {
                        lo_v
                    };
                    assert(crate::runs::interval(lo_v as int, hi_v as int).contains(l));
                    let x = joined(k, l);
                    crate::treemap::lemma_hi_lo_joined(k, l);
                    assert(crate::treemap::key_range(k, start as int, last as int).contains(l));
                    assert(iv.contains(x));
                    assert(!self@.contains(x));
                    assert(!iv.subset_of(self@));
                }
                return false;
            }
            proof {
                assert forall|x: u64| #[trigger] iv.contains(x) && hi(x) <= k implies self@.contains(x) by {
                    if hi(x) == k {
                        crate::treemap::lemma_joined_hi_lo(x);
                        assert(crate::treemap::key_range(k, start as int, last as int).contains(lo(x)));
                        assert(crate::runs::interval(lo_v as int, hi_v as int).contains(lo(x)));
                    }
                }
            }
            if k == he {
                break;
            }
            k = k + 1;
        }
        proof {
            assert forall|x: u64| #[trigger] iv.contains(x) implies self@.contains(x) by {
                crate::treemap::lemma_order_by_halves(last, x);
                crate::treemap::lemma_order_by_halves(x, last);
            }
            assert(iv.subset_of(self@));
        }
        true
    }

    /// Returns true if the bitmap has any values in the range
    pub fn intersect_with_range(&self, range: RangeInclusive<u64>) -> (r: bool)
        ensures
            r == !self@.disjoint(interval64(range.start as int, range.last as int)),
    {
        let part = self.within(range.start, range.last);
        let e = part.is_empty();
        proof {
            let iv = interval64(range.start as int, range.last as int);
            if !e {
                assert(!(part@ =~= Set::<u64>::empty()));
                let x = choose|x: u64| part@.contains(x);
                assert(self@.contains(x) && iv.contains(x));
            } else {
                assert forall|x: u64| self@.contains(x) implies !iv.contains(x) by {
                    if iv.contains(x) {
                        assert(part@.contains(x));
                    }
                }
            }
        }
        !e
    }

    /// Returns true if the bitmaps share a value
    pub fn intersect(&self, other: &Self) -> (r: bool)
        ensures
            r == !self@.disjoint(other@),
    {
        let both = self.and(other);
        let e = both.is_empty();
        proof {
            if !e {
                assert(!(both@ =~= Set::<u64>::empty()));
                let x = choose|x: u64| both@.contains(x);
                assert(self@.contains(x) && other@.contains(x));
            } else {
                assert forall|x: u64| self@.contains(x) implies !other@.contains(x) by {
                    if other@.contains(x) {
                        assert(both@.contains(x));
                    }
                }
            }
        }
        !e
    }

    /// Computes the intersection of two bitmaps
    pub fn and(&self, other: &Self) -> (r: Self)
        ensures
            r@ == self@.intersect(other@),
    {
        Bitmap64 { tree: self.tree.and(&other.tree) }
    }

    /// Computes the intersection of two bitmaps, in place
    pub fn and_inplace(&mut self, other: &Self)
        ensures
            final(self)@ == old(self)@.intersect(other@),
    {
        self.tree.and_inplace(&other.tree);
    }

    /// Computes the union of two bitmaps
    pub fn or(&self, other: &Self) -> (r: Self)
        ensures
            r@ == self@.union(other@),
    {
        Bitmap64 { tree: self.tree.or(&other.tree) }
    }

    /// Computes the union of two bitmaps, in place
    pub fn or_inplace(&mut self, other: &Self)
        ensures
            final(self)@ == old(self)@.union(other@),
    {
        self.tree.or_inplace(&other.tree);
    }

    /// Computes the symmetric difference of two bitmaps
    pub fn xor(&self, other: &Self) -> (r: Self)
        ensures
            r@ == sym_diff64(self@, other@),
    {
        Bitmap64 { tree: self.tree.xor(&other.tree) }
    }

    /// Computes the symmetric difference of two bitmaps, in place
    pub fn xor_inplace(&mut self, other: &Self)
        ensures
            final(self)@ == sym_diff64(old(self)@, other@),
    {
        self.tree.xor_inplace(&other.tree);
    }

    /// Computes the difference of two bitmaps
    pub fn andnot(&self, other: &Self) -> (r: Self)
        ensures
            r@ == self@.difference(other@),
    {
        Bitmap64 { tree: self.tree.andnot(&other.tree) }
    }

    /// Computes the difference of two bitmaps, in place
    pub fn andnot_inplace(&mut self, other: &Self)
        ensures
            final(self)@ == old(self)@.difference(other@),
    {
        self.tree.andnot_inplace(&other.tree);
    }

    /// Returns the number of values in the intersection of two bitmaps
    pub fn and_cardinality(&self, other: &Self) -> (r: u64)
        requires
            self@.intersect(other@).len() <= u64::MAX,
        ensures
            r == self@.intersect(other@).len(),
    {
        self.and(other).cardinality()
    }

    /// Returns the number of values in the union of two bitmaps
    pub fn or_cardinality(&self, other: &Self) -> (r: u64)
        requires
            self@.union(other@).len() <= u64::MAX,
        ensures
            r == self@.union(other@).len(),
    {
        self.or(other).cardinality()
    }

    /// Returns the number of values in the symmetric difference of two bitmaps
    pub fn xor_cardinality(&self, other: &Self) -> (r: u64)
        requires
            sym_diff64(self@, other@).len() <= u64::MAX,
        ensures
            r == sym_diff64(self@, other@).len(),
    {
        self.xor(other).cardinality()
    }

    /// Returns the number of values in the difference of two bitmaps
    pub fn andnot_cardinality(&self, other: &Self) -> (r: u64)
        requires
            self@.difference(other@).len() <= u64::MAX,
        ensures
            r == self@.difference(other@).len(),
    {
        self.andnot(other).cardinality()
    }

    /// Negates the values in the range, returning a new bitmap
    pub fn flip(&self, range: RangeInclusive<u64>) -> (r: Self)
        ensures
            r@ == sym_diff64(self@, interval64(range.start as int, range.last as int)),
    {
        let other = Bitmap64::from_range(range);
        self.xor(&other)
    }

    /// Negates the values in the range, in place
    pub fn flip_inplace(&mut self, range: RangeInclusive<u64>)
        ensures
            final(self)@ == sym_diff64(old(self)@, interval64(range.start as int, range.last as int)),
    {
        let other = Bitmap64::from_range(range);
        self.xor_inplace(&other);
    }

    /// Returns a vector of the values, in increasing order
    pub fn to_vec(&self) -> (r: Vec<u64>)
        ensures
            strictly_increasing64(r@),
            forall|x: u64| #[trigger] r@.contains(x) <==> self@.contains(x),
    {
        self.tree.to_vec()
    }
}

/// `r` is the least value of `s` that is at least `x`, or `None` when there
/// is none.
pub open spec fn least64(s: Set<u64>, x: int, r: Option<u64>) -> bool {
    match r {
        None => forall|y: u64| #[trigger] s.contains(y) ==> y < x,
        Some(v) => s.contains(v) && x <= v && forall|y: u64| #[trigger] s.contains(y) && x <= y ==> v <= y,
    }
}

/// `r` is the greatest value of `s` that is at most `x`, or `None` when there
/// is none.
pub open spec fn greatest64(s: Set<u64>, x: int, r: Option<u64>) -> bool {
    match r {
        None => forall|y: u64| #[trigger] s.contains(y) ==> x < y,
        Some(v) => s.contains(v) && v <= x && forall|y: u64| #[trigger] s.contains(y) && y <= x ==> y <= v,
    }
}

/// The `u64` values below `n` are `n` values.
proof fn lemma_values_below(n: nat)
    requires
        n <= 0x1_0000_0000_0000_0000,
    ensures
        Set::new(|y: u64| y < n).finite(),
        Set::new(|y: u64| y < n).len() == n,
    decreases n,
{
    if n == 0 {
        assert(Set::new(|y: u64| y < n) =~= Set::<u64>::empty());
    } else {
        lemma_values_below((n - 1) as nat);
        let m = (n - 1) as u64;
        assert(Set::new(|y: u64| y < n) =~= Set::new(|y: u64| y < n - 1).insert(m));
    }
}

/// The values of a set below `v` are at most `v`.
proof fn lemma_below_len(s: Set<u64>, v: u64)
    requires
        s.finite(),
    ensures
        below64(s, v as int).len() <= v,
{
    lemma_values_below(v as nat);
    assert(below64(s, v as int).subset_of(Set::new(|y: u64| y < v)));
    vstd::set_lib::lemma_len_subset(below64(s, v as int), Set::new(|y: u64| y < v));
}

/// In an increasing sequence of the values of `s`, the values below entry `i`
/// are the first `i` entries.
pub proof fn lemma_below64_index(q: Seq<u64>, s: Set<u64>, i: int)
    requires
        strictly_increasing64(q),
        forall|x: u64| #[trigger] q.contains(x) <==> s.contains(x),
        0 <= i < q.len(),
    ensures
        below64(s, q[i] as int) == q.take(i).to_set(),
        below64(s, q[i] as int).len() == i,
{
    assert forall|x: u64| #[trigger] below64(s, q[i] as int).contains(x) == q.take(i).to_set().contains(x) by {
        if below64(s, q[i] as int).contains(x) {
            assert(q.contains(x));
            let j = choose|j: int| 0 <= j < q.len() && q[j] == x;
            if j >= i {
                if j > i {
                    assert(q[i] < q[j]);
                }
            }
            assert(q.take(i)[j] == x);
        }
        if q.take(i).to_set().contains(x) {
            let j = choose|j: int| 0 <= j < i && q.take(i)[j] == x;
            assert(q[j] < q[i]);
            assert(q.contains(q[j]));
        }
    }
    assert(below64(s, q[i] as int) =~= q.take(i).to_set());
    assert(q.take(i).no_duplicates()) by {
        assert forall|a: int, b: int| 0 <= a < q.take(i).len() && 0 <= b < q.take(i).len() && a != b implies q.take(i)[a]
            != q.take(i)[b] by {
            if a < b {
                assert(q[a] < q[b]);
            } else {
                assert(q[b] < q[a]);
            }
        }
    }
    q.take(i).unique_seq_to_set();
}

/// Two values of `s` with the same number of smaller values are equal.
pub proof fn lemma_below64_unique(s: Set<u64>, v: u64, w: u64)
    requires
        s.finite(),
        s.contains(v),
        s.contains(w),
        below64(s, v as int).len() == below64(s, w as int).len(),
    ensures
        v == w,
{
    if v < w {
        assert(below64(s, v as int).subset_of(below64(s, w as int)));
        assert(below64(s, w as int).contains(v) && !below64(s, v as int).contains(v));
        vstd::set_lib::lemma_len_subset(below64(s, v as int).insert(v), below64(s, w as int));
    } else if w < v {
        assert(below64(s, w as int).subset_of(below64(s, v as int)));
        assert(below64(s, v as int).contains(w) && !below64(s, w as int).contains(w));
        vstd::set_lib::lemma_len_subset(below64(s, w as int).insert(w), below64(s, v as int));
    }
}

/// An increasing sequence of the values of `s` has one entry per value.
pub proof fn lemma_increasing64_len(q: Seq<u64>, s: Set<u64>)
    requires
        strictly_increasing64(q),
        forall|x: u64| #[trigger] q.contains(x) <==> s.contains(x),
    ensures
        q.len() == s.len(),
{
    assert(q.no_duplicates()) by {
        assert forall|a: int, b: int| 0 <= a < q.len() && 0 <= b < q.len() && a != b implies q[a] != q[b] by {
            if a < b {
                assert(q[a] < q[b]);
            } else {
                assert(q[b] < q[a]);
            }
        }
    }
    q.unique_seq_to_set();
    assert(q.to_set() =~= s);
}

/// Two increasing sequences of the same values are equal.
pub proof fn lemma_increasing64_unique(a: Seq<u64>, b: Seq<u64>)
    requires
        forall|i: int, j: int| 0 <= i < j < a.len() ==> a[i] < a[j],
        forall|i: int, j: int| 0 <= i < j < b.len() ==> b[i] < b[j],
        forall|x: u64| a.contains(x) == b.contains(x),
    ensures
        a == b,
    decreases a.len(),
{
    if a.len() == 0 {
        if b.len() > 0 {
            assert(b.contains(b[0]));
        }
    } else {
        assert(a.contains(a[0]));
        assert(b.len() > 0);
        assert(b.contains(b[0]));
        let i = choose|i: int| 0 <= i < a.len() && a[i] == b[0];
        let j = choose|j: int| 0 <= j < b.len() && b[j] == a[0];
        if i > 0 {
            assert(a[0] < a[i]);
        }
        if j > 0 {
            assert(b[0] < b[j]);
        }
        assert(a[0] == b[0]);
        let a1 = a.skip(1);
        let b1 = b.skip(1);
        assert forall|x: u64| a1.contains(x) == b1.contains(x) by {
            if a1.contains(x) {
                let k = choose|k: int| 0 <= k < a1.len() && a1[k] == x;
                assert(a[k + 1] == x);
                assert(a[0] < a[k + 1]);
                assert(b.contains(x));
                let m = choose|m: int| 0 <= m < b.len() && b[m] == x;
                assert(m != 0);
                assert(b1[m - 1] == x);
            }
            if b1.contains(x) {
                let k = choose|k: int| 0 <= k < b1.len() && b1[k] == x;
                assert(b[k + 1] == x);
                assert(b[0] < b[k + 1]);
                assert(a.contains(x));
                let m = choose|m: int| 0 <= m < a.len() && a[m] == x;
                assert(m != 0);
                assert(a1[m - 1] == x);
            }
        }
        assert forall|i: int, j: int| 0 <= i < j < a1.len() implies a1[i] < a1[j] by {
            assert(a1[i] == a[i + 1] && a1[j] == a[j + 1]);
        }
        assert forall|i: int, j: int| 0 <= i < j < b1.len() implies b1[i] < b1[j] by {
            assert(b1[i] == b[i + 1] && b1[j] == b[j + 1]);
        }
        lemma_increasing64_unique(a1, b1);
        assert(a =~= seq![a[0]] + a1);
        assert(b =~= seq![b[0]] + b1);
    }
}

impl Bitmap64 {
    /// The least value that is at least `x`, if any.
    pub fn least_at_or_after(&self, x: u64) -> (r: Option<u64>)
        ensures
            least64(self@, x as int, r),
    {
        let rest = self.within(x, u64::MAX);
        let r = rest.minimum();
        proof {
            match r {
                None => {
                    assert forall|y: u64| #[trigger] self@.contains(y) implies y < x by {
                        if x <= y {
                            assert(rest@.contains(y));
                        }
                    }
                },
                Some(v) => {
                    assert forall|y: u64| #[trigger] self@.contains(y) && x <= y implies v <= y by {
                        assert(rest@.contains(y));
                    }
                },
            }
        }
        r
    }

    /// The greatest value that is at most `x`, if any.
    pub fn greatest_at_or_before(&self, x: u64) -> (r: Option<u64>)
        ensures
            greatest64(self@, x as int, r),
    {
        let rest = self.within(0, x);
        let r = rest.maximum();
        proof {
            match r {
                None => {
                    assert forall|y: u64| #[trigger] self@.contains(y) implies x < y by {
                        if y <= x {
                            assert(rest@.contains(y));
                        }
                    }
                },
                Some(v) => {
                    assert forall|y: u64| #[trigger] self@.contains(y) && y <= x implies y <= v by {
                        assert(rest@.contains(y));
                    }
                },
            }
        }
        r
    }

    /// Returns the number of values that are smaller or equal to `value`
    pub fn rank(&self, value: u64) -> (r: u64)
        requires
            self@.filter(|y: u64| y <= value).len() <= u64::MAX,
        ensures
            r == self@.filter(|y: u64| y <= value).len(),
    {
        assert(self@.intersect(interval64(0, value as int)) =~= self@.filter(|y: u64| y <= value));
        self.range_cardinality(RangeInclusive { start: 0, last: value })
    }

    /// Returns the index of `value` among the values of the bitmap, or `None`
    /// when the bitmap does not contain it
    pub fn position(&self, value: u64) -> (r: Option<u64>)
        ensures
            r is Some <==> self@.contains(value),
            r matches Some(p) ==> p == below64(self@, value as int).len(),
    {
        if !self.contains(value) {
            return None;
        }
        proof {
            self.lemma_finite();
            lemma_below_len(self@, value);
        }
        if value == 0 {
            assert(below64(self@, 0) =~= Set::<u64>::empty());
            return Some(0);
        }
        assert(self@.intersect(interval64(0, value - 1)) =~= below64(self@, value as int));
        let r = self.within(0, value - 1).cardinality();
        Some(r)
    }

    /// Selects the value at index `rank`, where the smallest value is at
    /// index 0; `None` when the bitmap holds at most `rank` values
    pub fn select(&self, rank: u64) -> (r: Option<u64>)
        ensures
            r is Some <==> rank < self@.len(),
            r matches Some(v) ==> self@.contains(v) && below64(self@, v as int).len() == rank,
    {
        let values = self.to_vec();
        proof {
            lemma_increasing64_len(values@, self@);
        }
        if (rank as u128) < (values.len() as u128) {
            let v = values[rank as usize];
            proof {
                lemma_below64_index(values@, self@, rank as int);
                assert(values@.contains(v));
            }
            Some(v)
        } else {
            None
        }
    }
}

/// The low 32 bits of the values of `s` whose high 32 bits are `k`.
pub open spec fn low_part(s: Set<u64>, k: u32) -> Set<u32> {
    Set::new(|l: u32| s.contains(joined(k, l)))
}

/// Whether some block of `2^16` values of `s` would be stored as runs, that
/// is, whether runs are its smaller form.
pub open spec fn has_run64(s: Set<u64>) -> bool {
    exists|k: u32| #[trigger] has_run(containers_of(low_part(s, k)), true)
}

/// The bitmaps of `m` that hold some value.
pub open spec fn nonempty(m: Map<u32, Bitmap>) -> Map<u32, Bitmap> {
    m.restrict(Set::new(|k: u32| m.contains_key(k) && m[k]@ != Set::<u32>::empty()))
}

/// The 64-bit values held by a map of sets of low halves.
pub open spec fn sets_values(m: Map<u32, Set<u32>>) -> Set<u64> {
    Set::new(|x: u64| m.contains_key(hi(x)) && m[hi(x)].contains(lo(x)))
}

/// The bitmaps of a map hold the low halves of its values.
proof fn lemma_low_parts(m: Map<u32, Bitmap>, k: u32)
    ensures
        m.contains_key(k) ==> m[k]@ == low_part(map_set(m), k),
        !m.contains_key(k) ==> low_part(map_set(m), k) == Set::<u32>::empty(),
{
    assert forall|l: u32| #[trigger] low_part(map_set(m), k).contains(l) == (m.contains_key(k) && m[k]@.contains(l)) by {
        crate::treemap::lemma_hi_lo_joined(k, l);
    }
    if m.contains_key(k) {
        assert(m[k]@ =~= low_part(map_set(m), k));
    } else {
        assert(low_part(map_set(m), k) =~= Set::<u32>::empty());
    }
}

/// Carrying run compression between two maps carries it between their
/// non-empty bitmaps.
proof fn lemma_buckets_carried(m0: Map<u32, Bitmap>, m1: Map<u32, Bitmap>)
    requires
        runs_carried(m0, m1),
    ensures
        runs_carried(nonempty(m0), nonempty(m1)),
{
}

/// Leaving out the empty bitmaps of a map keeps its values.
proof fn lemma_nonempty_values(m: Map<u32, Bitmap>)
    ensures
        map_set(nonempty(m)) == map_set(m),
        sets_values(map_views(m)) == map_set(m),
{
    assert forall|x: u64| #[trigger] map_set(nonempty(m)).contains(x) == map_set(m).contains(x) by {
        if map_set(m).contains(x) {
            assert(m[hi(x)]@.contains(lo(x)));
            assert(m[hi(x)]@ != Set::<u32>::empty());
        }
    }
    assert(map_set(nonempty(m)) =~= map_set(m));
    assert(sets_values(map_views(m)) =~= map_set(m));
}

/// Removes the empty bitmaps of a treemap.
fn drop_empty(t: &mut Treemap)
    ensures
        final(t).map@ == nonempty(old(t).map@),
{
    let ks = t.keys();
    let ghost m0 = t.map@;
    let mut i: usize = 0;
    while i < ks.len()
        invariant
            ks@.no_duplicates(),
            forall|k: u32| #[trigger] ks@.contains(k) <==> m0.contains_key(k),
            i <= ks@.len(),
            forall|k: u32| #[trigger] t.map@.contains_key(k) <==> (m0.contains_key(k) && (!ks@.take(i as int).contains(k)
                || m0[k]@ != Set::<u32>::empty())),
            forall|k: u32| #[trigger] t.map@.contains_key(k) ==> t.map@[k] == m0[k],
        decreases ks@.len() - i,
    {
        let k = ks[i];
        proof {
            assert(ks@.contains(k));
            assert(!ks@.take(i as int).contains(k)) by {
                if ks@.take(i as int).contains(k) {
                    let j = choose|j: int| 0 <= j < i && ks@.take(i as int)[j] == k;
                    assert(ks@[j] == ks@[i as int]);
                }
            }
            assert(t.map@.contains_key(k));
        }
        let empty = t.map.get(&k).unwrap().is_empty();
        if empty {
            t.map.remove(&k);
        }
        proof {
            assert forall|kk: u32| #[trigger] ks@.take(i + 1).contains(kk) == (ks@.take(i as int).contains(kk) || kk == k) by {
                let t1 = ks@.take(i + 1);
                let t0 = ks@.take(i as int);
                if t1.contains(kk) {
                    let j = choose|j: int| 0 <= j < t1.len() && #[trigger] t1[j] == kk;
                    if j < i {
                        assert(t0[j] == kk);
                    }
                }
                if t0.contains(kk) {
                    let j = choose|j: int| 0 <= j < t0.len() && #[trigger] t0[j] == kk;
                    assert(t1[j] == kk);
                }
                if kk == k {
                    assert(ks@.take(i + 1)[i as int] == kk);
                }
            }
        }
        i = i + 1;
    }
    proof {
        assert(ks@.take(ks@.len() as int) == ks@);
        assert(t.map@ =~= nonempty(m0));
    }
}

/// A format in which 64-bit bitmaps can be written.
pub trait Serializer: Sealed {
    /// The bytes written for a bitmap whose non-empty 32-bit buckets are `m`.
    spec fn serialized(m: Map<u32, Bitmap>) -> Seq<u8>;

    /// Appends the serialization of `bitmap` to `dst`.
    fn serialize_into_vec(bitmap: &Bitmap64, dst: &mut Vec<u8>)
        ensures
            final(dst)@ == old(dst)@ + Self::serialized(bitmap.buckets()),
    ;

    /// Writes the serialization of `bitmap` at the start of `dst`, and
    /// returns its length; `None` when `dst` is too short for it.
    fn try_serialize_into(bitmap: &Bitmap64, dst: &mut [u8]) -> (r: Option<usize>)
        ensures
            Self::serialized(bitmap.buckets()).len() <= old(dst)@.len() <==> r is Some,
            r is None ==> final(dst)@ == old(dst)@,
            r matches Some(n) ==> n == Self::serialized(bitmap.buckets()).len() && final(dst)@ == Self::serialized(
                bitmap.buckets(),
            ) + old(dst)@.skip(n as int),
    ;

    /// The number of bytes needed to serialize `bitmap`.
    fn get_serialized_size_in_bytes(bitmap: &Bitmap64) -> (r: usize)
        ensures
            r == Self::serialized(bitmap.buckets()).len(),
    ;
}

/// A format from which 64-bit bitmaps can be read.
pub trait Deserializer: Sealed {
    /// The values held by a valid serialization at the start of `b`, and the
    /// number of bytes it takes; `None` when `b` does not start with one.
    spec fn deserialized(b: Seq<u8>) -> Option<(Set<u64>, int)>;

    /// Reads a bitmap from the start of `buffer`; `None` when the buffer does
    /// not start with a valid serialization.
    fn try_deserialize(buffer: &[u8]) -> (r: Option<Bitmap64>)
        ensures
            match Self::deserialized(buffer@) {
                None => r is None,
                Some((s, _)) => r matches Some(b) && b@ == s,
            },
    ;
}

/// Copies `src` to the start of `dst`.
pub(crate) fn copy_into(src: &Vec<u8>, dst: &mut [u8])
    requires
        src@.len() <= old(dst)@.len(),
    ensures
        final(dst)@ == src@ + old(dst)@.skip(src@.len() as int),
{
    let mut i: usize = 0;
    while i < src.len()
        invariant
            src@.len() <= old(dst)@.len(),
            dst@.len() == old(dst)@.len(),
            i <= src@.len(),
            forall|j: int| 0 <= j < i ==> #[trigger] dst@[j] == src@[j],
            forall|j: int| i <= j < dst@.len() ==> #[trigger] dst@[j] == old(dst)@[j],
        decreases src@.len() - i,
    {
        dst[i] = src[i];
        i = i + 1;
    }
    assert(dst@ =~= src@ + old(dst)@.skip(src@.len() as int));
}

/// The portable format of 64-bit bitmaps: the number of non-empty buckets
/// of values sharing their high 32 bits, as a little-endian `u64`, then for
/// each bucket in increasing order its high 32 bits, little-endian, and the
/// portable serialization of its low 32 bits.
impl Serializer for Portable {
    open spec fn serialized(m: Map<u32, Bitmap>) -> Seq<u8> {
        <Portable as TreemapSerializer>::serialized(m)
    }

    fn serialize_into_vec(bitmap: &Bitmap64, dst: &mut Vec<u8>) {
        let t = bitmap.compacted();
        t.serialize_into::<Portable>(dst);
    }

    fn try_serialize_into(bitmap: &Bitmap64, dst: &mut [u8]) -> (r: Option<usize>) {
        let t = bitmap.compacted();
        let bytes = t.serialize::<Portable>();
        if bytes.len() > dst.len() {
            return None;
        }
        copy_into(&bytes, dst);
        Some(bytes.len())
    }

    fn get_serialized_size_in_bytes(bitmap: &Bitmap64) -> (r: usize) {
        let t = bitmap.compacted();
        t.get_serialized_size_in_bytes::<Portable>()
    }
}

impl Deserializer for Portable {
    open spec fn deserialized(b: Seq<u8>) -> Option<(Set<u64>, int)> {
        match <Portable as TreemapDeserializer>::deserialized(b) {
            None => None,
            Some((m, n)) => Some((sets_values(m), n)),
        }
    }

    fn try_deserialize(buffer: &[u8]) -> (r: Option<Bitmap64>) {
        match <Portable as TreemapDeserializer>::try_deserialize(buffer) {
            None => None,
            Some((tree, _)) => {
                proof {
                    lemma_nonempty_values(tree.map@);
                }
                Some(Bitmap64 { tree })
            },
        }
    }
}

/// Reading back the portable serialization of a 64-bit bitmap gives its
/// values, and takes all of its bytes.
pub proof fn lemma_bitmap64_portable_roundtrip(b: Bitmap64)
    ensures
        <Portable as Deserializer>::deserialized(<Portable as Serializer>::serialized(b.buckets())) == Some(
            (b@, <Portable as Serializer>::serialized(b.buckets()).len() as int),
        ),
{
    let m = b.buckets();
    crate::treemap_serialization::lemma_treemap_portable_roundtrip(m);
    lemma_nonempty_values(m);
    b.lemma_buckets();
}

impl Bitmap64 {
    /// The non-empty buckets of the bitmap: the 32-bit bitmaps of the low
    /// halves of its values, by their high halves.
    pub closed spec fn buckets(&self) -> Map<u32, Bitmap> {
        nonempty(self.tree.map@)
    }

    /// The buckets hold the values of the bitmap, and none is empty.
    pub proof fn lemma_buckets(&self)
        ensures
            map_set(self.buckets()) == self@,
            forall|k: u32| #[trigger] self.buckets().contains_key(k) ==> self.buckets()[k]@ != Set::<u32>::empty(),
    {
        lemma_nonempty_values(self.tree.map@);
    }

    /// Checks that the bitmap is internally valid; it always is.
    pub fn internal_validate(&self) -> (r: Result<(), &'static str>)
        ensures
            r is Ok,
    {
        Ok(())
    }

    /// A treemap of the non-empty buckets.
    fn compacted(&self) -> (r: Treemap)
        ensures
            r.map@ == self.buckets(),
    {
        let mut t = self.tree.clone();
        drop_empty(&mut t);
        t
    }

    /// Compresses the bitmap with runs wherever they are the smaller form;
    /// returns whether some block of `2^16` values is then stored as runs.
    pub fn run_optimize(&mut self) -> (r: bool)
        ensures
            final(self)@ == old(self)@,
            r == has_run64(old(self)@),
    {
        let ghost m = self.tree.map@;
        let r = self.tree.set_run_compression(true).1;
        proof {
            if r {
                let k = choose|k: u32| #[trigger] m.contains_key(k) && has_run(containers_of(m[k]@), true);
                lemma_low_parts(m, k);
                assert(has_run(containers_of(low_part(map_set(m), k)), true));
            }
            if has_run64(map_set(m)) {
                let k = choose|k: u32| #[trigger] has_run(containers_of(low_part(map_set(m), k)), true);
                lemma_low_parts(m, k);
                if !m.contains_key(k) {
                    crate::encode::lemma_empty_no_run(true);
                }
                assert(m.contains_key(k) && has_run(containers_of(m[k]@), true));
            }
        }
        r
    }

    /// Computes the serialized size in bytes of the bitmap in format `S`.
    pub fn get_serialized_size_in_bytes<S: Serializer>(&self) -> (r: usize)
        ensures
            r == S::serialized(self.buckets()).len(),
    {
        S::get_serialized_size_in_bytes(self)
    }

    /// Serializes the bitmap to a vector of bytes in format `S`.
    pub fn serialize<S: Serializer>(&self) -> (r: Vec<u8>)
        ensures
            r@ == S::serialized(self.buckets()),
    {
        let mut dst: Vec<u8> = Vec::new();
        S::serialize_into_vec(self, &mut dst);
        assert(dst@ =~= S::serialized(self.buckets()));
        dst
    }

    /// Serializes the bitmap in format `S` after the existing contents of
    /// `dst`, and returns the added bytes.
    pub fn serialize_into_vec<'a, S: Serializer>(&self, dst: &'a mut Vec<u8>) -> (r: &'a [u8])
        ensures
            final(dst)@ == old(dst)@ + S::serialized(self.buckets()),
            r@ == S::serialized(self.buckets()),
    {
        let start = dst.len();
        S::serialize_into_vec(self, dst);
        let all: &'a [u8] = dst.as_slice();
        let end = all.len();
        let r = vstd::slice::slice_subrange(all, start, end);
        assert(r@ =~= S::serialized(self.buckets()));
        r
    }

    /// Writes the bitmap in format `S` at the start of `dst`, and returns the
    /// number of bytes written; `None` when `dst` is too short.
    pub fn try_serialize_into<S: Serializer>(&self, dst: &mut [u8]) -> (r: Option<usize>)
        ensures
            S::serialized(self.buckets()).len() <= old(dst)@.len() <==> r is Some,
            r is None ==> final(dst)@ == old(dst)@,
            r matches Some(n) ==> n == S::serialized(self.buckets()).len() && final(dst)@ == S::serialized(
                self.buckets(),
            ) + old(dst)@.skip(n as int),
    {
        S::try_serialize_into(self, dst)
    }

    /// Reads a bitmap in format `D` from the start of `buffer`; `None` on
    /// invalid input.
    pub fn try_deserialize<D: Deserializer>(buffer: &[u8]) -> (r: Option<Self>)
        ensures
            match D::deserialized(buffer@) {
                None => r is None,
                Some((s, _)) => r matches Some(b) && b@ == s,
            },
    {
        D::try_deserialize(buffer)
    }

    /// Reads a bitmap in format `D` from the start of `buffer`; on invalid
    /// input, the empty bitmap.
    pub fn deserialize<D: Deserializer>(buffer: &[u8]) -> (r: Self)
        ensures
            r@ == match D::deserialized(buffer@) {
                None => Set::<u64>::empty(),
                Some((s, _)) => s,
            },
    {
        match D::try_deserialize(buffer) {
            Some(b) => b,
            None => Bitmap64::new(),
        }
    }
}

impl Bitmap64 {
    /// Calls `f` on each value in increasing order, until it breaks; returns
    /// the break, or `Continue` after all values.
    pub fn for_each<F, O>(&self, f: F) -> (r: std::ops::ControlFlow<O>)
        where
            F: FnMut(u64) -> std::ops::ControlFlow<O>,
        requires
            forall|v: u64| #[trigger] call_requires(f, (v,)),
        ensures
            r is Continue ==> forall|v: u64| #[trigger] self@.contains(v) ==> continued(f, v),
            r is Break ==> exists|v: u64|
                #[trigger] self@.contains(v) && call_ensures(f, (v,), r) && forall|u: u64|
                    #[trigger] self@.contains(u) && u < v ==> continued(f, u),
    {
        let values = self.to_vec();
        let ghost f0 = f;
        let mut g = f;
        let mut k: usize = 0;
        while k < values.len()
            invariant
                k <= values@.len(),
                g == f0,
                f == f0,
                forall|v: u64| #[trigger] call_requires(g, (v,)),
                forall|x: u64| #[trigger] values@.contains(x) <==> self@.contains(x),
                forall|i: int, j: int| 0 <= i < j < values@.len() ==> values@[i] < values@[j],
                forall|i: int| 0 <= i < k ==> continued(f0, #[trigger] values@[i]),
            decreases values@.len() - k,
        {
            let v = values[k];
            let step = g(v);
            assert(call_ensures(f0, (v,), step));
            match step {
                std::ops::ControlFlow::Continue(()) => {
                    assert(continued(f0, values@[k as int]));
                },
                std::ops::ControlFlow::Break(_) => {
                    proof {
                        assert(values@.contains(v));
                        assert(self@.contains(v));
                        assert forall|u: u64| #[trigger] self@.contains(u) && u < v implies continued(f0, u) by {
                            assert(values@.contains(u));
                            let i = choose|i: int| 0 <= i < values@.len() && values@[i] == u;
                            if i >= k {
                                if i > k {
                                    assert(values@[k as int] < values@[i]);
                                }
                            }
                        }
                        assert(self@.contains(v) && call_ensures(f0, (v,), step) && forall|u: u64|
                            #[trigger] self@.contains(u) && u < v ==> continued(f0, u));
                        assert(exists|w: u64|
                            #[trigger] self@.contains(w) && call_ensures(f, (w,), step) && forall|u: u64|
                                #[trigger] self@.contains(u) && u < w ==> continued(f, u));
                    }
                    return step;
                },
            }
            k = k + 1;
        }
        proof {
            assert forall|v: u64| #[trigger] self@.contains(v) implies continued(f0, v) by {
                assert(values@.contains(v));
                let i = choose|i: int| 0 <= i < values@.len() && values@[i] == v;
            }
        }
        std::ops::ControlFlow::Continue(())
    }
}

/// Some call of `f` on `v` may answer `Continue`.
pub open spec fn continued<F: FnMut(u64) -> std::ops::ControlFlow<O>, O>(f: F, v: u64) -> bool {
    exists|c: std::ops::ControlFlow<O>| c is Continue && #[trigger] call_ensures(f, (v,), c)
}

impl Clone for Bitmap64 {
    fn clone(&self) -> (r: Self)
        ensures
            r@ == self@,
    {
        Bitmap64 { tree: self.tree.clone() }
    }
}

impl PartialEq for Bitmap64 {
    fn eq(&self, other: &Self) -> (r: bool) {
        let a = self.is_subset(other);
        let b = other.is_subset(self);
        proof {
            if a && b {
                assert(self@ =~= other@);
            }
        }
        a && b
    }
}

impl vstd::std_specs::cmp::PartialEqSpecImpl for Bitmap64 {
    open spec fn obeys_eq_spec() -> bool {
        true
    }

    open spec fn eq_spec(&self, other: &Self) -> bool {
        self@ == other@
    }
}

impl Eq for Bitmap64 {
}

impl Default for Bitmap64 {
    fn default() -> (r: Self)
        ensures
            r@ == Set::<u64>::empty(),
    {
        Self::new()
    }
}

} // verus!
