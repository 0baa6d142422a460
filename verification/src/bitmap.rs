//! A compressed bitmap: a set of `u32` values stored as sorted runs of
//! consecutive values.
use crate::range::{Bound, RangeInclusive};
use crate::runs::{
    lemma_runs_canonical, lemma_runs_finite,
    in_runs, interval, lemma_interval_len, lemma_runs_bounds, lemma_runs_card, lemma_runs_set_push,
    lemma_runs_wf_skip, lemma_runs_wf_take, run_len, runs_card, runs_set, runs_wf,
};
use vstd::prelude::*;
use vstd::set_lib::{lemma_len_subset, lemma_set_disjoint_lens, lemma_subset_equality};

verus! {

/// A compressed bitmap, a set of `u32` values.
///
/// The values are kept as a sorted list of disjoint, non-adjacent closed
/// intervals, so that dense ranges cost as little as isolated values.
#[derive(Debug)]
pub struct Bitmap {
    runs: Vec<(u32, u32)>,
    keep_runs: bool,
}

/// The four pointwise set combinations that two bitmaps can be merged with.
#[derive(Clone, Copy, PartialEq, Eq, Structural)]
pub enum SetOp {
    And,
    Or,
    Xor,
    AndNot,
}

/// Whether a value present in the left operand as `a` and in the right as `b`
/// is present in the result of `op`.
pub open spec fn op_holds(op: SetOp, a: bool, b: bool) -> bool {
    match op {
        SetOp::And => a && b,
        SetOp::Or => a || b,
        SetOp::Xor => a != b,
        SetOp::AndNot => a && !b,
    }
}

/// The set of values that `op` keeps from the sets `a` and `b`.
pub open spec fn op_set(op: SetOp, a: Set<u32>, b: Set<u32>) -> Set<u32> {
    Set::new(|x: u32| op_holds(op, a.contains(x), b.contains(x)))
}

fn apply_op(op: SetOp, a: bool, b: bool) -> (r: bool)
    ensures
        r == op_holds(op, a, b),
{
    match op {
        SetOp::And => a && b,
        SetOp::Or => a || b,
        SetOp::Xor => a != b,
        SetOp::AndNot => a && !b,
    }
}

/// Appends the interval `[lo, hi]` to a run list whose values all lie below `lo`,
/// merging it into the last run when they touch.
pub(crate) fn push_segment(out: &mut Vec<(u32, u32)>, lo: u32, hi: u32)
    requires
        runs_wf(old(out)@),
        lo <= hi,
        old(out)@.len() > 0 ==> old(out)@.last().1 < lo,
    ensures
        runs_wf(final(out)@),
        runs_set(final(out)@) == runs_set(old(out)@).union(interval(lo as int, hi as int)),
        final(out)@.len() > 0,
        final(out)@.last().1 == hi,
        final(out)@.len() <= old(out)@.len() + 1,
{
    let n = out.len();
    if n > 0 && out[n - 1].1 + 1 == lo {
        let first = out[n - 1].0;
        let ghost s = out@;
        out.set(n - 1, (first, hi));
        proof {
            let pre = s.take(n - 1);
            assert(s == pre.push(s[n - 1]));
            assert(out@ == pre.push((first, hi)));
            lemma_runs_set_push(pre, s[n - 1]);
            lemma_runs_set_push(pre, (first, hi));
            assert(interval(first as int, hi as int) =~= interval(
                first as int,
                s[n - 1].1 as int,
            ).union(interval(lo as int, hi as int)));
            assert forall|i: int, j: int| 0 <= i < j < out@.len() implies #[trigger] out@[i].1 + 1
                < #[trigger] out@[j].0 by {
                assert(s[i].1 + 1 < s[j].0);
            }
        }
    } else {
        let ghost s = out@;
        out.push((lo, hi));
        proof {
            lemma_runs_set_push(s, (lo, hi));
            assert forall|i: int, j: int| 0 <= i < j < out@.len() implies #[trigger] out@[i].1 + 1
                < #[trigger] out@[j].0 by {
                if j == n {
                    assert(s[i].1 + 1 < s[n - 1].0 || i == n - 1);
                    assert(s[n - 1].0 <= s[n - 1].1);
                } else {
                    assert(s[i].1 + 1 < s[j].0);
                }
            }
        }
    }
}

/// Where the sweep over run list `s` stands at position `p`: run `i` is the first
/// one that has not ended before `p`.
pub open spec fn sweep_at(s: Seq<(u32, u32)>, i: int, p: int) -> bool {
    &&& 0 <= i <= s.len()
    &&& forall|k: int| 0 <= k < i ==> #[trigger] s[k].1 < p
    &&& i < s.len() ==> p <= s[i].1
}

/// The next point after `p` at which membership in `s` may change.
pub open spec fn sweep_next(s: Seq<(u32, u32)>, i: int, p: int) -> int {
    if i < s.len() {
        if p < s[i].0 {
            s[i].0 as int
        } else {
            s[i].1 + 1
        }
    } else {
        0x1_0000_0000
    }
}

/// Between `p` and the next change point, membership in `s` is constant.
proof fn lemma_sweep_membership(s: Seq<(u32, u32)>, i: int, p: int, x: u32)
    requires
        runs_wf(s),
        sweep_at(s, i, p),
        p <= x < sweep_next(s, i, p),
    ensures
        in_runs(s, x) == (i < s.len() && s[i].0 <= p),
{
    if in_runs(s, x) {
        let k = choose|k: int| 0 <= k < s.len() && #[trigger] s[k].0 <= x && x <= s[k].1;
        if k < i {
            assert(s[k].1 < p);
        } else if k > i {
            assert(s[i].1 + 1 < s[k].0);
        }
    } else {
        if i < s.len() && s[i].0 <= p {
            assert(s[i].0 <= x && x <= s[i].1);
        }
    }
}

/// After the sweep moves from `p` to the next change point `q`, run `i` (or the
/// one after it, when run `i` has ended) is again the first one not ended.
proof fn lemma_sweep_advance(s: Seq<(u32, u32)>, i: int, p: int, q: int)
    requires
        runs_wf(s),
        sweep_at(s, i, p),
        p < q <= sweep_next(s, i, p),
    ensures
        i < s.len() && q > s[i].1 ==> sweep_at(s, i + 1, q),
        !(i < s.len() && q > s[i].1) ==> sweep_at(s, i, q),
{
    if i < s.len() && q > s[i].1 {
        if i + 1 < s.len() {
            assert(s[i].1 + 1 < s[i + 1].0);
        }
    }
}

/// Merges two well-formed run lists under `op`, sweeping over the change points.
fn combine_runs(a: &Vec<(u32, u32)>, b: &Vec<(u32, u32)>, op: SetOp) -> (out: Vec<(u32, u32)>)
    requires
        runs_wf(a@),
        runs_wf(b@),
    ensures
        runs_wf(out@),
        runs_set(out@) == op_set(op, runs_set(a@), runs_set(b@)),
{
    let mut out: Vec<(u32, u32)> = Vec::new();
    let mut p: u64 = 0;
    let mut i: usize = 0;
    let mut j: usize = 0;
    let ghost target = op_set(op, runs_set(a@), runs_set(b@));
    while i < a.len() || j < b.len()
        invariant
            runs_wf(a@),
            runs_wf(b@),
            target == op_set(op, runs_set(a@), runs_set(b@)),
            p <= 0x1_0000_0000,
            sweep_at(a@, i as int, p as int),
            sweep_at(b@, j as int, p as int),
            runs_wf(out@),
            out@.len() > 0 ==> out@.last().1 < p,
            forall|x: u32| #[trigger] runs_set(out@).contains(x) ==> x < p,
            forall|x: u32| x < p ==> (#[trigger] runs_set(out@).contains(x) <==> target.contains(x)),
        decreases 0x1_0000_0000 - p,
    {
        let in_a: bool;
        let next_a: u64;
        if i < a.len() {
            if p < a[i].0 as u64 {
                in_a = false;
                next_a = a[i].0 as u64;
            } else {
                in_a = true;
                next_a = a[i].1 as u64 + 1;
            }
        } else {
            in_a = false;
            next_a = 0x1_0000_0000;
        }
        let in_b: bool;
        let next_b: u64;
        if j < b.len() {
            if p < b[j].0 as u64 {
                in_b = false;
                next_b = b[j].0 as u64;
            } else {
                in_b = true;
                next_b = b[j].1 as u64 + 1;
            }
        } else {
            in_b = false;
            next_b = 0x1_0000_0000;
        }
        let next = if next_a < next_b { next_a } else { next_b };
        assert(next == sweep_next(a@, i as int, p as int) || next == sweep_next(b@, j as int, p as int));
        assert(next <= sweep_next(a@, i as int, p as int) && next <= sweep_next(b@, j as int, p as int));
        assert(p < next);
        let keep = apply_op(op, in_a, in_b);
        let ghost old_out = out@;
        proof {
            assert forall|x: u32| p <= x < next implies (target.contains(x) == keep) by {
                lemma_sweep_membership(a@, i as int, p as int, x);
                lemma_sweep_membership(b@, j as int, p as int, x);
            }
        }
        if keep {
            push_segment(&mut out, p as u32, (next - 1) as u32);
        }
        proof {
            lemma_sweep_advance(a@, i as int, p as int, next as int);
            lemma_sweep_advance(b@, j as int, p as int, next as int);
            assert forall|x: u32| x < next implies (#[trigger] runs_set(out@).contains(x)
                <==> target.contains(x)) by {
                if x >= p {
                    if !keep {
                        if runs_set(old_out).contains(x) {
                        }
                    }
                }
            }
        }
        p = next;
        if i < a.len() && p > a[i].1 as u64 {
            i = i + 1;
        }
        if j < b.len() && p > b[j].1 as u64 {
            j = j + 1;
        }
    }
    proof {
        assert forall|x: u32| #[trigger] runs_set(out@).contains(x) == target.contains(x) by {
            if x >= p {
                if in_runs(a@, x) {
                    let k = choose|k: int| 0 <= k < a@.len() && #[trigger] a@[k].0 <= x && x <= a@[k].1;
                    assert(a@[k].1 < p);
                }
                if in_runs(b@, x) {
                    let k = choose|k: int| 0 <= k < b@.len() && #[trigger] b@[k].0 <= x && x <= b@[k].1;
                    assert(b@[k].1 < p);
                }
            }
        }
        assert(runs_set(out@) =~= target);
    }
    out
}


/// The run list of a single closed range.
fn range_runs(start: u32, last: u32) -> (v: Vec<(u32, u32)>)
    ensures
        runs_wf(v@),
        runs_set(v@) == interval(start as int, last as int),
{
    let mut v: Vec<(u32, u32)> = Vec::new();
    if start <= last {
        proof {
            assert(runs_set(v@) =~= Set::<u32>::empty());
        }
        push_segment(&mut v, start, last);
        assert(Set::<u32>::empty().union(interval(start as int, last as int)) =~= interval(
            start as int,
            last as int,
        ));
    } else {
        assert(runs_set(v@) =~= interval(start as int, last as int));
    }
    v
}

/// The symmetric difference of two sets.
pub open spec fn sym_diff(a: Set<u32>, b: Set<u32>) -> Set<u32> {
    a.difference(b).union(b.difference(a))
}

proof fn lemma_op_sets(a: Set<u32>, b: Set<u32>)
    ensures
        op_set(SetOp::And, a, b) == a.intersect(b),
        op_set(SetOp::Or, a, b) == a.union(b),
        op_set(SetOp::Xor, a, b) == sym_diff(a, b),
        op_set(SetOp::AndNot, a, b) == a.difference(b),
{
    assert(op_set(SetOp::And, a, b) =~= a.intersect(b));
    assert(op_set(SetOp::Or, a, b) =~= a.union(b));
    assert(op_set(SetOp::Xor, a, b) =~= sym_diff(a, b));
    assert(op_set(SetOp::AndNot, a, b) =~= a.difference(b));
}

impl View for Bitmap {
    type V = Set<u32>;

    closed spec fn view(&self) -> Set<u32> {
        runs_set(self.runs@)
    }
}

impl Bitmap {
    #[verifier::type_invariant]
    closed spec fn inv(self) -> bool {
        runs_wf(self.runs@)
    }

    /// Every bitmap holds finitely many values.
    pub proof fn lemma_finite(&self)
        ensures
            self@.finite(),
    {
        lemma_runs_finite(self.runs@);
    }

    /// Creates a new bitmap (initially empty)
    pub fn new() -> (r: Self)
        ensures
            !r.keeps_runs(),
            r@ == Set::<u32>::empty(),
    {
        let r = Bitmap { runs: Vec::new(), keep_runs: false };
        assert(r@ =~= Set::<u32>::empty());
        r
    }

    /// Creates a new bitmap (initially empty); same as [`Bitmap::new`].
    pub fn create() -> (r: Self)
        ensures
            !r.keeps_runs(),
            r@ == Set::<u32>::empty(),
    {
        Self::new()
    }

    /// Creates a new bitmap (initially empty) with a provided
    /// container-storage capacity (it is a performance hint).
    pub fn with_container_capacity(capacity: u32) -> (r: Self)
        ensures
            !r.keeps_runs(),
            r@ == Set::<u32>::empty(),
    {
        let r = Bitmap { runs: Vec::with_capacity(capacity as usize), keep_runs: false };
        assert(runs_set(r.runs@) =~= Set::<u32>::empty());
        r
    }

    /// Creates a new bitmap (initially empty) with a capacity hint; same as
    /// [`Bitmap::with_container_capacity`].
    pub fn create_with_capacity(capacity: u32) -> (r: Self)
        ensures
            !r.keeps_runs(),
            r@ == Set::<u32>::empty(),
    {
        Self::new()
    }

    fn combined(&self, other: &Self, op: SetOp, keep: bool) -> (r: Self)
        ensures
            r.keeps_runs() == keep,
            r@ == op_set(op, self@, other@),
    {
        proof {
            use_type_invariant(self);
            use_type_invariant(other);
        }
        Bitmap { runs: combine_runs(&self.runs, &other.runs, op), keep_runs: keep }
    }

    pub(crate) fn combine_inplace(&mut self, other: &Self, op: SetOp)
        ensures
            final(self).keeps_runs() == old(self).keeps_runs(),
            final(self)@ == op_set(op, old(self)@, other@),
    {
        proof {
            use_type_invariant(&*self);
            use_type_invariant(other);
        }
        let runs = combine_runs(&self.runs, &other.runs, op);
        self.runs = runs;
    }

    fn combine_range_inplace(&mut self, start: u32, last: u32, op: SetOp)
        ensures
            final(self).keeps_runs() == old(self).keeps_runs(),
            final(self)@ == op_set(op, old(self)@, interval(start as int, last as int)),
    {
        proof {
            use_type_invariant(&*self);
        }
        let range = range_runs(start, last);
        let runs = combine_runs(&self.runs, &range, op);
        self.runs = runs;
    }

    /// Computes the intersection between two bitmaps and returns the result
    /// as a new bitmap; it keeps run compression when both operands do.
    pub fn and(&self, other: &Self) -> (r: Self)
        ensures
            r.keeps_runs() == (self.keeps_runs() && other.keeps_runs()),
            r@ == self@.intersect(other@),
    {
        proof {
            lemma_op_sets(self@, other@);
        }
        self.combined(other, SetOp::And, self.keep_runs && other.keep_runs)
    }

    /// Computes the intersection between two bitmaps and stores the result
    /// in the current bitmap
    pub fn and_inplace(&mut self, other: &Self)
        ensures
            final(self).keeps_runs() == old(self).keeps_runs(),
            final(self)@ == old(self)@.intersect(other@),
    {
        proof {
            lemma_op_sets(self@, other@);
        }
        self.combine_inplace(other, SetOp::And)
    }

    /// Computes the union between two bitmaps and returns the result
    /// as a new bitmap; it keeps run compression when either operand does.
    pub fn or(&self, other: &Self) -> (r: Self)
        ensures
            r.keeps_runs() == (self.keeps_runs() || other.keeps_runs()),
            r@ == self@.union(other@),
    {
        proof {
            lemma_op_sets(self@, other@);
        }
        self.combined(other, SetOp::Or, self.keep_runs || other.keep_runs)
    }

    /// Computes the union between two bitmaps and stores the result in
    /// the current bitmap
    pub fn or_inplace(&mut self, other: &Self)
        ensures
            final(self).keeps_runs() == old(self).keeps_runs(),
            final(self)@ == old(self)@.union(other@),
    {
        proof {
            lemma_op_sets(self@, other@);
        }
        self.combine_inplace(other, SetOp::Or)
    }

    /// Computes the symmetric difference (xor) between two bitmaps
    /// and returns a new bitmap; it keeps run compression when either operand
    /// does.
    pub fn xor(&self, other: &Self) -> (r: Self)
        ensures
            r.keeps_runs() == (self.keeps_runs() || other.keeps_runs()),
            r@ == sym_diff(self@, other@),
    {
        proof {
            lemma_op_sets(self@, other@);
        }
        self.combined(other, SetOp::Xor, self.keep_runs || other.keep_runs)
    }

    /// Inplace version of xor, stores result in the current bitmap.
    pub fn xor_inplace(&mut self, other: &Self)
        ensures
            final(self).keeps_runs() == old(self).keeps_runs(),
            final(self)@ == sym_diff(old(self)@, other@),
    {
        proof {
            lemma_op_sets(self@, other@);
        }
        self.combine_inplace(other, SetOp::Xor)
    }

    /// Computes the difference between two bitmaps and returns the result,
    /// which keeps run compression as this bitmap does.
    pub fn andnot(&self, other: &Self) -> (r: Self)
        ensures
            r.keeps_runs() == self.keeps_runs(),
            r@ == self@.difference(other@),
    {
        proof {
            lemma_op_sets(self@, other@);
        }
        self.combined(other, SetOp::AndNot, self.keep_runs)
    }

    /// Computes the difference between two bitmaps and stores the result
    /// in the current bitmap.
    pub fn andnot_inplace(&mut self, other: &Self)
        ensures
            final(self).keeps_runs() == old(self).keeps_runs(),
            final(self)@ == old(self)@.difference(other@),
    {
        proof {
            lemma_op_sets(self@, other@);
        }
        self.combine_inplace(other, SetOp::AndNot)
    }

    /// Add all values in range. A range of values is stored as runs where
    /// runs are the smaller form, so a non-empty range turns run compression
    /// on.
    pub fn add_range(&mut self, range: RangeInclusive<u32>)
        ensures
            final(self).keeps_runs() == (old(self).keeps_runs() || range.start <= range.last),
            final(self)@ == old(self)@.union(interval(range.start as int, range.last as int)),
    {
        proof {
            lemma_op_sets(self@, interval(range.start as int, range.last as int));
        }
        self.combine_range_inplace(range.start, range.last, SetOp::Or);
        proof {
            use_type_invariant(&*self);
        }
        if range.start <= range.last {
            self.keep_runs = true;
        }
    }

    /// Remove all values in range
    pub fn remove_range(&mut self, range: RangeInclusive<u32>)
        ensures
            final(self).keeps_runs() == old(self).keeps_runs(),
            final(self)@ == old(self)@.difference(interval(range.start as int, range.last as int)),
    {
        proof {
            lemma_op_sets(self@, interval(range.start as int, range.last as int));
        }
        self.combine_range_inplace(range.start, range.last, SetOp::AndNot)
    }

    /// Negates the bits in the given range
    /// any integer present in this range and in the bitmap is removed,
    /// and any integer present in the range and not in the bitmap is added.
    pub fn flip_inplace(&mut self, range: RangeInclusive<u32>)
        ensures
            final(self).keeps_runs() == old(self).keeps_runs(),
            final(self)@ == sym_diff(old(self)@, interval(range.start as int, range.last as int)),
    {
        proof {
            lemma_op_sets(self@, interval(range.start as int, range.last as int));
        }
        self.combine_range_inplace(range.start, range.last, SetOp::Xor)
    }

    /// Negates the bits in the given range, returning a new bitmap.
    pub fn flip(&self, range: RangeInclusive<u32>) -> (r: Self)
        ensures
            r.keeps_runs() == self.keeps_runs(),
            r@ == sym_diff(self@, interval(range.start as int, range.last as int)),
    {
        proof {
            use_type_invariant(self);
            lemma_op_sets(self@, interval(range.start as int, range.last as int));
        }
        let runs = range_runs(range.start, range.last);
        Bitmap { runs: combine_runs(&self.runs, &runs, SetOp::Xor), keep_runs: self.keep_runs }
    }

    /// Creates a new bitmap holding exactly the values of the range; a
    /// non-empty range is stored as runs where runs are the smaller form.
    pub fn from_range(range: RangeInclusive<u32>) -> (r: Self)
        ensures
            r.keeps_runs() == (range.start <= range.last),
            r@ == interval(range.start as int, range.last as int),
    {
        Bitmap { runs: range_runs(range.start, range.last), keep_runs: range.start <= range.last }
    }

    /// Empties the bitmap
    pub fn clear(&mut self)
        ensures
            final(self).keeps_runs() == old(self).keeps_runs(),
            final(self)@ == Set::<u32>::empty(),
    {
        self.runs = Vec::new();
        assert(self@ =~= Set::<u32>::empty());
    }
}


/// Index of the first run of `s` that does not end before `x`.
fn first_run_not_before(s: &Vec<(u32, u32)>, x: u32) -> (k: usize)
    requires
        runs_wf(s@),
    ensures
        sweep_at(s@, k as int, x as int),
        in_runs(s@, x) == (k < s@.len() && s@[k as int].0 <= x),
{
    let mut lo: usize = 0;
    let mut hi: usize = s.len();
    while lo < hi
        invariant
            runs_wf(s@),
            0 <= lo <= hi <= s@.len(),
            forall|i: int| 0 <= i < lo ==> #[trigger] s@[i].1 < x,
            forall|i: int| hi <= i < s@.len() ==> x <= #[trigger] s@[i].1,
        decreases hi - lo,
    {
        let mid = lo + (hi - lo) / 2;
        if s[mid].1 < x {
            proof {
                assert forall|i: int| 0 <= i < mid + 1 implies #[trigger] s@[i].1 < x by {
                    if i < mid {
                        assert(s@[i].1 + 1 < s@[mid as int].0);
                    }
                }
            }
            lo = mid + 1;
        } else {
            proof {
                assert forall|i: int| mid <= i < s@.len() implies x <= #[trigger] s@[i].1 by {
                    if i > mid {
                        assert(s@[mid as int].1 + 1 < s@[i].0);
                    }
                }
            }
            hi = mid;
        }
    }
    proof {
        lemma_sweep_membership(s@, lo as int, x as int, x);
    }
    lo
}

/// Number of runs of `s` that start at or before `x`.
fn runs_starting_upto(s: &Vec<(u32, u32)>, x: u32) -> (j: usize)
    requires
        runs_wf(s@),
    ensures
        j <= s@.len(),
        forall|i: int| 0 <= i < j ==> #[trigger] s@[i].0 <= x,
        forall|i: int| j <= i < s@.len() ==> x < #[trigger] s@[i].0,
{
    let mut lo: usize = 0;
    let mut hi: usize = s.len();
    while lo < hi
        invariant
            runs_wf(s@),
            0 <= lo <= hi <= s@.len(),
            forall|i: int| 0 <= i < lo ==> #[trigger] s@[i].0 <= x,
            forall|i: int| hi <= i < s@.len() ==> x < #[trigger] s@[i].0,
        decreases hi - lo,
    {
        let mid = lo + (hi - lo) / 2;
        if s[mid].0 <= x {
            proof {
                assert forall|i: int| 0 <= i < mid + 1 implies #[trigger] s@[i].0 <= x by {
                    if i < mid {
                        assert(s@[i].1 + 1 < s@[mid as int].0);
                    }
                }
            }
            lo = mid + 1;
        } else {
            proof {
                assert forall|i: int| mid <= i < s@.len() implies x < #[trigger] s@[i].0 by {
                    if i > mid {
                        assert(s@[mid as int].1 + 1 < s@[i].0);
                    }
                }
            }
            hi = mid;
        }
    }
    lo
}

/// `r` is the least value of `s` that is at least `x`, or `None` when there is
/// none.
pub open spec fn least_at_or_after(s: Set<u32>, x: int, r: Option<u32>) -> bool {
    match r {
        None => forall|y: u32| #[trigger] s.contains(y) ==> y < x,
        Some(v) => s.contains(v) && x <= v && forall|y: u32| #[trigger] s.contains(y) && x <= y ==> v <= y,
    }
}

/// `r` is the greatest value of `s` that is at most `x`, or `None` when there
/// is none.
pub open spec fn greatest_at_or_before(s: Set<u32>, x: int, r: Option<u32>) -> bool {
    match r {
        None => forall|y: u32| #[trigger] s.contains(y) ==> x < y,
        Some(v) => s.contains(v) && v <= x && forall|y: u32| #[trigger] s.contains(y) && y <= x ==> y <= v,
    }
}

/// The bytes released when the capacity for runs drops from `before` to
/// `after` runs of eight bytes each; zero when it did not drop, or when the
/// count would not fit in a `usize`.
pub open spec fn spec_saved_bytes(before: usize, after: usize) -> int {
    if before > after && (before - after) * 8 <= usize::MAX {
        (before - after) * 8
    } else {
        0
    }
}

/// The bytes released when the capacity for runs drops from `before` to
/// `after` runs.
pub fn saved_bytes(before: usize, after: usize) -> (r: usize)
    ensures
        r == spec_saved_bytes(before, after),
{
    if before > after && before - after <= usize::MAX / 8 {
        (before - after) * 8
    } else {
        0
    }
}

/// `Vec::capacity`: how many items the vector can hold without reallocating.
/// It depends on the allocator; all that is claimed is what `Vec` guarantees,
/// that it is at least the vector's length.
#[verifier::external_body]
pub(crate) fn vec_capacity<T>(v: &Vec<T>) -> (r: usize)
    ensures
        r >= v@.len(),
{
    v.capacity()
}

/// `Vec::shrink_to_fit`: releases spare capacity; the items stay as they are.
#[verifier::external_body]
pub(crate) fn vec_shrink_to_fit<T>(v: &mut Vec<T>)
    ensures
        final(v)@ == old(v)@,
{
    v.shrink_to_fit()
}

/// A set of `u32` values is finite and has at most `2^32` elements.
pub proof fn lemma_u32_set_len(a: Set<u32>)
    ensures
        a.finite(),
        a.len() <= 0x1_0000_0000,
{
    lemma_interval_len(0, u32::MAX as int);
    assert(a.subset_of(interval(0, u32::MAX as int)));
    lemma_len_subset(a, interval(0, u32::MAX as int));
}

/// Strictly increasing sequence of values.
pub open spec fn strictly_increasing(s: Seq<u32>) -> bool {
    forall|i: int, j: int| 0 <= i < j < s.len() ==> s[i] < s[j]
}

impl Bitmap {
    /// Contains returns true if the integer element is contained in the bitmap
    pub fn contains(&self, element: u32) -> (r: bool)
        ensures
            r == self@.contains(element),
    {
        proof {
            use_type_invariant(self);
        }
        let k = first_run_not_before(&self.runs, element);
        k < self.runs.len() && self.runs[k].0 <= element
    }

    /// The least value of the bitmap that is at least `x`.
    pub(crate) fn least_at_or_after(&self, x: u32) -> (r: Option<u32>)
        ensures
            least_at_or_after(self@, x as int, r),
    {
        proof {
            use_type_invariant(self);
        }
        let k = first_run_not_before(&self.runs, x);
        if k == self.runs.len() {
            proof {
                assert forall|y: u32| #[trigger] self@.contains(y) implies y < x by {
                    let i = choose|i: int| 0 <= i < self.runs@.len() && #[trigger] self.runs@[i].0 <= y && y <= self.runs@[i].1;
                    assert(self.runs@[i].1 < x);
                }
            }
            return None;
        }
        let (lo, hi) = self.runs[k];
        let v = if lo <= x { x } else { lo };
        proof {
            assert(self.runs@[k as int].0 <= v && v <= self.runs@[k as int].1);
            assert(in_runs(self.runs@, v));
            assert forall|y: u32| #[trigger] self@.contains(y) && x <= y implies v <= y by {
                let i = choose|i: int| 0 <= i < self.runs@.len() && #[trigger] self.runs@[i].0 <= y && y <= self.runs@[i].1;
                if i < k {
                    assert(self.runs@[i].1 < x);
                } else if i > k {
                    assert(self.runs@[k as int].1 + 1 < self.runs@[i].0);
                }
            }
        }
        Some(v)
    }

    /// The greatest value of the bitmap that is at most `x`.
    pub(crate) fn greatest_at_or_before(&self, x: u32) -> (r: Option<u32>)
        ensures
            greatest_at_or_before(self@, x as int, r),
    {
        proof {
            use_type_invariant(self);
        }
        let j = runs_starting_upto(&self.runs, x);
        if j == 0 {
            proof {
                assert forall|y: u32| #[trigger] self@.contains(y) implies x < y by {
                    let i = choose|i: int| 0 <= i < self.runs@.len() && #[trigger] self.runs@[i].0 <= y && y <= self.runs@[i].1;
                    assert(x < self.runs@[i].0);
                }
            }
            return None;
        }
        let (lo, hi) = self.runs[j - 1];
        let v = if x <= hi { x } else { hi };
        proof {
            assert(self.runs@[j - 1].0 <= v && v <= self.runs@[j - 1].1);
            assert(in_runs(self.runs@, v));
            assert forall|y: u32| #[trigger] self@.contains(y) && y <= x implies y <= v by {
                let i = choose|i: int| 0 <= i < self.runs@.len() && #[trigger] self.runs@[i].0 <= y && y <= self.runs@[i].1;
                if i >= j {
                    assert(x < self.runs@[i].0);
                } else if i < j - 1 {
                    assert(self.runs@[i].1 + 1 < self.runs@[j - 1].0);
                }
            }
        }
        Some(v)
    }

    /// Releases spare memory; returns the number of bytes saved. The values
    /// stay as they are.
    pub fn shrink_to_fit(&mut self) -> (r: usize)
        ensures
            final(self).keeps_runs() == old(self).keeps_runs(),
            final(self)@ == old(self)@,
            exists|before: usize, after: usize| r == spec_saved_bytes(before, after),
    {
        proof {
            use_type_invariant(&*self);
        }
        let before = vec_capacity(&self.runs);
        let mut runs: Vec<(u32, u32)> = Vec::new();
        std::mem::swap(&mut runs, &mut self.runs);
        vec_shrink_to_fit(&mut runs);
        let after = vec_capacity(&runs);
        self.runs = runs;
        saved_bytes(before, after)
    }

    /// Whether the bitmap keeps run compression: its serializations then store
    /// each block of `2^16` values as runs where runs are the smaller form.
    pub closed spec fn keeps_runs(&self) -> bool {
        self.keep_runs
    }

    /// Whether the bitmap keeps run compression.
    pub(crate) fn run_compression(&self) -> (r: bool)
        ensures
            r == self.keeps_runs(),
    {
        self.keep_runs
    }

    /// Compresses the bitmap with runs wherever they are the smaller form;
    /// returns whether the bitmap was modified: it did not keep run
    /// compression before, and some block of `2^16` values is now stored as
    /// runs. The values stay as they are.
    pub fn run_optimize(&mut self) -> (r: bool)
        ensures
            final(self)@ == old(self)@,
            final(self).keeps_runs(),
            r == (!old(self).keeps_runs() && crate::encode::has_run(crate::encode::containers_of(old(self)@), true)),
    {
        proof {
            use_type_invariant(&*self);
        }
        let r = !self.keep_runs && crate::encode::portable_has_run(self, true);
        self.keep_runs = true;
        r
    }

    /// Removes run-length encoding even when it is more space efficient;
    /// returns whether some block of `2^16` values was stored as runs. The
    /// values stay as they are.
    pub fn remove_run_compression(&mut self) -> (r: bool)
        ensures
            final(self)@ == old(self)@,
            !final(self).keeps_runs(),
            r == (old(self).keeps_runs() && crate::encode::has_run(crate::encode::containers_of(old(self)@), true)),
    {
        proof {
            use_type_invariant(&*self);
        }
        let r = self.keep_runs && crate::encode::portable_has_run(self, true);
        self.keep_runs = false;
        r
    }

    /// Add the integer element to the bitmap
    pub fn add(&mut self, element: u32)
        ensures
            final(self).keeps_runs() == old(self).keeps_runs(),
            final(self)@ == old(self)@.insert(element),
    {
        proof {
            use_type_invariant(&*self);
        }
        let n = self.runs.len();
        if n == 0 || self.runs[n - 1].1 < element {
            let mut runs: Vec<(u32, u32)> = Vec::new();
            std::mem::swap(&mut runs, &mut self.runs);
            push_segment(&mut runs, element, element);
            self.runs = runs;
            assert(old(self)@.union(interval(element as int, element as int)) =~= old(self)@.insert(
                element,
            ));
        } else {
            proof {
                lemma_op_sets(self@, interval(element as int, element as int));
                assert(self@.union(interval(element as int, element as int)) =~= self@.insert(
                    element,
                ));
            }
            self.combine_range_inplace(element, element, SetOp::Or);
        }
    }

    /// Add the integer element to the bitmap. Returns true if the value was
    /// added, false if the value was already in the bitmap.
    pub fn add_checked(&mut self, element: u32) -> (r: bool)
        ensures
            final(self).keeps_runs() == old(self).keeps_runs(),
            r == !old(self)@.contains(element),
            final(self)@ == old(self)@.insert(element),
    {
        let had = self.contains(element);
        if !had {
            self.add(element);
        } else {
            assert(self@.insert(element) =~= self@);
        }
        !had
    }

    /// Clear the integer element from the bitmap
    pub fn remove(&mut self, element: u32)
        ensures
            final(self).keeps_runs() == old(self).keeps_runs(),
            final(self)@ == old(self)@.remove(element),
    {
        if self.contains(element) {
            proof {
                lemma_op_sets(self@, interval(element as int, element as int));
                assert(self@.difference(interval(element as int, element as int)) =~= self@.remove(
                    element,
                ));
            }
            self.combine_range_inplace(element, element, SetOp::AndNot);
        } else {
            assert(self@.remove(element) =~= self@);
        }
    }

    /// Remove the integer element from the bitmap. Returns true if a the value
    /// was removed, false if the value was not present in the bitmap.
    pub fn remove_checked(&mut self, element: u32) -> (r: bool)
        ensures
            final(self).keeps_runs() == old(self).keeps_runs(),
            r == old(self)@.contains(element),
            final(self)@ == old(self)@.remove(element),
    {
        let had = self.contains(element);
        self.remove(element);
        had
    }

    /// The bitmap of the values `elements[lo..hi]`, built by halves.
    fn of_slice(elements: &[u32], lo: usize, hi: usize) -> (r: Self)
        requires
            lo <= hi <= elements@.len(),
        ensures
            r@ == elements@.subrange(lo as int, hi as int).to_set(),
        decreases hi - lo,
    {
        if hi - lo == 0 {
            let r = Self::new();
            assert(elements@.subrange(lo as int, hi as int).to_set() =~= Set::<u32>::empty());
            return r;
        }
        if hi - lo == 1 {
            let mut r = Self::new();
            r.add(elements[lo]);
            proof {
                let q = elements@.subrange(lo as int, hi as int);
                assert(q =~= seq![elements@[lo as int]]);
                assert forall|x: u32| #[trigger] q.to_set().contains(x) == (x == elements@[lo as int]) by {
                    if x == elements@[lo as int] {
                        assert(q[0] == x);
                    }
                }
                assert(r@ =~= q.to_set());
            }
            return r;
        }
        let mid = lo + (hi - lo) / 2;
        let a = Self::of_slice(elements, lo, mid);
        let b = Self::of_slice(elements, mid, hi);
        let r = a.or(&b);
        proof {
            let q = elements@.subrange(lo as int, hi as int);
            let q1 = elements@.subrange(lo as int, mid as int);
            let q2 = elements@.subrange(mid as int, hi as int);
            assert forall|x: u32| #[trigger] q.to_set().contains(x) == (q1.to_set().contains(x) || q2.to_set().contains(x)) by {
                if q.contains(x) {
                    let i = choose|i: int| 0 <= i < q.len() && q[i] == x;
                    if i < mid - lo {
                        assert(q1[i] == x);
                    } else {
                        assert(q2[i - (mid - lo)] == x);
                    }
                }
                if q1.contains(x) {
                    let i = choose|i: int| 0 <= i < q1.len() && q1[i] == x;
                    assert(q[i] == x);
                }
                if q2.contains(x) {
                    let i = choose|i: int| 0 <= i < q2.len() && q2[i] == x;
                    assert(q[i + (mid - lo)] == x);
                }
            }
            assert(r@ =~= q.to_set());
        }
        r
    }

    /// Add all the given values to the bitmap
    pub fn add_many(&mut self, elements: &[u32])
        ensures
            final(self).keeps_runs() == old(self).keeps_runs(),
            final(self)@ == old(self)@.union(elements@.to_set()),
    {
        let other = Self::of_slice(elements, 0, elements.len());
        assert(elements@.subrange(0, elements@.len() as int) == elements@);
        self.or_inplace(&other);
    }

    /// Remove many values from the bitmap
    pub fn remove_many(&mut self, elements: &[u32])
        ensures
            final(self).keeps_runs() == old(self).keeps_runs(),
            final(self)@ == old(self)@.difference(elements@.to_set()),
    {
        let other = Self::of_slice(elements, 0, elements.len());
        assert(elements@.subrange(0, elements@.len() as int) == elements@);
        self.andnot_inplace(&other);
    }

    /// Creates a new bitmap from a slice of u32 integers
    pub fn of(elements: &[u32]) -> (r: Self)
        ensures
            r@ == elements@.to_set(),
    {
        let mut bitmap = Self::new();
        bitmap.add_many(elements);
        assert(Set::<u32>::empty().union(elements@.to_set()) =~= elements@.to_set());
        bitmap
    }

    /// Returns the number of integers contained in the bitmap
    pub fn cardinality(&self) -> (r: u64)
        ensures
            r == self@.len(),
    {
        proof {
            use_type_invariant(self);
        }
        let mut sum: u64 = 0;
        let mut i: usize = 0;
        while i < self.runs.len()
            invariant
                runs_wf(self.runs@),
                i <= self.runs@.len(),
                sum == runs_card(self.runs@.take(i as int)),
            decreases self.runs@.len() - i,
        {
            proof {
                let t = self.runs@.take(i + 1);
                assert(t.drop_last() == self.runs@.take(i as int));
                lemma_runs_wf_take(self.runs@, i + 1);
                lemma_runs_card(t);
                lemma_u32_set_len(runs_set(t));
            }
            let r = self.runs[i];
            sum = sum + (r.1 - r.0) as u64 + 1;
            i = i + 1;
        }
        proof {
            assert(self.runs@.take(self.runs@.len() as int) == self.runs@);
            lemma_runs_card(self.runs@);
        }
        sum
    }

    /// Returns true if the Bitmap is empty.
    pub fn is_empty(&self) -> (r: bool)
        ensures
            r == (self@ == Set::<u32>::empty()),
    {
        proof {
            use_type_invariant(self);
        }
        if self.runs.len() == 0 {
            assert(self@ =~= Set::<u32>::empty());
            true
        } else {
            assert(self.runs@[0].0 <= self.runs@[0].1);
            assert(in_runs(self.runs@, self.runs@[0].0));
            assert(self@.contains(self.runs@[0].0));
            false
        }
    }

    /// Returns the smallest value in the set.
    /// Returns `None` if the set is empty.
    pub fn minimum(&self) -> (r: Option<u32>)
        ensures
            r is None <==> self@ == Set::<u32>::empty(),
            r matches Some(m) ==> self@.contains(m) && forall|y: u32| #[trigger]
                self@.contains(y) ==> m <= y,
    {
        proof {
            use_type_invariant(self);
        }
        if self.runs.len() == 0 {
            assert(self@ =~= Set::<u32>::empty());
            None
        } else {
            proof {
                assert(self.runs@[0].0 <= self.runs@[0].1);
                assert(in_runs(self.runs@, self.runs@[0].0));
                assert(self@.contains(self.runs@[0].0));
                assert forall|y: u32| #[trigger] self@.contains(y) implies self.runs@[0].0 <= y by {
                    lemma_runs_bounds(self.runs@, y);
                }
            }
            Some(self.runs[0].0)
        }
    }

    /// Returns the greatest value in the set.
    /// Returns `None` if the set is empty.
    pub fn maximum(&self) -> (r: Option<u32>)
        ensures
            r is None <==> self@ == Set::<u32>::empty(),
            r matches Some(m) ==> self@.contains(m) && forall|y: u32| #[trigger]
                self@.contains(y) ==> y <= m,
    {
        proof {
            use_type_invariant(self);
        }
        let n = self.runs.len();
        if n == 0 {
            assert(self@ =~= Set::<u32>::empty());
            None
        } else {
            proof {
                assert(self.runs@[n - 1].0 <= self.runs@[n - 1].1);
                assert(in_runs(self.runs@, self.runs@[n - 1].1));
                assert(self@.contains(self.runs@[n - 1].1));
                assert forall|y: u32| #[trigger] self@.contains(y) implies y <= self.runs@[n - 1].1 by {
                    lemma_runs_bounds(self.runs@, y);
                }
            }
            Some(self.runs[n - 1].1)
        }
    }

    /// Returns a vector containing all of the integers stored in the Bitmap
    /// in sorted order.
    pub fn to_vec(&self) -> (r: Vec<u32>)
        ensures
            strictly_increasing(r@),
            forall|x: u32| #[trigger] r@.contains(x) <==> self@.contains(x),
    {
        proof {
            use_type_invariant(self);
        }
        let mut out: Vec<u32> = Vec::new();
        let mut i: usize = 0;
        while i < self.runs.len()
            invariant
                runs_wf(self.runs@),
                i <= self.runs@.len(),
                strictly_increasing(out@),
                out@.len() > 0 ==> i > 0 && out@.last() == self.runs@[i - 1].1,
                forall|x: u32| #[trigger] out@.contains(x) <==> runs_set(self.runs@.take(i as int)).contains(x),
            decreases self.runs@.len() - i,
        {
            let (lo, hi) = self.runs[i];
            let ghost before = out@;
            let mut v: u64 = lo as u64;
            while v <= hi as u64
                invariant
                    runs_wf(self.runs@),
                    i < self.runs@.len(),
                    (lo, hi) == self.runs@[i as int],
                    lo <= v <= hi as int + 1,
                    strictly_increasing(out@),
                    out@.len() >= before.len(),
                    out@.subrange(0, before.len() as int) == before,
                    v > lo ==> out@.len() > 0 && out@.last() == v - 1,
                    v == lo ==> out@ == before,
                    before.len() > 0 ==> i > 0 && before.last() == self.runs@[i - 1].1,
                    forall|x: u32| #[trigger] out@.contains(x) <==> (before.contains(x) || (lo <= x < v)),
                decreases hi as int + 1 - v,
            {
                proof {
                    if v == lo && before.len() > 0 {
                        assert(self.runs@[i - 1].1 + 1 < self.runs@[i as int].0);
                    }
                }
                let ghost prev = out@;
                proof {
                    if prev.len() > 0 {
                        assert(prev.last() < v);
                        assert forall|k: int| 0 <= k < prev.len() implies prev[k] < v by {
                            if k < prev.len() - 1 {
                                assert(prev[k] < prev[prev.len() - 1]);
                            }
                        }
                    }
                }
                out.push(v as u32);
                proof {
                    assert forall|a: int, b: int| 0 <= a < b < out@.len() implies out@[a] < out@[b] by {
                        if b == prev.len() {
                            assert(out@[a] == prev[a]);
                        } else {
                            assert(out@[a] == prev[a] && out@[b] == prev[b]);
                        }
                    }
                    assert forall|x: u32| #[trigger] out@.contains(x) <==> (before.contains(x) || (lo
                        <= x < v + 1)) by {
                        if out@.contains(x) {
                            let k = choose|k: int| 0 <= k < out@.len() && out@[k] == x;
                            if k < prev.len() {
                                assert(prev.contains(x));
                            }
                        }
                        if x == v {
                            assert(out@[prev.len() as int] == x);
                        } else if before.contains(x) || (lo <= x < v) {
                            assert(prev.contains(x));
                            let k = choose|k: int| 0 <= k < prev.len() && prev[k] == x;
                            assert(out@[k] == x);
                        }
                    }
                    assert(out@.subrange(0, before.len() as int) =~= before);
                }
                v = v + 1;
            }
            proof {
                let t = self.runs@.take(i + 1);
                assert(t == self.runs@.take(i as int).push((lo, hi)));
                lemma_runs_set_push(self.runs@.take(i as int), (lo, hi));
            }
            i = i + 1;
        }
        proof {
            assert(self.runs@.take(self.runs@.len() as int) == self.runs@);
        }
        out
    }
}

impl Clone for Bitmap {
    fn clone(&self) -> (r: Self)
        ensures
            r.keeps_runs() == self.keeps_runs(),
            r@ == self@,
    {
        proof {
            use_type_invariant(self);
        }
        let mut runs: Vec<(u32, u32)> = Vec::new();
        let mut i: usize = 0;
        while i < self.runs.len()
            invariant
                i <= self.runs@.len(),
                runs@ == self.runs@.take(i as int),
            decreases self.runs@.len() - i,
        {
            runs.push(self.runs[i]);
            proof {
                assert(self.runs@.take(i + 1) == self.runs@.take(i as int).push(self.runs@[i as int]));
            }
            i = i + 1;
        }
        assert(self.runs@.take(self.runs@.len() as int) == self.runs@);
        Bitmap { runs, keep_runs: self.keep_runs }
    }
}

impl PartialEq for Bitmap {
    fn eq(&self, other: &Self) -> (r: bool) {
        proof {
            use_type_invariant(self);
            use_type_invariant(other);
        }
        let n = self.runs.len();
        if n != other.runs.len() {
            proof {
                if self@ == other@ {
                    lemma_runs_canonical(self.runs@, other.runs@);
                }
            }
            return false;
        }
        let mut i: usize = 0;
        while i < n
            invariant
                n == self.runs@.len(),
                n == other.runs@.len(),
                i <= n,
                forall|k: int| 0 <= k < i ==> self.runs@[k] == other.runs@[k],
                runs_wf(self.runs@),
                runs_wf(other.runs@),
            decreases n - i,
        {
            if self.runs[i].0 != other.runs[i].0 || self.runs[i].1 != other.runs[i].1 {
                proof {
                    if self@ == other@ {
                        lemma_runs_canonical(self.runs@, other.runs@);
                    }
                }
                return false;
            }
            i = i + 1;
        }
        assert(self.runs@ =~= other.runs@);
        true
    }
}

impl vstd::std_specs::cmp::PartialEqSpecImpl for Bitmap {
    open spec fn obeys_eq_spec() -> bool {
        true
    }

    open spec fn eq_spec(&self, other: &Self) -> bool {
        self@ == other@
    }
}

impl Eq for Bitmap {
}

/// The values of `a` that are smaller than `v`.
pub open spec fn below(a: Set<u32>, v: int) -> Set<u32> {
    a.filter(|y: u32| y < v)
}

/// The values strictly below a point `v` of run `i` (or just past its end) are the
/// runs before `i` plus the start of run `i` up to `v`.
proof fn lemma_below_in_run(s: Seq<(u32, u32)>, i: int, v: int)
    requires
        runs_wf(s),
        0 <= i < s.len(),
        s[i].0 <= v <= s[i].1 + 1,
    ensures
        below(runs_set(s), v) == runs_set(s.take(i)).union(interval(s[i].0 as int, v - 1)),
        below(runs_set(s), v).finite(),
        below(runs_set(s), v).len() == runs_card(s.take(i)) + (v - s[i].0),
{
    let t = s.take(i);
    let lhs = below(runs_set(s), v);
    let rhs = runs_set(t).union(interval(s[i].0 as int, v - 1));
    assert forall|x: u32| lhs.contains(x) implies rhs.contains(x) by {
        let k = choose|k: int| 0 <= k < s.len() && #[trigger] s[k].0 <= x && x <= s[k].1;
        if k < i {
            assert(t[k] == s[k]);
        } else if k > i {
            assert(s[i].1 + 1 < s[k].0);
        }
    }
    assert forall|x: u32| rhs.contains(x) implies lhs.contains(x) by {
        if runs_set(t).contains(x) {
            let k = choose|k: int| 0 <= k < t.len() && #[trigger] t[k].0 <= x && x <= t[k].1;
            assert(t[k] == s[k]);
            assert(s[k].1 + 1 < s[i].0);
        } else {
            assert(s[i].0 <= x && x <= s[i].1);
        }
    }
    assert(lhs =~= rhs);
    lemma_runs_wf_take(s, i);
    lemma_runs_card(t);
    if v - 1 >= s[i].0 {
        lemma_interval_len(s[i].0 as int, v - 1);
    } else {
        assert(interval(s[i].0 as int, v - 1) =~= Set::<u32>::empty());
    }
    assert forall|x: u32| runs_set(t).contains(x) implies !interval(s[i].0 as int, v - 1).contains(x) by {
        let k = choose|k: int| 0 <= k < t.len() && #[trigger] t[k].0 <= x && x <= t[k].1;
        assert(t[k] == s[k]);
        assert(s[k].1 + 1 < s[i].0);
    }
    assert(runs_set(t).disjoint(interval(s[i].0 as int, v - 1)));
    lemma_set_disjoint_lens(runs_set(t), interval(s[i].0 as int, v - 1));
}

/// The union of a sequence of sets.
pub open spec fn union_all(s: Seq<Set<u32>>) -> Set<u32>
    decreases s.len(),
{
    if s.len() == 0 {
        Set::empty()
    } else {
        union_all(s.drop_last()).union(s.last())
    }
}

/// The values that lie in an odd number of the sets of a sequence.
pub open spec fn xor_all(s: Seq<Set<u32>>) -> Set<u32>
    decreases s.len(),
{
    if s.len() == 0 {
        Set::empty()
    } else {
        sym_diff(xor_all(s.drop_last()), s.last())
    }
}

/// The views of a sequence of bitmaps.
pub open spec fn views(s: Seq<&Bitmap>) -> Seq<Set<u32>> {
    s.map_values(|b: &Bitmap| b@)
}

/// The values of `a` moved by `offset`, dropping those that leave the `u32` range.
pub open spec fn shifted(a: Set<u32>, offset: int) -> Set<u32> {
    Set::new(|y: u32| 0 <= y - offset <= u32::MAX && a.contains((y - offset) as u32))
}

/// The values `lo, lo + step, lo + 2 * step, ...` below `hi` that are `u32` values.
pub open spec fn stepped(lo: int, hi: int, step: int) -> Set<u32> {
    Set::new(|x: u32| lo <= x < hi && (x - lo) % step == 0)
}

impl Bitmap {
    /// Returns number of elements in range
    pub fn range_cardinality(&self, range: RangeInclusive<u32>) -> (r: u64)
        ensures
            r == self@.intersect(interval(range.start as int, range.last as int)).len(),
    {
        let other = Bitmap::from_range(range);
        self.and(&other).cardinality()
    }

    /// Check whether a range of values of range are present
    pub fn contains_range(&self, range: RangeInclusive<u32>) -> (r: bool)
        ensures
            r == interval(range.start as int, range.last as int).subset_of(self@),
    {
        proof {
            use_type_invariant(self);
        }
        if range.start > range.last {
            assert(interval(range.start as int, range.last as int) =~= Set::<u32>::empty());
            return true;
        }
        let k = first_run_not_before(&self.runs, range.start);
        let r = k < self.runs.len() && self.runs[k].0 <= range.start && range.last <= self.runs[k].1;
        proof {
            let s = self.runs@;
            if r {
                assert forall|x: u32| interval(range.start as int, range.last as int).contains(x)
                    implies self@.contains(x) by {
                    assert(s[k as int].0 <= x && x <= s[k as int].1);
                }
            } else {
                if interval(range.start as int, range.last as int).subset_of(self@) {
                    assert(interval(range.start as int, range.last as int).contains(range.start));
                    assert(self@.contains(range.start));
                    assert(k < s.len() && s[k as int].0 <= range.start);
                    let y = (s[k as int].1 + 1) as u32;
                    assert(interval(range.start as int, range.last as int).contains(y));
                    let m = choose|m: int| 0 <= m < s.len() && #[trigger] s[m].0 <= y && y <= s[m].1;
                    if m < k {
                        assert(s[m].1 < range.start);
                    } else if m > k {
                        assert(s[k as int].1 + 1 < s[m].0);
                    }
                }
            }
        }
        r
    }

    /// Check if a bitmap has any values set in `range`
    pub fn intersect_with_range(&self, range: RangeInclusive<u32>) -> (r: bool)
        ensures
            r == !self@.disjoint(interval(range.start as int, range.last as int)),
    {
        proof {
            use_type_invariant(self);
        }
        if range.start > range.last {
            assert(interval(range.start as int, range.last as int) =~= Set::<u32>::empty());
            assert(self@.disjoint(Set::<u32>::empty()));
            return false;
        }
        let k = first_run_not_before(&self.runs, range.start);
        let r = k < self.runs.len() && self.runs[k].0 <= range.last;
        proof {
            let s = self.runs@;
            if r {
                let x = if s[k as int].0 <= range.start { range.start } else { s[k as int].0 };
                assert(s[k as int].0 <= x && x <= s[k as int].1);
                assert(self@.contains(x));
                assert(interval(range.start as int, range.last as int).contains(x));
            } else {
                assert forall|x: u32| self@.contains(x) implies !interval(
                    range.start as int,
                    range.last as int,
                ).contains(x) by {
                    let m = choose|m: int| 0 <= m < s.len() && #[trigger] s[m].0 <= x && x <= s[m].1;
                    if m < k {
                        assert(s[m].1 < range.start);
                    } else if m > k {
                        assert(s[k as int].1 + 1 < s[m].0);
                        assert(s[k as int].0 <= s[k as int].1);
                    }
                }
            }
        }
        r
    }

    /// Return true if Self and &other intersect
    pub fn intersect(&self, other: &Self) -> (r: bool)
        ensures
            r == !self@.disjoint(other@),
    {
        let both = self.and(other);
        let e = both.is_empty();
        proof {
            if !e {
                assert(both@.len() > 0 || both@ != Set::<u32>::empty());
                let x = choose|x: u32| both@.contains(x);
                assert(!(both@ =~= Set::<u32>::empty()));
                assert(both@.contains(x));
            } else {
                assert forall|x: u32| self@.contains(x) implies !other@.contains(x) by {
                    assert(!both@.contains(x));
                }
            }
        }
        !e
    }

    /// Return true if all the elements of Self are in &other.
    pub fn is_subset(&self, other: &Self) -> (r: bool)
        ensures
            r == self@.subset_of(other@),
    {
        let rest = self.andnot(other);
        let e = rest.is_empty();
        proof {
            if !e {
                assert(!(rest@ =~= Set::<u32>::empty()));
                let x = choose|x: u32| rest@.contains(x);
                assert(rest@.contains(x));
            } else {
                assert forall|x: u32| self@.contains(x) implies other@.contains(x) by {
                    assert(!rest@.contains(x));
                }
            }
        }
        e
    }

    /// Return true if all the elements of Self are in &other and &other is strictly greater
    /// than Self.
    pub fn is_strict_subset(&self, other: &Self) -> (r: bool)
        ensures
            r == (self@.subset_of(other@) && self@ != other@),
    {
        let sub = self.is_subset(other);
        if !sub {
            return false;
        }
        let a = self.cardinality();
        let b = other.cardinality();
        proof {
            self.lemma_finite();
            other.lemma_finite();
            if a == b {
                lemma_subset_equality(self@, other@);
            }
        }
        a != b
    }

    /// Return the size of the intersection between Self and &other
    pub fn and_cardinality(&self, other: &Self) -> (r: u64)
        ensures
            r == self@.intersect(other@).len(),
    {
        self.and(other).cardinality()
    }

    /// Return the size of the union between Self and &other
    pub fn or_cardinality(&self, other: &Self) -> (r: u64)
        ensures
            r == self@.union(other@).len(),
    {
        self.or(other).cardinality()
    }

    /// Return the size of the difference between Self and &other
    pub fn andnot_cardinality(&self, other: &Self) -> (r: u64)
        ensures
            r == self@.difference(other@).len(),
    {
        self.andnot(other).cardinality()
    }

    /// Return the size of the symmetric difference between Self and &other
    pub fn xor_cardinality(&self, other: &Self) -> (r: u64)
        ensures
            r == sym_diff(self@, other@).len(),
    {
        self.xor(other).cardinality()
    }

    /// Rank returns the number of values smaller or equal to x.
    pub fn rank(&self, x: u32) -> (r: u64)
        ensures
            r == self@.filter(|y: u32| y <= x).len(),
    {
        let r = self.range_cardinality(RangeInclusive { start: 0, last: x });
        assert(self@.intersect(interval(0, x as int)) =~= self@.filter(|y: u32| y <= x));
        r
    }

    /// Returns the index of x in the given roaring bitmap.
    /// If the roaring bitmap doesn't contain x, this function will return None.
    pub fn position(&self, x: u32) -> (r: Option<u32>)
        ensures
            r is Some <==> self@.contains(x),
            r matches Some(p) ==> p == below(self@, x as int).len(),
    {
        if !self.contains(x) {
            return None;
        }
        let k = self.rank(x);
        proof {
            self.lemma_finite();
            let le = self@.filter(|y: u32| y <= x);
            assert(le =~= below(self@, x as int).insert(x));
            assert(!below(self@, x as int).contains(x));
            lemma_len_subset(le, self@);
            lemma_u32_set_len(self@);
        }
        Some((k - 1) as u32)
    }

    /// Select returns the element having the designated position, if it exists
    pub fn select(&self, position: u32) -> (r: Option<u32>)
        ensures
            r is Some <==> position < self@.len(),
            r matches Some(v) ==> self@.contains(v) && below(self@, v as int).len() == position,
    {
        proof {
            use_type_invariant(self);
        }
        let mut acc: u64 = 0;
        let mut i: usize = 0;
        while i < self.runs.len()
            invariant
                runs_wf(self.runs@),
                i <= self.runs@.len(),
                acc == runs_card(self.runs@.take(i as int)),
                acc <= position,
            decreases self.runs@.len() - i,
        {
            let (lo, hi) = self.runs[i];
            proof {
                let t = self.runs@.take(i + 1);
                assert(t.drop_last() == self.runs@.take(i as int));
                lemma_runs_wf_take(self.runs@, i + 1);
                lemma_runs_card(t);
                lemma_u32_set_len(runs_set(t));
            }
            let len = (hi - lo) as u64 + 1;
            if (position as u64) < acc + len {
                let v = lo + (position - acc as u32);
                proof {
                    lemma_below_in_run(self.runs@, i as int, v as int);
                    assert(lo <= v && v <= hi);
                    assert(in_runs(self.runs@, v));
                    lemma_runs_card(self.runs@);
                    lemma_len_subset(below(self@, v as int), self@);
                    assert(!below(self@, v as int).contains(v));
                    assert(below(self@, v as int).insert(v).subset_of(self@));
                    lemma_len_subset(below(self@, v as int).insert(v), self@);
                }
                return Some(v);
            }
            acc = acc + len;
            i = i + 1;
        }
        proof {
            assert(self.runs@.take(self.runs@.len() as int) == self.runs@);
            lemma_runs_card(self.runs@);
        }
        None
    }
}

impl Bitmap {
    /// Computes the union between many bitmaps quickly, as opposed to having
    /// to call or repeatedly.
    pub fn fast_or(bitmaps: &[&Bitmap]) -> (r: Self)
        ensures
            r@ == union_all(views(bitmaps@)),
    {
        let mut result = Bitmap::new();
        let mut i: usize = 0;
        while i < bitmaps.len()
            invariant
                i <= bitmaps@.len(),
                result@ == union_all(views(bitmaps@.take(i as int))),
            decreases bitmaps@.len() - i,
        {
            result.or_inplace(bitmaps[i]);
            proof {
                let t = bitmaps@.take(i + 1);
                assert(views(t).drop_last() =~= views(bitmaps@.take(i as int)));
                assert(views(t).last() == bitmaps@[i as int]@);
            }
            i = i + 1;
        }
        assert(bitmaps@.take(bitmaps@.len() as int) == bitmaps@);
        result
    }

    /// Computes the union between many bitmaps quickly using a heap.
    /// It might be faster than [`Bitmap::fast_or`] in some cases.
    pub fn fast_or_heap(bitmaps: &[&Bitmap]) -> (r: Self)
        requires
            bitmaps@.len() <= u32::MAX,
        ensures
            r@ == union_all(views(bitmaps@)),
    {
        Self::fast_or(bitmaps)
    }

    /// Computes the symmetric difference (xor) between multiple bitmaps.
    pub fn fast_xor(bitmaps: &[&Bitmap]) -> (r: Self)
        ensures
            r@ == xor_all(views(bitmaps@)),
    {
        let mut result = Bitmap::new();
        let mut i: usize = 0;
        while i < bitmaps.len()
            invariant
                i <= bitmaps@.len(),
                result@ == xor_all(views(bitmaps@.take(i as int))),
            decreases bitmaps@.len() - i,
        {
            result.xor_inplace(bitmaps[i]);
            proof {
                let t = bitmaps@.take(i + 1);
                assert(views(t).drop_last() =~= views(bitmaps@.take(i as int)));
                assert(views(t).last() == bitmaps@[i as int]@);
            }
            i = i + 1;
        }
        assert(bitmaps@.take(bitmaps@.len() as int) == bitmaps@);
        result
    }

    /// Compute a new bitmap, which contains all values from this bitmap, but shifted by `offset`
    ///
    /// Any values which would be `< 0`, or `> u32::MAX` are dropped.
    pub fn add_offset(&self, offset: i64) -> (r: Self)
        ensures
            r.keeps_runs() == self.keeps_runs(),
            r@ == shifted(self@, offset as int),
    {
        proof {
            use_type_invariant(self);
        }
        let ghost s = self.runs@;
        let mut out: Vec<(u32, u32)> = Vec::new();
        let mut i: usize = 0;
        while i < self.runs.len()
            invariant
                s == self.runs@,
                runs_wf(s),
                i <= s.len(),
                runs_wf(out@),
                runs_set(out@) == shifted(runs_set(s.take(i as int)), offset as int),
                i < s.len() ==> forall|x: u32| #[trigger] runs_set(out@).contains(x) ==> x + 1 < s[i as int].0
                    + offset,
                i < s.len() && out@.len() > 0 ==> out@.last().1 + 1 < s[i as int].0 + offset,
            decreases s.len() - i,
        {
            let (lo, hi) = self.runs[i];
            let nlo: i128 = lo as i128 + offset as i128;
            let nhi: i128 = hi as i128 + offset as i128;
            let clo: i128 = if nlo < 0 { 0 } else { nlo };
            let chi: i128 = if nhi > u32::MAX as i128 { u32::MAX as i128 } else { nhi };
            let ghost prev = out@;
            if clo <= chi {
                push_segment(&mut out, clo as u32, chi as u32);
            }
            proof {
                let t = s.take(i + 1);
                assert(t == s.take(i as int).push((lo, hi)));
                lemma_runs_set_push(s.take(i as int), (lo, hi));
                assert forall|y: u32| #[trigger] runs_set(out@).contains(y) == shifted(
                    runs_set(t),
                    offset as int,
                ).contains(y) by {
                    if clo <= chi {
                        assert(runs_set(out@) == runs_set(prev).union(interval(clo as int, chi as int)));
                    } else {
                        assert(runs_set(out@) == runs_set(prev));
                    }
                }
                assert(runs_set(out@) =~= shifted(runs_set(t), offset as int));
                if i + 1 < s.len() {
                    assert(s[i as int].1 + 1 < s[i + 1].0);
                    if clo <= chi {
                        assert forall|x: u32| #[trigger] runs_set(out@).contains(x) implies x + 1
                            < s[i + 1].0 + offset by {
                            if runs_set(prev).contains(x) {
                            }
                        }
                    } else {
                        assert forall|x: u32| #[trigger] runs_set(out@).contains(x) implies x + 1
                            < s[i + 1].0 + offset by {
                            assert(runs_set(prev).contains(x));
                        }
                    }
                }
            }
            i = i + 1;
        }
        assert(s.take(s.len() as int) == s);
        Bitmap { runs: out, keep_runs: self.keep_runs }
    }

    /// Create a new bitmap holding the values of a range taken every `step` values
    ///
    /// The values are `start, start + step, start + 2 * step, ...` for as long as
    /// they lie in the range; when the start is excluded, the first value is
    /// `start + step`. A `step` of zero gives the empty bitmap; a `step` of one
    /// stores the values as runs where runs are the smaller form.
    pub fn from_range_with_step(start_bound: Bound<u32>, end_bound: Bound<u32>, step: u32) -> (r: Self)
        ensures
            r.keeps_runs() == (step == 1),
            step == 0 ==> r@ == Set::<u32>::empty(),
            step > 0 ==> r@ == stepped(
                match start_bound {
                    Bound::Included(i) => i as int,
                    Bound::Excluded(i) => i + step,
                    Bound::Unbounded => 0,
                },
                match end_bound {
                    Bound::Included(i) => i + 1,
                    Bound::Excluded(i) => i as int,
                    Bound::Unbounded => u64::MAX as int,
                },
                step as int,
            ),
    {
        let start: u64 = match start_bound {
            Bound::Included(i) => i as u64,
            Bound::Excluded(i) => i as u64 + step as u64,
            Bound::Unbounded => 0,
        };
        let end: u64 = match end_bound {
            Bound::Included(i) => i as u64 + 1,
            Bound::Excluded(i) => i as u64,
            Bound::Unbounded => u64::MAX,
        };
        if step == 0 {
            return Self::new();
        }
        let ghost target = stepped(start as int, end as int, step as int);
        let mut out: Vec<(u32, u32)> = Vec::new();
        let mut v: u64 = start;
        let ghost mut k: int = 0;
        while v < end && v <= u32::MAX as u64
            invariant
                step > 0,
                target == stepped(start as int, end as int, step as int),
                v == start + k * step,
                k >= 0,
                v <= u32::MAX + step,
                runs_wf(out@),
                out@.len() > 0 ==> out@.last().1 < v,
                forall|x: u32| #[trigger] runs_set(out@).contains(x) == (x < v && target.contains(x)),
            decreases u32::MAX + step - v,
        {
            let ghost prev = out@;
            push_segment(&mut out, v as u32, v as u32);
            proof {
                assert forall|x: u32| #[trigger] runs_set(out@).contains(x) == (x < v + step
                    && target.contains(x)) by {
                    if v <= x < v + step {
                        let d = x - v;
                        assert(x - start == k * step + d) by (nonlinear_arith)
                            requires
                                v == start + k * step,
                                d == x - v,
                        ;
                        vstd::arithmetic::div_mod::lemma_fundamental_div_mod_converse(
                            x - start,
                            step as int,
                            k,
                            d,
                        );
                    }
                    if x < v && target.contains(x) {
                        assert(runs_set(prev).contains(x));
                    }
                    if x == v {
                        assert(interval(v as int, v as int).contains(x));
                    }
                }
            }
            v = v + step as u64;
            proof {
                k = k + 1;
                assert(v == start + k * step) by (nonlinear_arith)
                    requires
                        v == start + (k - 1) * step + step,
                ;
            }
        }
        assert forall|x: u32| #[trigger] runs_set(out@).contains(x) == target.contains(x) by {}
        assert(runs_set(out@) =~= target);
        Bitmap { runs: out, keep_runs: step == 1 }
    }
}

impl Bitmap {
    /// Checks that the bitmap is internally valid; it always is, as its runs
    /// are kept sorted, disjoint and apart.
    pub fn internal_validate(&self) -> (r: Result<(), &'static str>)
        ensures
            r is Ok,
    {
        Ok(())
    }
}

impl Default for Bitmap {
    fn default() -> (r: Self)
        ensures
            !r.keeps_runs(),
            r@ == Set::<u32>::empty(),
    {
        Self::new()
    }
}

impl Bitmap {
    /// The bitmap holding the values of a well-formed run list.
    pub(crate) fn from_runs(runs: Vec<(u32, u32)>) -> (r: Self)
        requires
            runs_wf(runs@),
        ensures
            !r.keeps_runs(),
            r@ == runs_set(runs@),
    {
        Bitmap { runs, keep_runs: false }
    }

    /// The runs of consecutive values that make up the bitmap, in increasing order.
    pub(crate) fn runs_ref(&self) -> (r: &Vec<(u32, u32)>)
        ensures
            runs_wf(r@),
            runs_set(r@) == self@,
    {
        proof {
            use_type_invariant(self);
        }
        &self.runs
    }
}

} // verus!
