//! The mathematical model behind [`crate::Bitmap`]: a sorted sequence of
//! disjoint, non-adjacent closed intervals ("runs") of `u32` values, the set
//! of values it denotes, and the counting facts the bitmap operations rest on.
use vstd::prelude::*;
use vstd::set_lib::*;

verus! {

/// The closed interval `[lo, hi]` of `u32` values (empty when `lo > hi`).
pub open spec fn interval(lo: int, hi: int) -> Set<u32> {
    Set::new(|x: u32| lo <= x && x <= hi)
}

/// A run list is well formed when every run is non-empty and the runs are
/// sorted, pairwise disjoint and separated by at least one missing value.
pub open spec fn runs_wf(s: Seq<(u32, u32)>) -> bool {
    &&& forall|i: int| 0 <= i < s.len() ==> #[trigger] s[i].0 <= s[i].1
    &&& forall|i: int, j: int|
        #![trigger s[i], s[j]]
        0 <= i < j < s.len() ==> s[i].1 + 1 < s[j].0
}

/// Whether `x` lies in one of the runs of `s`.
pub open spec fn in_runs(s: Seq<(u32, u32)>, x: u32) -> bool {
    exists|i: int| 0 <= i < s.len() && #[trigger] s[i].0 <= x && x <= s[i].1
}

/// The set of values denoted by a run list.
pub open spec fn runs_set(s: Seq<(u32, u32)>) -> Set<u32> {
    Set::new(|x: u32| in_runs(s, x))
}

/// Number of values in one run.
pub open spec fn run_len(r: (u32, u32)) -> nat {
    (r.1 - r.0 + 1) as nat
}

/// Total number of values covered by a run list.
pub open spec fn runs_card(s: Seq<(u32, u32)>) -> nat
    decreases s.len(),
{
    if s.len() == 0 {
        0
    } else {
        runs_card(s.drop_last()) + run_len(s.last())
    }
}

/// An interval `[lo, hi]` with `lo <= hi` is finite and has `hi - lo + 1` elements.
pub proof fn lemma_interval_len(lo: int, hi: int)
    requires
        0 <= lo <= hi <= u32::MAX,
    ensures
        interval(lo, hi).finite(),
        interval(lo, hi).len() == hi - lo + 1,
    decreases hi - lo,
{
    if lo == hi {
        assert(interval(lo, hi) =~= Set::<u32>::empty().insert(lo as u32));
    } else {
        lemma_interval_len(lo, hi - 1);
        assert(interval(lo, hi) =~= interval(lo, hi - 1).insert(hi as u32));
    }
}


/// Appending a run adds exactly its interval to the denoted set.
pub proof fn lemma_runs_set_push(s: Seq<(u32, u32)>, r: (u32, u32))
    ensures
        runs_set(s.push(r)) =~= runs_set(s).union(interval(r.0 as int, r.1 as int)),
{
    let t = s.push(r);
    assert forall|x: u32| runs_set(t).contains(x) implies runs_set(s).union(
        interval(r.0 as int, r.1 as int),
    ).contains(x) by {
        let i = choose|i: int| 0 <= i < t.len() && #[trigger] t[i].0 <= x && x <= t[i].1;
        if i < s.len() {
            assert(s[i] == t[i]);
        }
    }
    assert forall|x: u32| runs_set(s).union(interval(r.0 as int, r.1 as int)).contains(x)
        implies runs_set(t).contains(x) by {
        if runs_set(s).contains(x) {
            let i = choose|i: int| 0 <= i < s.len() && #[trigger] s[i].0 <= x && x <= s[i].1;
            assert(t[i] == s[i]);
        } else {
            assert(t[s.len() as int] == r);
        }
    }
}

/// Every value of a well-formed run list lies between its first start and last end.
pub proof fn lemma_runs_bounds(s: Seq<(u32, u32)>, x: u32)
    requires
        runs_wf(s),
        runs_set(s).contains(x),
    ensures
        s.len() > 0,
        s[0].0 <= x <= s.last().1,
{
    let i = choose|i: int| 0 <= i < s.len() && #[trigger] s[i].0 <= x && x <= s[i].1;
    if i > 0 {
        assert(s[0].1 + 1 < s[i].0);
    }
    if i < s.len() - 1 {
        assert(s[i].1 + 1 < s[s.len() - 1].0);
    }
}

/// A prefix of a well-formed run list is well formed.
pub proof fn lemma_runs_wf_take(s: Seq<(u32, u32)>, n: int)
    requires
        runs_wf(s),
        0 <= n <= s.len(),
    ensures
        runs_wf(s.take(n)),
{
    let t = s.take(n);
    assert forall|i: int, j: int| 0 <= i < j < t.len() implies #[trigger] t[i].1 + 1 < #[trigger] t[j].0 by {
        assert(t[i] == s[i] && t[j] == s[j]);
    }
}

/// A suffix of a well-formed run list is well formed.
pub proof fn lemma_runs_wf_skip(s: Seq<(u32, u32)>, n: int)
    requires
        runs_wf(s),
        0 <= n <= s.len(),
    ensures
        runs_wf(s.skip(n)),
{
    let t = s.skip(n);
    assert forall|i: int, j: int| 0 <= i < j < t.len() implies #[trigger] t[i].1 + 1 < #[trigger] t[j].0 by {
        assert(t[i] == s[i + n] && t[j] == s[j + n]);
    }
}

/// The set denoted by a well-formed run list is finite, and its size is the
/// sum of the run lengths.
pub proof fn lemma_runs_card(s: Seq<(u32, u32)>)
    requires
        runs_wf(s),
    ensures
        runs_set(s).finite(),
        runs_set(s).len() == runs_card(s),
    decreases s.len(),
{
    if s.len() == 0 {
        assert(runs_set(s) =~= Set::<u32>::empty());
    } else {
        let t = s.drop_last();
        let r = s.last();
        lemma_runs_wf_take(s, s.len() - 1);
        assert(t == s.take(s.len() - 1));
        lemma_runs_card(t);
        assert(s == t.push(r));
        lemma_runs_set_push(t, r);
        lemma_interval_len(r.0 as int, r.1 as int);
        assert forall|x: u32| runs_set(t).contains(x) implies !interval(
            r.0 as int,
            r.1 as int,
        ).contains(x) by {
            lemma_runs_bounds(t, x);
            assert(t.last() == s[t.len() - 1]);
            assert(s[t.len() - 1].1 + 1 < s[s.len() - 1].0);
        }
        assert(runs_set(t).disjoint(interval(r.0 as int, r.1 as int)));
        lemma_set_disjoint_lens(runs_set(t), interval(r.0 as int, r.1 as int));
    }
}


/// The set denoted by any run list is finite.
pub proof fn lemma_runs_finite(s: Seq<(u32, u32)>)
    ensures
        runs_set(s).finite(),
    decreases s.len(),
{
    if s.len() == 0 {
        assert(runs_set(s) =~= Set::<u32>::empty());
    } else {
        let t = s.drop_last();
        let r = s.last();
        lemma_runs_finite(t);
        assert(s == t.push(r));
        lemma_runs_set_push(t, r);
        if r.0 <= r.1 {
            lemma_interval_len(r.0 as int, r.1 as int);
        } else {
            assert(interval(r.0 as int, r.1 as int) =~= Set::<u32>::empty());
        }
    }
}

/// Two well-formed run lists that denote the same set are identical: the run
/// representation of a set is canonical.
pub proof fn lemma_runs_canonical(s: Seq<(u32, u32)>, t: Seq<(u32, u32)>)
    requires
        runs_wf(s),
        runs_wf(t),
        runs_set(s) == runs_set(t),
    ensures
        s == t,
    decreases s.len(),
{
    if s.len() == 0 {
        if t.len() > 0 {
            assert(runs_set(t).contains(t[0].0));
            assert(!runs_set(s).contains(t[0].0));
        }
    } else if t.len() == 0 {
        assert(runs_set(s).contains(s[0].0));
        assert(!runs_set(t).contains(s[0].0));
    } else {
        // the first runs start at the least element
        assert(runs_set(s).contains(s[0].0));
        assert(runs_set(t).contains(t[0].0));
        lemma_runs_bounds(s, t[0].0);
        lemma_runs_bounds(t, s[0].0);
        assert(s[0].0 == t[0].0);
        // the first runs end just before the first missing value
        if s[0].1 < t[0].1 {
            let y = (s[0].1 + 1) as u32;
            assert(t[0].0 <= y <= t[0].1);
            assert(runs_set(t).contains(y));
            let k = choose|k: int| 0 <= k < s.len() && #[trigger] s[k].0 <= y && y <= s[k].1;
            if k > 0 {
                assert(s[0].1 + 1 < s[k].0);
            }
        }
        if t[0].1 < s[0].1 {
            let y = (t[0].1 + 1) as u32;
            assert(s[0].0 <= y <= s[0].1);
            assert(runs_set(s).contains(y));
            let k = choose|k: int| 0 <= k < t.len() && #[trigger] t[k].0 <= y && y <= t[k].1;
            if k > 0 {
                assert(t[0].1 + 1 < t[k].0);
            }
        }
        assert(s[0] == t[0]);
        let s1 = s.skip(1);
        let t1 = t.skip(1);
        lemma_runs_wf_skip(s, 1);
        lemma_runs_wf_skip(t, 1);
        assert forall|x: u32| runs_set(s1).contains(x) implies runs_set(t1).contains(x) by {
            let k = choose|k: int| 0 <= k < s1.len() && #[trigger] s1[k].0 <= x && x <= s1[k].1;
            assert(s1[k] == s[k + 1]);
            assert(s[0].1 + 1 < s[k + 1].0);
            assert(runs_set(s).contains(x));
            let m = choose|m: int| 0 <= m < t.len() && #[trigger] t[m].0 <= x && x <= t[m].1;
            assert(m != 0);
            assert(t1[m - 1] == t[m]);
        }
        assert forall|x: u32| runs_set(t1).contains(x) implies runs_set(s1).contains(x) by {
            let k = choose|k: int| 0 <= k < t1.len() && #[trigger] t1[k].0 <= x && x <= t1[k].1;
            assert(t1[k] == t[k + 1]);
            assert(t[0].1 + 1 < t[k + 1].0);
            assert(runs_set(t).contains(x));
            let m = choose|m: int| 0 <= m < s.len() && #[trigger] s[m].0 <= x && x <= s[m].1;
            assert(m != 0);
            assert(s1[m - 1] == s[m]);
        }
        assert(runs_set(s1) =~= runs_set(t1));
        lemma_runs_canonical(s1, t1);
        assert(s =~= seq![s[0]] + s1);
        assert(t =~= seq![t[0]] + t1);
    }
}

/// The values of `s` below `n`.
pub open spec fn values_below(s: Set<u32>, n: int) -> Set<u32> {
    Set::new(|x: u32| s.contains(x) && x < n)
}

/// Builds a well-formed run list for the values of `s` below `n`.
proof fn runs_below(s: Set<u32>, n: int) -> (r: Seq<(u32, u32)>)
    requires
        0 <= n <= 0x1_0000_0000,
    ensures
        runs_wf(r),
        runs_set(r) == values_below(s, n),
        r.len() > 0 ==> r.last().1 < n,
    decreases n,
{
    if n == 0 {
        let r = Seq::<(u32, u32)>::empty();
        assert(runs_set(r) =~= values_below(s, n));
        r
    } else {
        let r0 = runs_below(s, n - 1);
        let v = (n - 1) as u32;
        if !s.contains(v) {
            assert(runs_set(r0) =~= values_below(s, n));
            r0
        } else if r0.len() > 0 && r0.last().1 + 1 == v {
            let last = r0.len() - 1;
            let r = r0.update(last, (r0[last].0, v));
            assert forall|i: int, j: int| #![trigger r[i], r[j]] 0 <= i < j < r.len() implies r[i].1 + 1 < r[j].0 by {
                assert(r0[i].1 + 1 < r0[j].0);
            }
            assert forall|x: u32| #[trigger] runs_set(r).contains(x) == values_below(s, n).contains(x) by {
                if runs_set(r).contains(x) {
                    let i = choose|i: int| 0 <= i < r.len() && #[trigger] r[i].0 <= x && x <= r[i].1;
                    if i < last || x < v {
                        assert(r0[i].0 <= x && x <= r0[i].1);
                        assert(in_runs(r0, x));
                        assert(runs_set(r0).contains(x));
                    }
                }
                if values_below(s, n).contains(x) {
                    if x < v {
                        assert(runs_set(r0).contains(x));
                        let i = choose|i: int| 0 <= i < r0.len() && #[trigger] r0[i].0 <= x && x <= r0[i].1;
                        assert(r[i].0 <= x && x <= r[i].1);
                    } else {
                        assert(r[last].0 <= x && x <= r[last].1);
                    }
                }
            }
            assert(runs_set(r) =~= values_below(s, n));
            r
        } else {
            let r = r0.push((v, v));
            assert forall|i: int, j: int| #![trigger r[i], r[j]] 0 <= i < j < r.len() implies r[i].1 + 1 < r[j].0 by {
                if j < r0.len() {
                    assert(r0[i].1 + 1 < r0[j].0);
                } else if i < r0.len() - 1 {
                    assert(r0[i].1 + 1 < r0[r0.len() - 1].0);
                }
            }
            lemma_runs_set_push(r0, (v, v));
            assert(runs_set(r) =~= values_below(s, n));
            r
        }
    }
}

/// Every set of `u32` values is denoted by a well-formed run list.
pub proof fn lemma_runs_exist(s: Set<u32>)
    ensures
        exists|r: Seq<(u32, u32)>| runs_wf(r) && runs_set(r) == s,
{
    let r = runs_below(s, 0x1_0000_0000);
    assert(values_below(s, 0x1_0000_0000) =~= s);
    assert(runs_wf(r) && runs_set(r) == s);
}

} // verus!
