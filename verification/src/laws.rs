//! Laws that the operations of the library obey together, stated over the
//! sets that the operations' contracts speak of.
use crate::bitmap::{below, sym_diff};
use crate::bitmap64::below64;
use crate::callback::{after_calls, continues};
use std::ops::ControlFlow;
use crate::cursor::{moved_next, moved_prev, CursorPosition};
use crate::cursor64::Cursor64Position;
use vstd::prelude::*;
use vstd::set_lib::lemma_len_subset;

verus! {

/// What `contains` reads back after `add` or `remove`: the value added is
/// present, the value removed is absent, and every other value is as before.
pub proof fn lemma_read_after_write(s: Set<u32>, x: u32, y: u32)
    ensures
        s.insert(x).contains(y) == (y == x || s.contains(y)),
        s.remove(x).contains(y) == (y != x && s.contains(y)),
{
}

/// Combining a bitmap with itself: `and` and `or` give it back, `xor` and
/// `andnot` give the empty bitmap.
pub proof fn lemma_self_combination(s: Set<u32>)
    ensures
        s.intersect(s) == s,
        s.union(s) == s,
        sym_diff(s, s) == Set::<u32>::empty(),
        s.difference(s) == Set::<u32>::empty(),
{
    assert(s.intersect(s) =~= s);
    assert(s.union(s) =~= s);
    assert(sym_diff(s, s) =~= Set::<u32>::empty());
    assert(s.difference(s) =~= Set::<u32>::empty());
}

/// A bitmap is a subset of itself, but never a strict one.
pub proof fn lemma_subset_reflexive(s: Set<u32>)
    ensures
        s.subset_of(s),
        !(s.subset_of(s) && s != s),
{
}

/// The rank of a value in the bitmap is its position plus one.
pub proof fn lemma_rank_position(s: Set<u32>, x: u32)
    requires
        s.contains(x),
    ensures
        s.filter(|y: u32| y <= x).len() == below(s, x as int).len() + 1,
{
    crate::bitmap::lemma_u32_set_len(s);
    let le = s.filter(|y: u32| y <= x);
    let lt = below(s, x as int);
    assert(le =~= lt.insert(x));
    lemma_len_subset(lt, s);
    assert(!lt.contains(x));
}

/// Two values of a bitmap at the same position are the same value: `select`
/// undoes `position`.
pub proof fn lemma_position_unique(s: Set<u32>, x: u32, v: u32)
    requires
        s.contains(x),
        s.contains(v),
        below(s, v as int).len() == below(s, x as int).len(),
    ensures
        v == x,
{
    if v < x {
        lemma_below_grows(s, v, x);
    } else if x < v {
        lemma_below_grows(s, x, v);
    }
}

/// Below a larger value of the bitmap lie strictly more of its values.
proof fn lemma_below_grows(s: Set<u32>, v: u32, x: u32)
    requires
        s.contains(v),
        v < x,
    ensures
        below(s, v as int).len() < below(s, x as int).len(),
{
    crate::bitmap::lemma_u32_set_len(s);
    let a = below(s, v as int);
    let b = below(s, x as int);
    lemma_len_subset(b, s);
    lemma_len_subset(a.insert(v), b);
    lemma_len_subset(a, s);
    assert(!a.contains(v));
}

/// Stepping forward then back returns to where the cursor was, when the step
/// forward reached a value or the end.
pub proof fn lemma_cursor_next_prev(s: Set<u32>, v: u32, q: CursorPosition, r: CursorPosition)
    requires
        s.contains(v),
        moved_next(s, CursorPosition::At(v), q),
        moved_prev(s, q, r),
    ensures
        r == CursorPosition::At(v),
{
    match q {
        CursorPosition::At(w) => {
            assert(v < w);
        },
        _ => {},
    }
}

/// Stepping back then forward returns to where the cursor was, when the step
/// back reached a value or the start.
pub proof fn lemma_cursor_prev_next(s: Set<u32>, v: u32, q: CursorPosition, r: CursorPosition)
    requires
        s.contains(v),
        moved_prev(s, CursorPosition::At(v), q),
        moved_next(s, q, r),
    ensures
        r == CursorPosition::At(v),
{
    match q {
        CursorPosition::At(w) => {
            assert(w < v);
        },
        _ => {},
    }
}

/// The rank of a value in a 64-bit bitmap is its position plus one.
pub proof fn lemma_rank_position64(s: Set<u64>, x: u64)
    requires
        s.finite(),
        s.contains(x),
    ensures
        s.filter(|y: u64| y <= x).len() == below64(s, x as int).len() + 1,
{
    let le = s.filter(|y: u64| y <= x);
    let lt = below64(s, x as int);
    assert(le =~= lt.insert(x));
    lemma_len_subset(lt, s);
    assert(!lt.contains(x));
}

/// Two values of a 64-bit bitmap at the same position are the same value:
/// `select` undoes `position`.
pub proof fn lemma_position_unique64(s: Set<u64>, x: u64, v: u64)
    requires
        s.finite(),
        s.contains(x),
        s.contains(v),
        below64(s, v as int).len() == below64(s, x as int).len(),
    ensures
        v == x,
{
    crate::bitmap64::lemma_below64_unique(s, v, x);
}

/// Stepping forward then back over a 64-bit bitmap returns to where the
/// cursor was.
pub proof fn lemma_cursor64_next_prev(s: Set<u64>, v: u64, q: Cursor64Position, r: Cursor64Position)
    requires
        s.contains(v),
        crate::cursor64::moved_next(s, Cursor64Position::At(v), q),
        crate::cursor64::moved_prev(s, q, r),
    ensures
        r == Cursor64Position::At(v),
{
    match q {
        Cursor64Position::At(w) => {
            assert(v < w);
        },
        _ => {},
    }
}

/// Stepping back then forward over a 64-bit bitmap returns to where the
/// cursor was.
pub proof fn lemma_cursor64_prev_next(s: Set<u64>, v: u64, q: Cursor64Position, r: Cursor64Position)
    requires
        s.contains(v),
        crate::cursor64::moved_prev(s, Cursor64Position::At(v), q),
        crate::cursor64::moved_next(s, q, r),
    ensures
        r == Cursor64Position::At(v),
{
    match q {
        Cursor64Position::At(w) => {
            assert(w < v);
        },
        _ => {},
    }
}

/// A callback's outcome after a series of calls from a fresh wrapper, where
/// the iteration stops at the first call that does not continue: that call's
/// break or failure, or `Continue` when every call continued (also when
/// there was none).
pub proof fn lemma_callback_outcome<O, P>(calls: Seq<Result<ControlFlow<O>, P>>)
    requires
        forall|i: int| 0 <= i < calls.len() - 1 ==> continues(#[trigger] calls[i]),
    ensures
        after_calls(Ok::<ControlFlow<O>, P>(ControlFlow::Continue(())), calls) == if calls.len() > 0 && !continues(
            calls.last(),
        ) {
            calls.last()
        } else {
            Ok(ControlFlow::Continue(()))
        },
{
    if calls.len() > 0 {
        lemma_all_continue(calls.drop_last());
    }
}

/// Calls that all continue leave a fresh outcome as it was.
proof fn lemma_all_continue<O, P>(calls: Seq<Result<ControlFlow<O>, P>>)
    requires
        forall|i: int| 0 <= i < calls.len() ==> continues(#[trigger] calls[i]),
    ensures
        after_calls(Ok::<ControlFlow<O>, P>(ControlFlow::Continue(())), calls) == Ok::<ControlFlow<O>, P>(
            ControlFlow::Continue(()),
        ),
    decreases calls.len(),
{
    if calls.len() > 0 {
        lemma_all_continue(calls.drop_last());
        assert(continues(calls[calls.len() - 1]));
    }
}

/// A 64-bit bitmap and a treemap whose bitmaps are the same buckets write
/// the same portable bytes.
pub proof fn lemma_bitmap64_treemap_same_bytes(m: Map<u32, crate::bitmap::Bitmap>)
    ensures
        <crate::serialization::Portable as crate::bitmap64::Serializer>::serialized(m)
            == <crate::serialization::Portable as crate::treemap_serialization::Serializer>::serialized(m),
{
}

/// Run compression is never switched on by carrying it along: when no bucket
/// of `before` keeps it, and `after` carries it from `before` (as adding or
/// removing values does), no bucket of `after` keeps it either.
pub proof fn lemma_runs_stay_off(
    before: Map<u32, crate::bitmap::Bitmap>,
    after: Map<u32, crate::bitmap::Bitmap>,
)
    requires
        crate::treemap::runs_carried(Map::empty(), before),
        crate::treemap::runs_carried(before, after),
    ensures
        crate::treemap::runs_carried(Map::empty(), after),
        forall|k: u32| #[trigger] after.contains_key(k) && after[k]@ != Set::<u32>::empty() ==> !after[k].keeps_runs(),
{
}

/// Two 64-bit bitmaps that hold the same values, and none of whose buckets
/// keeps run compression (as when they were built by adding values, in any
/// order and any grouping), write the same portable bytes: those bytes
/// depend on the values alone.
pub proof fn lemma_bitmap64_bytes_without_runs(b1: crate::bitmap64::Bitmap64, b2: crate::bitmap64::Bitmap64)
    requires
        crate::treemap::runs_carried(Map::empty(), b1.buckets()),
        crate::treemap::runs_carried(Map::empty(), b2.buckets()),
        b1@ == b2@,
    ensures
        <crate::serialization::Portable as crate::bitmap64::Serializer>::serialized(b1.buckets())
            == <crate::serialization::Portable as crate::bitmap64::Serializer>::serialized(b2.buckets()),
{
    b1.lemma_buckets();
    b2.lemma_buckets();
    let m1 = b1.buckets();
    let m2 = b2.buckets();
    crate::treemap::lemma_same_values_same_keys(m1, m2);
    assert(crate::treemap::same_buckets(m1, m2));
    crate::treemap_serialization::lemma_same_buckets_bytes(m1, m2);
}

} // verus!
