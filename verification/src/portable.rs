//! The portable serialization format of roaring bitmaps
//! (<https://github.com/RoaringBitmap/RoaringFormatSpec>): its meaning as a
//! function from bytes to sets, a checked reader, and a writer.
use crate::bitmap::Bitmap;
use crate::bytes::{
    extends, lemma_extends_reads, le16, le16_bytes, le32, le32_bytes, push_bytes, read_u16_le, read_u32_le,
    u16_le_bytes, u32_le_bytes,
};
use crate::runs::{interval, runs_set, runs_wf};
use vstd::prelude::*;
use vstd::set_lib::lemma_len_subset;

verus! {

/// Cookie of a serialization without run containers.
pub const SERIAL_COOKIE_NO_RUNCONTAINER: u32 = 12346;

/// Cookie (low 16 bits) of a serialization with run containers.
pub const SERIAL_COOKIE: u16 = 12347;

/// From this number of containers on, a serialization with run containers
/// also carries the offset header.
pub const NO_OFFSET_THRESHOLD: usize = 4;

/// Containers of at most this many values that are not run containers are
/// arrays; larger ones are bitsets.
pub const DEFAULT_MAX_SIZE: usize = 4096;

/// The header of a portable serialization: the number of containers, whether
/// the run-container flags are present, where the descriptive header starts and
/// where the container data starts.
pub open spec fn portable_header(b: Seq<u8>) -> Option<(int, bool, int, int)> {
    if b.len() < 4 {
        None
    } else if le32(b, 0) == SERIAL_COOKIE_NO_RUNCONTAINER {
        if b.len() < 8 {
            None
        } else {
            let n = le32(b, 4);
            let data = 8 + 8 * n;
            if n > 0x1_0000 || data > b.len() {
                None
            } else {
                Some((n, false, 8, data))
            }
        }
    } else if le16(b, 0) == SERIAL_COOKIE {
        let n = le16(b, 2) + 1;
        let desc = 4 + (n + 7) / 8;
        let data = desc + 4 * n + if n >= NO_OFFSET_THRESHOLD { 4 * n } else { 0 };
        if data > b.len() {
            None
        } else {
            Some((n, true, desc, data))
        }
    } else {
        None
    }
}

/// Whether bit `i` (0 = least significant) of `byte` is set.
pub open spec fn bit_of(byte: u8, i: int) -> bool {
    ((byte >> (i as u8)) & 1u8) == 1u8
}

/// Whether container `k` is flagged as a run container.
pub open spec fn run_flag(b: Seq<u8>, k: int) -> bool {
    bit_of(b[4 + k / 8], k % 8)
}

/// The values `key * 2^16 + v` for the low values `v` in `vals`.
pub open spec fn lift(key: int, vals: Set<u32>) -> Set<u32> {
    Set::new(|x: u32| x / 0x1_0000 == key && vals.contains((x % 0x1_0000) as u32))
}

/// The `j`-th value of an array container at `p`.
pub open spec fn array_value(b: Seq<u8>, p: int, j: int) -> int {
    le16(b, p + 2 * j)
}

/// An array container of `card` values at `p` fits and is strictly increasing.
pub open spec fn array_ok(b: Seq<u8>, p: int, card: int) -> bool {
    &&& p + 2 * card <= b.len()
    &&& forall|j: int| 0 <= j < card - 1 ==> #[trigger] array_value(b, p, j) < array_value(b, p, j + 1)
}

/// The values of an array container at `p`.
pub open spec fn array_vals(b: Seq<u8>, p: int, card: int) -> Set<u32> {
    Set::new(|v: u32| exists|j: int| 0 <= j < card && #[trigger] array_value(b, p, j) == v)
}

/// Number of runs of a run container at `p`.
pub open spec fn run_count(b: Seq<u8>, p: int) -> int {
    le16(b, p)
}

/// First value of run `j` of the run container at `p`.
pub open spec fn run_start(b: Seq<u8>, p: int, j: int) -> int {
    le16(b, p + 2 + 4 * j)
}

/// Number of values after the first in run `j` of the run container at `p`.
pub open spec fn run_extra(b: Seq<u8>, p: int, j: int) -> int {
    le16(b, p + 4 + 4 * j)
}

/// A run container at `p` fits, has at least one run, and its runs stay below
/// `2^16` and come in increasing order without overlapping.
pub open spec fn run_ok(b: Seq<u8>, p: int) -> bool {
    &&& p + 2 <= b.len()
    &&& run_count(b, p) >= 1
    &&& p + 2 + 4 * run_count(b, p) <= b.len()
    &&& forall|j: int| 0 <= j < run_count(b, p) ==> #[trigger] run_start(b, p, j) + run_extra(b, p, j) <= 0xFFFF
    &&& forall|j: int| 0 < j < run_count(b, p) ==> #[trigger] run_start(b, p, j) > run_start(b, p, j - 1) + run_extra(b, p, j - 1)
}

/// The values of a run container at `p`.
pub open spec fn run_vals(b: Seq<u8>, p: int) -> Set<u32> {
    Set::new(|v: u32| exists|j: int| 0 <= j < run_count(b, p) && #[trigger] run_start(b, p, j) <= v && v <= run_start(b, p, j) + run_extra(b, p, j))
}

/// Whether value `v` is set in the bitset container at `p`.
pub open spec fn bitset_bit(b: Seq<u8>, p: int, v: int) -> bool {
    bit_of(b[p + v / 8], v % 8)
}

/// The values of a bitset container at `p`.
pub open spec fn bitset_vals(b: Seq<u8>, p: int) -> Set<u32> {
    Set::new(|v: u32| v < 0x1_0000 && bitset_bit(b, p, v as int))
}

/// A bitset container at `p` fits and holds `card` values.
pub open spec fn bitset_ok(b: Seq<u8>, p: int, card: int) -> bool {
    p + 8192 <= b.len() && bitset_vals(b, p).len() == card
}

/// The low values of the container at `p` and its size in bytes, or `None`
/// when it is not valid.
pub open spec fn container_at(b: Seq<u8>, p: int, is_run: bool, card: int) -> Option<(Set<u32>, int)> {
    if is_run {
        if run_ok(b, p) {
            Some((run_vals(b, p), 2 + 4 * run_count(b, p)))
        } else {
            None
        }
    } else if card <= DEFAULT_MAX_SIZE {
        if array_ok(b, p, card) {
            Some((array_vals(b, p, card), 2 * card))
        } else {
            None
        }
    } else {
        if bitset_ok(b, p, card) {
            Some((bitset_vals(b, p), 8192))
        } else {
            None
        }
    }
}

/// The values of containers `k..n` whose data starts at `pos`, and the end of
/// their data, when the keys keep increasing from `prev_key` on and every
/// container is valid.
pub open spec fn decode_from(b: Seq<u8>, n: int, has_runs: bool, desc: int, k: int, pos: int, prev_key: int) -> Option<(Set<u32>, int)>
    decreases n - k,
{
    if k >= n {
        Some((Set::empty(), pos))
    } else {
        let key = le16(b, desc + 4 * k);
        let card = le16(b, desc + 4 * k + 2) + 1;
        let is_run = has_runs && run_flag(b, k);
        if key <= prev_key {
            None
        } else {
            match container_at(b, pos, is_run, card) {
                None => None,
                Some((vals, size)) => match decode_from(b, n, has_runs, desc, k + 1, pos + size, key) {
                    None => None,
                    Some((rest, end)) => Some((lift(key, vals).union(rest), end)),
                },
            }
        }
    }
}

/// The set that a portable serialization at the start of `b` holds, and the
/// number of bytes it takes, or `None` when `b` does not start with a valid one.
pub open spec fn portable_decode(b: Seq<u8>) -> Option<(Set<u32>, int)> {
    match portable_header(b) {
        None => None,
        Some((n, has_runs, desc, data)) => decode_from(b, n, has_runs, desc, 0, data, -1),
    }
}

/// Adds a set of values to a pending decoding result.
pub open spec fn with_prefix(s: Set<u32>, r: Option<(Set<u32>, int)>) -> Option<(Set<u32>, int)> {
    match r {
        None => None,
        Some((rest, end)) => Some((s.union(rest), end)),
    }
}

/// Lifting a range of low values gives a range of values.
pub(crate) proof fn lemma_lift_interval(key: int, lo: int, hi: int)
    requires
        0 <= key < 0x1_0000,
        0 <= lo,
        hi <= 0xFFFF,
    ensures
        lift(key, interval(lo, hi)) == interval(key * 0x1_0000 + lo, key * 0x1_0000 + hi),
{
    assert forall|x: u32| #[trigger] lift(key, interval(lo, hi)).contains(x) == interval(
        key * 0x1_0000 + lo,
        key * 0x1_0000 + hi,
    ).contains(x) by {
        let q = x / 0x1_0000;
        let r = x % 0x1_0000;
        assert(x == q * 0x1_0000 + r && 0 <= r < 0x1_0000) by (nonlinear_arith)
            requires
                q == x / 0x1_0000,
                r == x % 0x1_0000,
        ;
        assert((q == key && lo <= r <= hi) == (key * 0x1_0000 + lo <= x <= key * 0x1_0000 + hi))
            by (nonlinear_arith)
            requires
                x == q * 0x1_0000 + r,
                0 <= r < 0x1_0000,
                0 <= lo,
                hi <= 0xFFFF,
        ;
    }
    assert(lift(key, interval(lo, hi)) =~= interval(key * 0x1_0000 + lo, key * 0x1_0000 + hi));
}

/// The state of a container being read: the values read so far are added to
/// `before`, and every value lies below `bound`.
pub open spec fn reading(out: Seq<(u32, u32)>, before: Set<u32>, key: int, vals: Set<u32>, bound: int) -> bool {
    &&& runs_wf(out)
    &&& runs_set(out) == before.union(lift(key, vals))
    &&& forall|x: u32| #[trigger] runs_set(out).contains(x) ==> x < bound
    &&& out.len() > 0 ==> out.last().1 < bound
}

/// What a container reader promises: on a valid container, its values are
/// added and its size is returned; on an invalid one, `None`.
pub open spec fn read_result(r: Option<usize>, spec: Option<(Set<u32>, int)>, out: Seq<(u32, u32)>, before: Set<u32>, key: int) -> bool {
    match spec {
        None => r is None,
        Some((vals, size)) => r == Some(size as usize) && reading(out, before, key, vals, (key + 1) * 0x1_0000),
    }
}

/// The first `j` values of the array container at `p`.
pub open spec fn array_prefix(b: Seq<u8>, p: int, j: int) -> Set<u32> {
    Set::new(|v: u32| exists|t: int| 0 <= t < j && #[trigger] array_value(b, p, t) == v)
}

proof fn lemma_array_prefix_step(b: Seq<u8>, p: int, j: int)
    requires
        0 <= j,
        0 <= array_value(b, p, j) < 0x1_0000,
    ensures
        array_prefix(b, p, j + 1) == array_prefix(b, p, j).insert(array_value(b, p, j) as u32),
{
    let v = array_value(b, p, j) as u32;
    assert forall|w: u32| array_prefix(b, p, j + 1).contains(w) implies array_prefix(b, p, j).insert(v).contains(w) by {
        let t = choose|t: int| 0 <= t < j + 1 && #[trigger] array_value(b, p, t) == w;
        if t < j {
            assert(array_prefix(b, p, j).contains(w));
        }
    }
    assert forall|w: u32| array_prefix(b, p, j).insert(v).contains(w) implies array_prefix(b, p, j + 1).contains(w) by {
        if array_prefix(b, p, j).contains(w) {
            let t = choose|t: int| 0 <= t < j && #[trigger] array_value(b, p, t) == w;
            assert(0 <= t < j + 1 && array_value(b, p, t) == w);
        } else {
            assert(array_value(b, p, j) == w);
        }
    }
    assert(array_prefix(b, p, j + 1) =~= array_prefix(b, p, j).insert(v));
}

/// Adding the low value `v` under `key` extends the reading state.
proof fn lemma_reading_push(out0: Seq<(u32, u32)>, out1: Seq<(u32, u32)>, before: Set<u32>, key: int, vals: Set<u32>, lo: int, hi: int)
    requires
        0 <= key < 0x1_0000,
        0 <= lo <= hi <= 0xFFFF,
        runs_wf(out1),
        runs_set(out0) == before.union(lift(key, vals)),
        runs_set(out1) == runs_set(out0).union(interval(key * 0x1_0000 + lo, key * 0x1_0000 + hi)),
    ensures
        runs_set(out1) == before.union(lift(key, vals.union(interval(lo, hi)))),
{
    lemma_lift_interval(key, lo, hi);
    assert(lift(key, vals.union(interval(lo, hi))) =~= lift(key, vals).union(lift(key, interval(lo, hi))));
    assert(runs_set(out1) =~= before.union(lift(key, vals.union(interval(lo, hi)))));
}

/// Reads the array container of `card` values at `p` under `key`.
#[verifier::spinoff_prover]
fn read_array(buf: &[u8], p: usize, card: usize, key: u32, out: &mut Vec<(u32, u32)>) -> (r: Option<usize>)
    requires
        key < 0x1_0000,
        1 <= card <= DEFAULT_MAX_SIZE,
        p <= buf@.len(),
        reading(old(out)@, runs_set(old(out)@), key as int, Set::empty(), key * 0x1_0000),
    ensures
        read_result(r, container_at(buf@, p as int, false, card as int), final(out)@, runs_set(old(out)@), key as int),
{
    let ghost before = runs_set(out@);
    let ghost b = buf@;
    if buf.len() - p < 2 * card {
        return None;
    }
    let base: u32 = key * 0x1_0000;
    let mut j: usize = 0;
    let mut prev: u16 = 0;
    let ghost mut vals: Set<u32> = Set::empty();
    let ghost mut bound: int = base as int;
    proof {
        assert(array_prefix(b, p as int, 0) =~= Set::<u32>::empty());
        assert(lift(key as int, Set::empty()) =~= Set::<u32>::empty());
        assert(before.union(Set::<u32>::empty()) =~= before);
    }
    while j < card
        invariant
            key < 0x1_0000,
            base == key * 0x1_0000,
            card <= DEFAULT_MAX_SIZE,
            p + 2 * card <= b.len(),
            b == buf@,
            j <= card,
            vals == array_prefix(b, p as int, j as int),
            j > 0 ==> prev == array_value(b, p as int, j - 1) && bound == base + prev + 1,
            j == 0 ==> bound == base,
            forall|t: int| 0 <= t < j - 1 ==> #[trigger] array_value(b, p as int, t) < array_value(b, p as int, t + 1),
            runs_wf(out@),
            runs_set(out@) == before.union(lift(key as int, vals)),
            forall|x: u32| #[trigger] runs_set(out@).contains(x) ==> x < bound,
            out@.len() > 0 ==> out@.last().1 < bound,
        decreases card - j,
    {
        assert(b.len() == buf.len());
        let v = read_u16_le(buf, p + 2 * j);
        if j > 0 && v <= prev {
            proof {
                assert(!(array_value(b, p as int, j - 1) < array_value(b, p as int, (j - 1) + 1)));
            }
            return None;
        }
        let ghost out0 = out@;
        push_value_range(out, base + v as u32, base + v as u32);
        proof {
            lemma_reading_push(out0, out@, before, key as int, vals, v as int, v as int);
            lemma_array_prefix_step(b, p as int, j as int);
            assert(vals.union(interval(v as int, v as int)) =~= vals.insert(v as u32));
            vals = vals.insert(v as u32);
            bound = base + v + 1;
        }
        prev = v;
        j = j + 1;
    }
    proof {
        assert(vals =~= array_vals(b, p as int, card as int));
        assert(array_ok(b, p as int, card as int));
        assert((key + 1) * 0x1_0000 == base + 0x1_0000) by (nonlinear_arith)
            requires
                base == key * 0x1_0000,
        ;
    }
    Some(2 * card)
}

/// The values of the first `j` runs of the run container at `p`.
pub open spec fn run_prefix(b: Seq<u8>, p: int, j: int) -> Set<u32> {
    Set::new(|v: u32| exists|t: int| 0 <= t < j && #[trigger] run_start(b, p, t) <= v && v <= run_start(b, p, t) + run_extra(b, p, t))
}

proof fn lemma_run_prefix_step(b: Seq<u8>, p: int, j: int)
    requires
        0 <= j,
    ensures
        run_prefix(b, p, j + 1) == run_prefix(b, p, j).union(interval(run_start(b, p, j), run_start(b, p, j) + run_extra(b, p, j))),
{
    let iv = interval(run_start(b, p, j), run_start(b, p, j) + run_extra(b, p, j));
    assert forall|w: u32| run_prefix(b, p, j + 1).contains(w) implies run_prefix(b, p, j).union(iv).contains(w) by {
        let t = choose|t: int| 0 <= t < j + 1 && #[trigger] run_start(b, p, t) <= w && w <= run_start(b, p, t) + run_extra(b, p, t);
        if t < j {
            assert(run_prefix(b, p, j).contains(w));
        }
    }
    assert forall|w: u32| run_prefix(b, p, j).union(iv).contains(w) implies run_prefix(b, p, j + 1).contains(w) by {
        if run_prefix(b, p, j).contains(w) {
            let t = choose|t: int| 0 <= t < j && #[trigger] run_start(b, p, t) <= w && w <= run_start(b, p, t) + run_extra(b, p, t);
            assert(0 <= t < j + 1);
        } else {
            assert(run_start(b, p, j) <= w && w <= run_start(b, p, j) + run_extra(b, p, j));
        }
    }
    assert(run_prefix(b, p, j + 1) =~= run_prefix(b, p, j).union(iv));
}

/// The first `j` runs of the run container at `p` are valid.
pub open spec fn runs_ok_upto(b: Seq<u8>, p: int, j: int) -> bool {
    &&& forall|t: int| 0 <= t < j ==> #[trigger] run_start(b, p, t) + run_extra(b, p, t) <= 0xFFFF
    &&& forall|t: int| 0 < t < j ==> #[trigger] run_start(b, p, t) > run_start(b, p, t - 1) + run_extra(b, p, t - 1)
}

proof fn lemma_runs_ok_step(b: Seq<u8>, p: int, j: int)
    requires
        0 <= j,
        runs_ok_upto(b, p, j),
        run_start(b, p, j) + run_extra(b, p, j) <= 0xFFFF,
        j > 0 ==> run_start(b, p, j) > run_start(b, p, j - 1) + run_extra(b, p, j - 1),
    ensures
        runs_ok_upto(b, p, j + 1),
{
}

proof fn lemma_run_bad(b: Seq<u8>, p: int, j: int)
    requires
        0 <= j < run_count(b, p),
        run_start(b, p, j) + run_extra(b, p, j) > 0xFFFF || (j > 0 && run_start(b, p, j) <= run_start(b, p, j - 1) + run_extra(b, p, j - 1)),
    ensures
        !run_ok(b, p),
{
}

proof fn lemma_runs_ok_all(b: Seq<u8>, p: int)
    requires
        p + 2 <= b.len(),
        run_count(b, p) >= 1,
        p + 2 + 4 * run_count(b, p) <= b.len(),
        runs_ok_upto(b, p, run_count(b, p)),
    ensures
        run_ok(b, p),
{
}

/// Reads the run container at `p` under `key`.
#[verifier::spinoff_prover]
#[verifier::rlimit(40)]
fn read_run(buf: &[u8], p: usize, key: u32, out: &mut Vec<(u32, u32)>) -> (r: Option<usize>)
    requires
        key < 0x1_0000,
        p <= buf@.len(),
        reading(old(out)@, runs_set(old(out)@), key as int, Set::empty(), key * 0x1_0000),
    ensures
        read_result(r, container_at(buf@, p as int, true, 0), final(out)@, runs_set(old(out)@), key as int),
{
    let ghost before = runs_set(out@);
    let ghost b = buf@;
    if buf.len() - p < 2 {
        assert(!run_ok(b, p as int));
        return None;
    }
    let nr = read_u16_le(buf, p) as usize;
    if nr == 0 {
        assert(!run_ok(b, p as int));
        return None;
    }
    if buf.len() - p - 2 < 4 * nr {
        assert(!run_ok(b, p as int));
        return None;
    }
    let base: u32 = key * 0x1_0000;
    let mut j: usize = 0;
    let mut prev_end: u32 = 0;
    let ghost mut vals: Set<u32> = Set::empty();
    let ghost mut bound: int = base as int;
    proof {
        assert(run_prefix(b, p as int, 0) =~= Set::<u32>::empty());
        assert(lift(key as int, Set::empty()) =~= Set::<u32>::empty());
        assert(before.union(Set::<u32>::empty()) =~= before);
    }
    while j < nr
        invariant
            key < 0x1_0000,
            base == key * 0x1_0000,
            nr == run_count(b, p as int),
            p + 2 + 4 * nr <= b.len(),
            b == buf@,
            j <= nr,
            vals == run_prefix(b, p as int, j as int),
            j > 0 ==> prev_end == run_start(b, p as int, j - 1) + run_extra(b, p as int, j - 1) && bound == base + prev_end + 1,
            j == 0 ==> bound == base,
            prev_end <= 0xFFFF,
            runs_ok_upto(b, p as int, j as int),
            runs_wf(out@),
            runs_set(out@) == before.union(lift(key as int, vals)),
            forall|x: u32| #[trigger] runs_set(out@).contains(x) ==> x < bound,
            out@.len() > 0 ==> out@.last().1 < bound,
        decreases nr - j,
    {
        assert(b.len() == buf.len());
        let start = read_u16_le(buf, p + 2 + 4 * j) as u32;
        let extra = read_u16_le(buf, p + 4 + 4 * j) as u32;
        assert(run_start(b, p as int, j as int) == start && run_extra(b, p as int, j as int) == extra);
        if start + extra > 0xFFFF {
            proof {
                lemma_run_bad(b, p as int, j as int);
            }
            return None;
        }
        if j > 0 && start <= prev_end {
            proof {
                lemma_run_bad(b, p as int, j as int);
            }
            return None;
        }
        proof {
            lemma_runs_ok_step(b, p as int, j as int);
        }
        let ghost out0 = out@;
        push_value_range(out, base + start, base + start + extra);
        proof {
            lemma_reading_push(out0, out@, before, key as int, vals, start as int, (start + extra) as int);
            lemma_run_prefix_step(b, p as int, j as int);
            vals = vals.union(interval(start as int, (start + extra) as int));
            bound = base + start + extra + 1;
        }
        prev_end = start + extra;
        j = j + 1;
    }
    proof {
        assert(vals =~= run_vals(b, p as int));
        lemma_runs_ok_all(b, p as int);
        assert(run_ok(b, p as int));
        assert((key + 1) * 0x1_0000 == base + 0x1_0000) by (nonlinear_arith)
            requires
                base == key * 0x1_0000,
        ;
    }
    Some(2 + 4 * nr)
}

/// The set values `w < v` of the bitset container at `p`.
pub open spec fn bitset_prefix(b: Seq<u8>, p: int, v: int) -> Set<u32> {
    Set::new(|w: u32| w < v && bitset_bit(b, p, w as int))
}

/// Reads the bitset container at `p` under `key`, which must hold `card` values.
#[verifier::spinoff_prover]
fn read_bitset(buf: &[u8], p: usize, card: usize, key: u32, out: &mut Vec<(u32, u32)>) -> (r: Option<usize>)
    requires
        key < 0x1_0000,
        card > DEFAULT_MAX_SIZE,
        p <= buf@.len(),
        reading(old(out)@, runs_set(old(out)@), key as int, Set::empty(), key * 0x1_0000),
    ensures
        read_result(r, container_at(buf@, p as int, false, card as int), final(out)@, runs_set(old(out)@), key as int),
{
    let ghost before = runs_set(out@);
    let ghost b = buf@;
    if buf.len() - p < 8192 {
        return None;
    }
    let base: u32 = key * 0x1_0000;
    let mut v: u32 = 0;
    let mut count: usize = 0;
    let ghost mut vals: Set<u32> = Set::empty();
    let ghost mut bound: int = base as int;
    proof {
        assert(bitset_prefix(b, p as int, 0) =~= Set::<u32>::empty());
        assert(lift(key as int, Set::empty()) =~= Set::<u32>::empty());
        assert(before.union(Set::<u32>::empty()) =~= before);
    }
    while v < 0x1_0000
        invariant
            key < 0x1_0000,
            base == key * 0x1_0000,
            p + 8192 <= b.len(),
            b == buf@,
            v <= 0x1_0000,
            vals == bitset_prefix(b, p as int, v as int),
            vals.finite(),
            count == vals.len(),
            count <= v,
            base <= bound <= base + v,
            runs_wf(out@),
            runs_set(out@) == before.union(lift(key as int, vals)),
            forall|x: u32| #[trigger] runs_set(out@).contains(x) ==> x < bound,
            out@.len() > 0 ==> out@.last().1 < bound,
        decreases 0x1_0000 - v,
    {
        assert(b.len() == buf.len());
        let byte = buf[p + (v / 8) as usize];
        let ghost vals0 = vals;
        if (byte >> ((v % 8) as u8)) & 1u8 == 1u8 {
            let ghost out0 = out@;
            push_value_range(out, base + v, base + v);
            proof {
                lemma_reading_push(out0, out@, before, key as int, vals, v as int, v as int);
                assert(vals.union(interval(v as int, v as int)) =~= vals.insert(v));
                assert(!vals.contains(v));
                vals = vals.insert(v);
                bound = base + v + 1;
            }
            count = count + 1;
        }
        proof {
            assert(bitset_prefix(b, p as int, v + 1) =~= vals);
        }
        v = v + 1;
    }
    proof {
        assert(vals =~= bitset_vals(b, p as int));
        assert((key + 1) * 0x1_0000 == base + 0x1_0000) by (nonlinear_arith)
            requires
                base == key * 0x1_0000,
        ;
    }
    if count != card {
        return None;
    }
    Some(8192)
}

/// Appends `[lo, hi]` to a well-formed run list whose values are all below `lo`.
fn push_value_range(out: &mut Vec<(u32, u32)>, lo: u32, hi: u32)
    requires
        runs_wf(old(out)@),
        lo <= hi,
        forall|x: u32| #[trigger] runs_set(old(out)@).contains(x) ==> x < lo,
        old(out)@.len() > 0 ==> old(out)@.last().1 < lo,
    ensures
        runs_wf(final(out)@),
        runs_set(final(out)@) == runs_set(old(out)@).union(interval(lo as int, hi as int)),
        forall|x: u32| #[trigger] runs_set(final(out)@).contains(x) ==> x <= hi,
        final(out)@.len() > 0 && final(out)@.last().1 == hi,
{
    crate::bitmap::push_segment(out, lo, hi);
    proof {
        assert forall|x: u32| #[trigger] runs_set(out@).contains(x) implies x <= hi by {
            if runs_set(old(out)@).contains(x) {
            } else {
                assert(interval(lo as int, hi as int).contains(x));
            }
        }
    }
}

/// Reads the header of a portable serialization.
fn read_header(buf: &[u8]) -> (r: Option<(usize, bool, usize, usize)>)
    ensures
        match portable_header(buf@) {
            None => r is None,
            Some((n, has_runs, desc, data)) => r == Some((n as usize, has_runs, desc as usize, data as usize)),
        },
        r matches Some((n, has_runs, desc, data)) ==> n <= 0x1_0000 && desc + 4 * n <= data <= buf@.len()
            && (has_runs ==> 4 + (n + 7) / 8 <= desc),
{
    let len = buf.len();
    if len < 4 {
        return None;
    }
    let cookie = read_u32_le(buf, 0);
    if cookie == SERIAL_COOKIE_NO_RUNCONTAINER {
        if len < 8 {
            return None;
        }
        let size = read_u32_le(buf, 4);
        if size > 0x1_0000 {
            return None;
        }
        let size = size as usize;
        if len - 8 < 8 * size {
            return None;
        }
        Some((size, false, 8, 8 + 8 * size))
    } else if read_u16_le(buf, 0) == SERIAL_COOKIE {
        let n = read_u16_le(buf, 2) as usize + 1;
        let desc = 4 + (n + 7) / 8;
        let offsets = if n >= NO_OFFSET_THRESHOLD { 4 * n } else { 0 };
        let end = desc + 4 * n + offsets;
        if end > len {
            return None;
        }
        Some((n, true, desc, end))
    } else {
        None
    }
}

/// Reads a bitmap in the portable format from the start of `buf`, and returns it
/// with the number of bytes it takes; `None` when `buf` does not start with a
/// valid serialization.
#[verifier::spinoff_prover]
pub fn portable_deserialize(buf: &[u8]) -> (r: Option<(Bitmap, usize)>)
    ensures
        match portable_decode(buf@) {
            None => r is None,
            Some((s, n)) => r matches Some((bm, m)) && bm@ == s && m == n,
        },
        r matches Some((_, m)) ==> m <= buf@.len(),
{
    let ghost b = buf@;
    let len = buf.len();
    let (n, has_runs, desc, data) = match read_header(buf) {
        None => return None,
        Some(h) => h,
    };
    assert(portable_header(b) == Some((n as int, has_runs, desc as int, data as int)));
    let mut out: Vec<(u32, u32)> = Vec::new();
    let mut pos: usize = data;
    let mut prev_key: i64 = -1;
    let mut k: usize = 0;
    proof {
        assert(runs_set(out@) =~= Set::<u32>::empty());
        assert(with_prefix(Set::<u32>::empty(), decode_from(b, n as int, has_runs, desc as int, 0, data as int, -1))
            =~= decode_from(b, n as int, has_runs, desc as int, 0, data as int, -1)) by {
            match decode_from(b, n as int, has_runs, desc as int, 0, data as int, -1) {
                Some((rest, end)) => {
                    assert(Set::<u32>::empty().union(rest) =~= rest);
                },
                None => {},
            }
        }
    }
    while k < n
        invariant
            b == buf@,
            len == b.len(),
            n <= 0x1_0000,
            desc + 4 * n <= data <= len,
            has_runs ==> 4 + (n + 7) / 8 <= desc,
            k <= n,
            data <= pos <= len,
            -1 <= prev_key < 0x1_0000,
            portable_decode(b) == with_prefix(runs_set(out@), decode_from(b, n as int, has_runs, desc as int, k as int, pos as int, prev_key as int)),
            runs_wf(out@),
            forall|x: u32| #[trigger] runs_set(out@).contains(x) ==> x < (prev_key + 1) * 0x1_0000,
            out@.len() > 0 ==> out@.last().1 < (prev_key + 1) * 0x1_0000,
        decreases n - k,
    {
        assert(desc + 4 * k + 4 <= desc + 4 * n);
        assert(desc + 4 * k + 4 <= len);
        let at: usize = desc + 4 * k;
        let key = read_u16_le(buf, at) as u32;
        let card = read_u16_le(buf, at + 2) as usize + 1;
        let is_run = has_runs && ((buf[4 + k / 8] >> ((k % 8) as u8)) & 1u8) == 1u8;
        assert(is_run == (has_runs && run_flag(b, k as int)));
        if (key as i64) <= prev_key {
            return None;
        }
        let ghost before = runs_set(out@);
        proof {
            assert(lift(key as int, Set::empty()) =~= Set::<u32>::empty());
            assert(before.union(Set::<u32>::empty()) =~= before);
            assert((prev_key + 1) * 0x1_0000 <= key * 0x1_0000) by (nonlinear_arith)
                requires
                    prev_key + 1 <= key,
            ;
        }
        let res = if is_run {
            read_run(buf, pos, key, &mut out)
        } else if card <= DEFAULT_MAX_SIZE {
            read_array(buf, pos, card, key, &mut out)
        } else {
            read_bitset(buf, pos, card, key, &mut out)
        };
        let ghost spec_c = container_at(b, pos as int, is_run, card as int);
        assert(is_run ==> spec_c == container_at(b, pos as int, true, 0));
        match res {
            None => {
                return None;
            },
            Some(size) => {
                proof {
                    let (vals, sz) = spec_c.unwrap();
                    let rest = decode_from(b, n as int, has_runs, desc as int, k + 1, pos + size, key as int);
                    match rest {
                        Some((r2, e2)) => {
                            assert(before.union(lift(key as int, vals).union(r2)) =~= runs_set(out@).union(r2));
                        },
                        None => {},
                    }
                }
                pos = pos + size;
            },
        }
        prev_key = key as i64;
        k = k + 1;
    }
    proof {
        assert(runs_set(out@).union(Set::<u32>::empty()) =~= runs_set(out@));
    }
    Some((Bitmap::from_runs(out), pos))
}

/// A valid container at `p` lies within `b`, and reads the same in any
/// longer sequence that starts with `b`.
proof fn lemma_container_extends(b: Seq<u8>, b2: Seq<u8>, p: int, is_run: bool, card: int)
    requires
        extends(b, b2),
        0 <= p,
        container_at(b, p, is_run, card) is Some,
    ensures
        container_at(b2, p, is_run, card) == container_at(b, p, is_run, card),
        p + (container_at(b, p, is_run, card)->0).1 <= b.len(),
{
    if is_run {
        lemma_extends_reads(b, b2, p);
        let c = run_count(b, p);
        assert forall|j: int|
            #![trigger run_start(b, p, j)]
            #![trigger run_start(b2, p, j)]
            0 <= j < c implies run_start(b2, p, j) == run_start(b, p, j) && run_extra(b2, p, j) == run_extra(b, p, j) by {
            lemma_extends_reads(b, b2, p + 2 + 4 * j);
            lemma_extends_reads(b, b2, p + 4 + 4 * j);
        }
        assert(run_ok(b2, p));
        assert(run_vals(b2, p) =~= run_vals(b, p));
    } else if card <= DEFAULT_MAX_SIZE {
        assert forall|j: int|
            #![trigger array_value(b, p, j)]
            #![trigger array_value(b2, p, j)]
            0 <= j < card implies array_value(b2, p, j) == array_value(b, p, j) by {
            lemma_extends_reads(b, b2, p + 2 * j);
        }
        assert(array_ok(b2, p, card));
        assert(array_vals(b2, p, card) =~= array_vals(b, p, card));
    } else {
        assert forall|v: u32| v < 0x1_0000 implies bitset_bit(b2, p, v as int) == bitset_bit(b, p, v as int) by {
            assert(b2[p + v / 8] == b[p + v / 8]);
        }
        assert(bitset_vals(b2, p) =~= bitset_vals(b, p));
    }
}

/// Decoding containers `k..n` succeeds on any longer sequence that starts
/// with `b`, with the same result, and ends within `b`.
proof fn lemma_decode_from_extends(b: Seq<u8>, b2: Seq<u8>, n: int, has_runs: bool, desc: int, k: int, pos: int, prev_key: int)
    requires
        extends(b, b2),
        decode_from(b, n, has_runs, desc, k, pos, prev_key) is Some,
        0 <= k,
        0 <= desc,
        desc + 4 * n <= b.len(),
        0 <= pos <= b.len(),
        has_runs ==> forall|j: int| 0 <= j < n ==> #[trigger] run_flag(b2, j) == run_flag(b, j),
    ensures
        decode_from(b2, n, has_runs, desc, k, pos, prev_key) == decode_from(b, n, has_runs, desc, k, pos, prev_key),
        (decode_from(b, n, has_runs, desc, k, pos, prev_key)->0).1 <= b.len(),
    decreases n - k,
{
    if k < n {
        lemma_extends_reads(b, b2, desc + 4 * k);
        lemma_extends_reads(b, b2, desc + 4 * k + 2);
        let key = le16(b, desc + 4 * k);
        let card = le16(b, desc + 4 * k + 2) + 1;
        let is_run = has_runs && run_flag(b, k);
        lemma_container_extends(b, b2, pos, is_run, card);
        let size = (container_at(b, pos, is_run, card)->0).1;
        lemma_decode_from_extends(b, b2, n, has_runs, desc, k + 1, pos + size, key);
    }
}

/// A valid portable serialization at the start of `b` lies within `b`, and
/// reads the same at the start of any longer sequence that starts with `b`.
pub proof fn lemma_portable_decode_extends(b: Seq<u8>, b2: Seq<u8>)
    requires
        extends(b, b2),
        portable_decode(b) is Some,
    ensures
        portable_decode(b2) == portable_decode(b),
        (portable_decode(b)->0).1 <= b.len(),
{
    lemma_extends_reads(b, b2, 0);
    lemma_extends_reads(b, b2, 2);
    lemma_extends_reads(b, b2, 4);
    let (n, has_runs, desc, data) = portable_header(b)->0;
    assert(portable_header(b2) == portable_header(b));
    if has_runs {
        assert forall|j: int| 0 <= j < n implies #[trigger] run_flag(b2, j) == run_flag(b, j) by {
            assert(j / 8 < (n + 7) / 8) by (nonlinear_arith)
                requires
                    0 <= j < n,
            ;
            assert(b2[4 + j / 8] == b[4 + j / 8]);
        }
    }
    lemma_decode_from_extends(b, b2, n, has_runs, desc, 0, data, -1);
}

} // verus!
