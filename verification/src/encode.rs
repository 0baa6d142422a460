//! Writing the portable serialization format: splitting a bitmap into
//! containers, the bytes of each part, and the proof that what is written
//! reads back as the bitmap.
use crate::bytes::{le16, le16_bytes, le32, le32_bytes, u16_le_bytes, u32_le_bytes};
use crate::containers::{array_bytes, bitset_bytes, byte_from, run_values};
use crate::portable::{
    bit_of, container_at, decode_from, lift, portable_decode, portable_header, run_count,
    run_extra, run_flag, run_ok, run_start, run_vals, DEFAULT_MAX_SIZE, NO_OFFSET_THRESHOLD,
    SERIAL_COOKIE, SERIAL_COOKIE_NO_RUNCONTAINER,
};
use crate::runs::{in_runs, interval, runs_card, runs_set, runs_wf};
use vstd::prelude::*;

verus! {

/// `b` holds the bytes `x` from position `p` on.
pub open spec fn at(b: Seq<u8>, p: int, x: Seq<u8>) -> bool {
    &&& 0 <= p
    &&& p + x.len() <= b.len()
    &&& forall|i: int| 0 <= i < x.len() ==> #[trigger] b[p + i] == x[i]
}

pub(crate) proof fn lemma_at_concat(b: Seq<u8>, p: int, x: Seq<u8>, y: Seq<u8>)
    requires
        at(b, p, x + y),
    ensures
        at(b, p, x),
        at(b, p + x.len(), y),
{
    assert forall|i: int| 0 <= i < x.len() implies #[trigger] b[p + i] == x[i] by {
        assert(b[p + i] == (x + y)[i]);
    }
    assert forall|i: int| 0 <= i < y.len() implies #[trigger] b[p + x.len() + i] == y[i] by {
        assert(b[p + (x.len() + i)] == (x + y)[x.len() + i]);
    }
}

proof fn lemma_at_le16(b: Seq<u8>, p: int, v: int)
    requires
        0 <= v < 0x1_0000,
        at(b, p, le16_bytes(v)),
    ensures
        le16(b, p) == v,
{
    assert(b[p + 0] == le16_bytes(v)[0]);
    assert(b[p + 1] == le16_bytes(v)[1]);
}

pub(crate) proof fn lemma_at_le32(b: Seq<u8>, p: int, v: int)
    requires
        0 <= v < 0x1_0000_0000,
        at(b, p, le32_bytes(v)),
    ensures
        le32(b, p) == v,
{
    lemma_at_concat(b, p, le16_bytes(v % 0x1_0000), le16_bytes(v / 0x1_0000 % 0x1_0000));
    lemma_at_le16(b, p, v % 0x1_0000);
    lemma_at_le16(b, p + 2, v / 0x1_0000 % 0x1_0000);
}

/// The containers of a bitmap: each a key (the high 16 bits of its values) and
/// its runs of low 16-bit values.
pub type Conts = Seq<(u32, Seq<(u32, u32)>)>;

/// The runs of one container: at least one, within `[0, 2^16)`, increasing and
/// not overlapping.
pub open spec fn local_ok(lr: Seq<(u32, u32)>) -> bool {
    &&& lr.len() >= 1
    &&& forall|j: int| 0 <= j < lr.len() ==> #[trigger] lr[j].0 <= lr[j].1 && lr[j].1 <= 0xFFFF
    &&& forall|j: int| 0 < j < lr.len() ==> #[trigger] lr[j].0 > lr[j - 1].1
}

/// Well-formed containers: valid runs, keys below `2^16` and increasing.
pub open spec fn conts_ok(c: Conts) -> bool {
    &&& forall|k: int| 0 <= k < c.len() ==> #[trigger] c[k].0 < 0x1_0000 && local_ok(c[k].1)
    &&& forall|k: int| 0 < k < c.len() ==> #[trigger] c[k - 1].0 < c[k].0
}

/// The values of containers `k..`.
pub open spec fn conts_set_from(c: Conts, k: int) -> Set<u32> {
    Set::new(|x: u32| exists|j: int| k <= j < c.len() && #[trigger] lift(c[j].0 as int, runs_set(c[j].1)).contains(x))
}

/// The bytes of the runs of a run container.
pub open spec fn runs_bytes(lr: Seq<(u32, u32)>) -> Seq<u8>
    decreases lr.len(),
{
    if lr.len() == 0 {
        seq![]
    } else {
        runs_bytes(lr.drop_last()) + le16_bytes(lr.last().0 as int) + le16_bytes(lr.last().1 - lr.last().0)
    }
}

/// The bytes of a run container.
pub open spec fn cont_bytes(lr: Seq<(u32, u32)>) -> Seq<u8> {
    le16_bytes(lr.len() as int) + runs_bytes(lr)
}

/// The size in bytes of a run container.
pub open spec fn cont_size(lr: Seq<(u32, u32)>) -> int {
    2 + 4 * lr.len() as int
}

/// The size in bytes of a container stored as an array (up to
/// [`DEFAULT_MAX_SIZE`] values) or a bitset.
pub open spec fn plain_size(card: int) -> int {
    if card <= DEFAULT_MAX_SIZE {
        2 * card
    } else {
        8192
    }
}

/// What a container costs when it is not kept as runs, as the choice between
/// runs and the other forms counts it: an array counts two more bytes for its
/// cardinality.
pub open spec fn plain_cost(card: int) -> int {
    if card <= DEFAULT_MAX_SIZE {
        2 * card + 2
    } else {
        8192
    }
}

/// Whether a container is stored as runs: only where run compression is kept,
/// and where runs cost fewer bytes than the other form.
pub open spec fn is_run(lr: Seq<(u32, u32)>, runs_kept: bool) -> bool {
    runs_kept && cont_size(lr) < plain_cost(runs_card(lr) as int)
}

/// The bytes of a container, in the form it is stored in.
#[verifier::opaque]
pub open spec fn piece(lr: Seq<(u32, u32)>, runs_kept: bool) -> Seq<u8> {
    if is_run(lr, runs_kept) {
        cont_bytes(lr)
    } else if runs_card(lr) <= DEFAULT_MAX_SIZE {
        array_bytes(run_values(lr))
    } else {
        bitset_bytes(runs_set(lr))
    }
}

/// The size of a container, in the form it is stored in.
#[verifier::opaque]
pub open spec fn piece_size(lr: Seq<(u32, u32)>, runs_kept: bool) -> int {
    if is_run(lr, runs_kept) {
        cont_size(lr)
    } else {
        plain_size(runs_card(lr) as int)
    }
}

/// Where container `k` starts, counted from the start of the container data.
pub open spec fn data_off(c: Conts, k: int, runs_kept: bool) -> int
    decreases k,
{
    if k <= 0 {
        0
    } else {
        data_off(c, k - 1, runs_kept) + piece_size(c[k - 1].1, runs_kept)
    }
}

/// The bytes of all containers.
pub open spec fn data_bytes(c: Conts, runs_kept: bool) -> Seq<u8>
    decreases c.len(),
{
    if c.len() == 0 {
        seq![]
    } else {
        data_bytes(c.drop_last(), runs_kept) + piece(c.last().1, runs_kept)
    }
}

proof fn lemma_runs_bytes_len(lr: Seq<(u32, u32)>)
    ensures
        runs_bytes(lr).len() == 4 * lr.len(),
    decreases lr.len(),
{
    if lr.len() > 0 {
        lemma_runs_bytes_len(lr.drop_last());
    }
}

/// A container's bytes take the size of its form.
proof fn lemma_piece_len(lr: Seq<(u32, u32)>, runs_kept: bool)
    requires
        local_ok(lr),
    ensures
        piece(lr, runs_kept).len() == piece_size(lr, runs_kept),
{
    reveal(piece);
    reveal(piece_size);
    if is_run(lr, runs_kept) {
        lemma_runs_bytes_len(lr);
    } else if runs_card(lr) <= DEFAULT_MAX_SIZE {
        crate::containers::lemma_run_values(lr);
        crate::containers::lemma_array_bytes_len(run_values(lr));
    }
}

/// Where `runs_bytes(lr)` is stored, each run can be read back.
proof fn lemma_runs_bytes_read(b: Seq<u8>, p: int, lr: Seq<(u32, u32)>, j: int)
    requires
        at(b, p, runs_bytes(lr)),
        0 <= j < lr.len(),
        forall|i: int| 0 <= i < lr.len() ==> #[trigger] lr[i].0 <= lr[i].1 && lr[i].1 <= 0xFFFF,
    ensures
        le16(b, p + 4 * j) == lr[j].0,
        le16(b, p + 4 * j + 2) == lr[j].1 - lr[j].0,
    decreases lr.len(),
{
    let t = lr.drop_last();
    lemma_runs_bytes_len(t);
    let x = runs_bytes(t) + le16_bytes(lr.last().0 as int);
    assert(runs_bytes(lr) == x + le16_bytes(lr.last().1 - lr.last().0));
    lemma_at_concat(b, p, x, le16_bytes(lr.last().1 - lr.last().0));
    lemma_at_concat(b, p, runs_bytes(t), le16_bytes(lr.last().0 as int));
    if j < lr.len() - 1 {
        assert(t[j] == lr[j]);
        assert forall|i: int| 0 <= i < t.len() implies #[trigger] t[i].0 <= t[i].1 && t[i].1 <= 0xFFFF by {
            assert(t[i] == lr[i]);
        }
        lemma_runs_bytes_read(b, p, t, j);
    } else {
        lemma_at_le16(b, p + 4 * j, lr.last().0 as int);
        lemma_at_le16(b, p + 4 * j + 2, lr.last().1 - lr.last().0);
    }
}

proof fn lemma_data_bytes(c: Conts, k: int, runs_kept: bool)
    requires
        conts_ok(c),
        0 <= k < c.len(),
    ensures
        data_bytes(c, runs_kept).len() == data_off(c, c.len() as int, runs_kept),
        at(data_bytes(c, runs_kept), data_off(c, k, runs_kept), piece(c[k].1, runs_kept)),
    decreases c.len(),
{
    let t = c.drop_last();
    lemma_data_offsets_prefix(c, t, runs_kept);
    assert(c[c.len() - 1].0 < 0x1_0000 && local_ok(c[c.len() - 1].1));
    lemma_piece_len(c.last().1, runs_kept);
    assert(conts_ok(t)) by {
        assert forall|j: int| 0 <= j < t.len() implies #[trigger] t[j].0 < 0x1_0000 && local_ok(t[j].1) by {
            assert(t[j] == c[j]);
            assert(c[j].0 < 0x1_0000 && local_ok(c[j].1));
        }
        assert forall|j: int| 0 < j < t.len() implies #[trigger] t[j - 1].0 < t[j].0 by {
            assert(t[j] == c[j] && t[j - 1] == c[j - 1]);
            assert(c[j - 1].0 < c[j].0);
        }
    }
    if t.len() > 0 {
        lemma_data_bytes(t, if k < t.len() { k } else { 0 }, runs_kept);
    }
    let d = data_bytes(c, runs_kept);
    if k < t.len() {
        assert(t[k] == c[k]);
        assert forall|i: int| 0 <= i < piece(c[k].1, runs_kept).len() implies #[trigger] d[data_off(c, k, runs_kept) + i]
            == piece(c[k].1, runs_kept)[i] by {
            assert(d[data_off(c, k, runs_kept) + i] == data_bytes(t, runs_kept)[data_off(t, k, runs_kept) + i]);
        }
    } else {
        assert forall|i: int| 0 <= i < piece(c[k].1, runs_kept).len() implies #[trigger] d[data_off(c, k, runs_kept) + i]
            == piece(c[k].1, runs_kept)[i] by {
        }
    }
}

proof fn lemma_data_offsets_prefix(c: Conts, t: Conts, runs_kept: bool)
    requires
        t == c.drop_last(),
        c.len() > 0,
    ensures
        forall|k: int| 0 <= k <= t.len() ==> #[trigger] data_off(t, k, runs_kept) == data_off(c, k, runs_kept),
        data_off(c, c.len() as int, runs_kept) == data_off(c, t.len() as int, runs_kept) + piece_size(
            c.last().1,
            runs_kept,
        ),
        t.len() == 0 ==> data_bytes(t, runs_kept) == Seq::<u8>::empty(),
{
    assert forall|k: int| 0 <= k <= t.len() implies #[trigger] data_off(t, k, runs_kept) == data_off(c, k, runs_kept) by {
        lemma_data_off_agree(c, t, k, runs_kept);
    }
}

proof fn lemma_data_off_agree(c: Conts, t: Conts, k: int, runs_kept: bool)
    requires
        c.len() > 0,
        t == c.drop_last(),
        0 <= k <= t.len(),
    ensures
        data_off(t, k, runs_kept) == data_off(c, k, runs_kept),
    decreases k,
{
    if k > 0 {
        lemma_data_off_agree(c, t, k - 1, runs_kept);
        assert(t[k - 1] == c[k - 1]);
    }
}

/// The descriptive header: key and cardinality minus one of each container.
pub open spec fn desc_bytes(c: Conts) -> Seq<u8>
    decreases c.len(),
{
    if c.len() == 0 {
        seq![]
    } else {
        desc_bytes(c.drop_last()) + le16_bytes(c.last().0 as int) + le16_bytes(runs_card(c.last().1) - 1)
    }
}

/// The offset header: where each container starts, counted from `base`.
pub open spec fn offset_bytes(c: Conts, base: int, k: int, runs_kept: bool) -> Seq<u8>
    decreases k,
{
    if k <= 0 {
        seq![]
    } else {
        offset_bytes(c, base, k - 1, runs_kept) + le32_bytes(base + data_off(c, k - 1, runs_kept))
    }
}

/// Whether container `k` is stored as runs.
pub open spec fn run_bit(c: Conts, runs_kept: bool, k: int) -> bool {
    0 <= k < c.len() && is_run(c[k].1, runs_kept)
}

/// Byte `i` of the run-container flags.
pub open spec fn flag_byte(c: Conts, runs_kept: bool, i: int) -> u8 {
    byte_from(|t: int| run_bit(c, runs_kept, 8 * i + t))
}

/// The run-container flags: one bit for each container.
pub open spec fn flag_bytes(c: Conts, runs_kept: bool) -> Seq<u8> {
    Seq::new(((c.len() + 7) / 8) as nat, |i: int| flag_byte(c, runs_kept, i))
}

/// Whether any container is stored as runs.
pub open spec fn has_run(c: Conts, runs_kept: bool) -> bool {
    exists|k: int| #[trigger] run_bit(c, runs_kept, k)
}

/// Where the container data starts in the serialization of `n` containers
/// when some of them are stored as runs.
pub open spec fn data_start(n: int) -> int {
    4 + (n + 7) / 8 + 4 * n + if n >= NO_OFFSET_THRESHOLD { 4 * n } else { 0 }
}

/// The portable serialization of a list of containers. Without run
/// containers it has the plain header and an offset for every container;
/// with some, it has the run-container flags and offsets from four containers
/// on.
pub open spec fn encode_conts(c: Conts, runs_kept: bool) -> Seq<u8> {
    let n = c.len() as int;
    if !has_run(c, runs_kept) {
        le32_bytes(SERIAL_COOKIE_NO_RUNCONTAINER as int) + le32_bytes(n) + desc_bytes(c) + offset_bytes(
            c,
            8 + 8 * n,
            n,
            runs_kept,
        ) + data_bytes(c, runs_kept)
    } else {
        le16_bytes(SERIAL_COOKIE as int) + le16_bytes(n - 1) + flag_bytes(c, runs_kept) + desc_bytes(c) + (if n
            >= NO_OFFSET_THRESHOLD {
            offset_bytes(c, data_start(n), n, runs_kept)
        } else {
            Seq::<u8>::empty()
        }) + data_bytes(c, runs_kept)
    }
}

proof fn lemma_desc_bytes_len(c: Conts)
    ensures
        desc_bytes(c).len() == 4 * c.len(),
    decreases c.len(),
{
    if c.len() > 0 {
        lemma_desc_bytes_len(c.drop_last());
    }
}

proof fn lemma_desc_bytes(c: Conts, k: int)
    requires
        0 <= k < c.len(),
    ensures
        desc_bytes(c).len() == 4 * c.len(),
        at(desc_bytes(c), 4 * k, le16_bytes(c[k].0 as int)),
        at(desc_bytes(c), 4 * k + 2, le16_bytes(runs_card(c[k].1) - 1)),
    decreases c.len(),
{
    let t = c.drop_last();
    lemma_desc_bytes_len(c);
    lemma_desc_bytes_len(t);
    let d = desc_bytes(c);
    let x = le16_bytes(c.last().0 as int);
    let y = le16_bytes(runs_card(c.last().1) - 1);
    assert(d == desc_bytes(t) + x + y);
    if k < t.len() {
        lemma_desc_bytes(t, k);
        assert(t[k] == c[k]);
        assert forall|i: int| 0 <= i < 2 implies #[trigger] d[4 * k + i] == le16_bytes(c[k].0 as int)[i] by {
            assert(d[4 * k + i] == desc_bytes(t)[4 * k + i]);
        }
        assert forall|i: int| 0 <= i < 2 implies #[trigger] d[4 * k + 2 + i] == le16_bytes(runs_card(c[k].1) - 1)[i] by {
            assert(d[4 * k + 2 + i] == desc_bytes(t)[4 * k + 2 + i]);
        }
    } else {
        assert forall|i: int| 0 <= i < 2 implies #[trigger] d[4 * k + i] == le16_bytes(c[k].0 as int)[i] by {
            assert(d[4 * k + i] == (desc_bytes(t) + x)[4 * k + i]);
            assert((desc_bytes(t) + x)[4 * k + i] == x[i]);
        }
        assert forall|i: int| 0 <= i < 2 implies #[trigger] d[4 * k + 2 + i] == le16_bytes(runs_card(c[k].1) - 1)[i] by {
        }
    }
}

proof fn lemma_offset_bytes_len(c: Conts, base: int, k: int, runs_kept: bool)
    requires
        0 <= k,
    ensures
        offset_bytes(c, base, k, runs_kept).len() == 4 * k,
    decreases k,
{
    if k > 0 {
        lemma_offset_bytes_len(c, base, k - 1, runs_kept);
    }
}

/// The flag of container `j` is set exactly when it is stored as runs.
proof fn lemma_flag_bit(c: Conts, runs_kept: bool, j: int)
    requires
        0 <= j < c.len(),
    ensures
        bit_of(flag_byte(c, runs_kept, j / 8), j % 8) == is_run(c[j].1, runs_kept),
{
    let f = |t: int| run_bit(c, runs_kept, 8 * (j / 8) + t);
    crate::containers::lemma_byte_from(f);
    assert(bit_of(flag_byte(c, runs_kept, j / 8), j % 8) == f(j % 8));
    assert(8 * (j / 8) + j % 8 == j);
}

/// A valid container's runs read back as the run container at `p`.
proof fn lemma_container_read(b: Seq<u8>, p: int, lr: Seq<(u32, u32)>)
    requires
        local_ok(lr),
        lr.len() < 0x1_0000,
        at(b, p, cont_bytes(lr)),
    ensures
        container_at(b, p, true, 0) == Some((runs_set(lr), cont_size(lr))),
{
    lemma_runs_bytes_len(lr);
    lemma_at_concat(b, p, le16_bytes(lr.len() as int), runs_bytes(lr));
    lemma_at_le16(b, p, lr.len() as int);
    assert forall|j: int| 0 <= j < lr.len() implies #[trigger] run_start(b, p, j) == lr[j].0 && run_extra(b, p, j) == lr[j].1 - lr[j].0 by {
        lemma_runs_bytes_read(b, p + 2, lr, j);
        assert(p + 2 + 4 * j == p + 2 + 4 * j);
    }
    assert(run_ok(b, p));
    assert forall|v: u32| #[trigger] run_vals(b, p).contains(v) == runs_set(lr).contains(v) by {
        if run_vals(b, p).contains(v) {
            let j = choose|j: int| 0 <= j < run_count(b, p) && #[trigger] run_start(b, p, j) <= v && v <= run_start(b, p, j) + run_extra(b, p, j);
            assert(lr[j].0 <= v && v <= lr[j].1);
            assert(in_runs(lr, v));
        }
        if runs_set(lr).contains(v) {
            let j = choose|j: int| 0 <= j < lr.len() && #[trigger] lr[j].0 <= v && v <= lr[j].1;
            assert(run_start(b, p, j) <= v && v <= run_start(b, p, j) + run_extra(b, p, j));
        }
    }
    assert(run_vals(b, p) =~= runs_set(lr));
}

/// A container reads back in the form it is stored in.
proof fn lemma_piece_read(b: Seq<u8>, p: int, lr: Seq<(u32, u32)>, runs_kept: bool)
    requires
        local_ok(lr),
        lr.len() < 0x1_0000,
        at(b, p, piece(lr, runs_kept)),
    ensures
        container_at(b, p, is_run(lr, runs_kept), runs_card(lr) as int) == Some((runs_set(lr), piece_size(lr, runs_kept))),
{
    reveal(piece);
    reveal(piece_size);
    if is_run(lr, runs_kept) {
        lemma_container_read(b, p, lr);
    } else if runs_card(lr) <= DEFAULT_MAX_SIZE {
        crate::containers::lemma_array_read(b, p, lr);
    } else {
        crate::containers::lemma_bitset_read(b, p, lr);
    }
}

/// Decoding the serialized containers `k..` gives their values.
#[verifier::spinoff_prover]
#[verifier::rlimit(100)]
proof fn lemma_decode_suffix(
    b: Seq<u8>,
    c: Conts,
    runs_kept: bool,
    has_runs: bool,
    desc: int,
    data: int,
    k: int,
    prev: int,
)
    requires
        conts_ok(c),
        c.len() <= 0x1_0000,
        0 <= k <= c.len(),
        forall|j: int| 0 <= j < c.len() ==> #[trigger] c[j].1.len() < 0x1_0000,
        forall|j: int| 0 <= j < c.len() ==> at(b, desc + 4 * j, le16_bytes(#[trigger] c[j].0 as int)),
        forall|j: int| 0 <= j < c.len() ==> at(b, desc + 4 * j + 2, le16_bytes(runs_card(#[trigger] c[j].1) - 1)),
        forall|j: int| 0 <= j < c.len() ==> (has_runs && run_flag(b, j)) == is_run(#[trigger] c[j].1, runs_kept),
        forall|j: int| 0 <= j < c.len() ==> at(b, data + data_off(c, j, runs_kept), piece(#[trigger] c[j].1, runs_kept)),
        k < c.len() ==> prev < c[k].0,
    ensures
        decode_from(b, c.len() as int, has_runs, desc, k, data + data_off(c, k, runs_kept), prev) == Some(
            (conts_set_from(c, k), data + data_off(c, c.len() as int, runs_kept)),
        ),
    decreases c.len() - k,
{
    let n = c.len() as int;
    if k >= n {
        assert(conts_set_from(c, k) =~= Set::<u32>::empty());
    } else {
        assert(c[k].0 < 0x1_0000 && local_ok(c[k].1));
        lemma_local_card(c[k].1);
        lemma_at_le16(b, desc + 4 * k, c[k].0 as int);
        lemma_at_le16(b, desc + 4 * k + 2, runs_card(c[k].1) - 1);
        assert((has_runs && run_flag(b, k)) == is_run(c[k].1, runs_kept));
        lemma_piece_read(b, data + data_off(c, k, runs_kept), c[k].1, runs_kept);
        if k + 1 < n {
            assert(c[k].0 < c[k + 1].0);
        }
        lemma_decode_suffix(b, c, runs_kept, has_runs, desc, data, k + 1, c[k].0 as int);
        assert(data_off(c, k + 1, runs_kept) == data_off(c, k, runs_kept) + piece_size(c[k].1, runs_kept));
        assert(lift(c[k].0 as int, runs_set(c[k].1)).union(conts_set_from(c, k + 1)) =~= conts_set_from(c, k)) by {
            assert forall|x: u32| conts_set_from(c, k).contains(x) implies lift(c[k].0 as int, runs_set(c[k].1)).union(
                conts_set_from(c, k + 1),
            ).contains(x) by {
                let j = choose|j: int| k <= j < c.len() && #[trigger] lift(c[j].0 as int, runs_set(c[j].1)).contains(x);
                if j > k {
                    assert(conts_set_from(c, k + 1).contains(x));
                }
            }
        }
    }
}

/// The facts about the header and the containers that decoding needs, from a
/// serialization at the start of `b` whose descriptive header starts at
/// `desc` and whose data starts at `data`.
proof fn lemma_body_facts(
    b: Seq<u8>,
    c: Conts,
    runs_kept: bool,
    desc: int,
    data: int,
)
    requires
        conts_ok(c),
        c.len() > 0,
        at(b, desc, desc_bytes(c)),
        at(b, data, data_bytes(c, runs_kept)),
    ensures
        forall|j: int| 0 <= j < c.len() ==> at(b, desc + 4 * j, le16_bytes(#[trigger] c[j].0 as int)),
        forall|j: int| 0 <= j < c.len() ==> at(b, desc + 4 * j + 2, le16_bytes(runs_card(#[trigger] c[j].1) - 1)),
        forall|j: int| 0 <= j < c.len() ==> at(b, data + data_off(c, j, runs_kept), piece(#[trigger] c[j].1, runs_kept)),
{
    let d = desc_bytes(c);
    let db = data_bytes(c, runs_kept);
    assert forall|j: int| 0 <= j < c.len() implies at(b, desc + 4 * j, le16_bytes(#[trigger] c[j].0 as int)) by {
        lemma_desc_bytes(c, j);
        assert forall|i: int| 0 <= i < 2 implies #[trigger] b[desc + 4 * j + i] == le16_bytes(c[j].0 as int)[i] by {
            assert(b[desc + (4 * j + i)] == d[4 * j + i]);
        }
    }
    assert forall|j: int| 0 <= j < c.len() implies at(b, desc + 4 * j + 2, le16_bytes(runs_card(#[trigger] c[j].1) - 1)) by {
        lemma_desc_bytes(c, j);
        assert forall|i: int| 0 <= i < 2 implies #[trigger] b[desc + 4 * j + 2 + i] == le16_bytes(runs_card(c[j].1) - 1)[i] by {
            assert(b[desc + (4 * j + 2 + i)] == d[4 * j + 2 + i]);
        }
    }
    assert forall|j: int| 0 <= j < c.len() implies at(b, data + data_off(c, j, runs_kept), piece(#[trigger] c[j].1, runs_kept)) by {
        lemma_data_bytes(c, j, runs_kept);
        assert forall|i: int| 0 <= i < piece(c[j].1, runs_kept).len() implies #[trigger] b[data + data_off(c, j, runs_kept) + i]
            == piece(c[j].1, runs_kept)[i] by {
            assert(b[data + (data_off(c, j, runs_kept) + i)] == db[data_off(c, j, runs_kept) + i]);
        }
    }
}

/// Reading back a serialization of well-formed containers gives their values.
#[verifier::spinoff_prover]
#[verifier::rlimit(100)]
pub proof fn lemma_decode_encode(c: Conts, runs_kept: bool, b: Seq<u8>)
    requires
        conts_ok(c),
        c.len() <= 0x1_0000,
        forall|j: int| 0 <= j < c.len() ==> #[trigger] c[j].1.len() < 0x1_0000,
        at(b, 0, encode_conts(c, runs_kept)),
    ensures
        portable_decode(b) == Some((conts_set_from(c, 0), encode_conts(c, runs_kept).len() as int)),
{
    let e = encode_conts(c, runs_kept);
    let n = c.len() as int;
    let d = desc_bytes(c);
    let db = data_bytes(c, runs_kept);
    lemma_desc_bytes_len(c);
    if n > 0 {
        lemma_data_bytes(c, 0, runs_kept);
    }
    if !has_run(c, runs_kept) {
        let h0 = le32_bytes(SERIAL_COOKIE_NO_RUNCONTAINER as int);
        let h1 = le32_bytes(n);
        let offs = offset_bytes(c, 8 + 8 * n, n, runs_kept);
        lemma_offset_bytes_len(c, 8 + 8 * n, n, runs_kept);
        assert(e == h0 + h1 + d + offs + db);
        lemma_at_concat(b, 0, h0 + h1 + d + offs, db);
        lemma_at_concat(b, 0, h0 + h1 + d, offs);
        lemma_at_concat(b, 0, h0 + h1, d);
        lemma_at_concat(b, 0, h0, h1);
        lemma_at_le32(b, 0, SERIAL_COOKIE_NO_RUNCONTAINER as int);
        lemma_at_le32(b, 4, n);
        if n == 0 {
            assert(data_off(c, 0, runs_kept) == 0);
            assert(db =~= Seq::<u8>::empty());
            assert(conts_set_from(c, 0) =~= Set::<u32>::empty());
        } else {
            assert(portable_header(b) == Some((n, false, 8int, 8 + 8 * n)));
            lemma_body_facts(b, c, runs_kept, 8, 8 + 8 * n);
            assert forall|j: int| 0 <= j < c.len() implies (false && run_flag(b, j)) == is_run(#[trigger] c[j].1, runs_kept) by {
                assert(!run_bit(c, runs_kept, j));
            }
            lemma_decode_suffix(b, c, runs_kept, false, 8, 8 + 8 * n, 0, -1);
            assert(data_off(c, 0, runs_kept) == 0);
        }
    } else {
        let k0 = choose|k: int| #[trigger] run_bit(c, runs_kept, k);
        assert(n > 0);
        let desc = 4 + (n + 7) / 8;
        let offs = if n >= NO_OFFSET_THRESHOLD { offset_bytes(c, data_start(n), n, runs_kept) } else { Seq::<u8>::empty() };
        let data = data_start(n);
        let h0 = le16_bytes(SERIAL_COOKIE as int);
        let h1 = le16_bytes(n - 1);
        let f = flag_bytes(c, runs_kept);
        lemma_offset_bytes_len(c, data_start(n), n, runs_kept);
        assert(e == h0 + h1 + f + d + offs + db);
        lemma_at_concat(b, 0, h0 + h1 + f + d + offs, db);
        lemma_at_concat(b, 0, h0 + h1 + f + d, offs);
        lemma_at_concat(b, 0, h0 + h1 + f, d);
        lemma_at_concat(b, 0, h0 + h1, f);
        lemma_at_concat(b, 0, h0, h1);
        lemma_at_le16(b, 0, SERIAL_COOKIE as int);
        lemma_at_le16(b, 2, n - 1);
        assert(le32(b, 0) != SERIAL_COOKIE_NO_RUNCONTAINER);
        assert(portable_header(b) == Some((n, true, desc, data)));
        lemma_body_facts(b, c, runs_kept, desc, data);
        assert forall|j: int| 0 <= j < c.len() implies (true && run_flag(b, j)) == is_run(#[trigger] c[j].1, runs_kept) by {
            assert(b[4 + j / 8] == f[j / 8]);
            lemma_flag_bit(c, runs_kept, j);
        }
        lemma_decode_suffix(b, c, runs_kept, true, desc, data, 0, -1);
        assert(data_off(c, 0, runs_kept) == 0);
    }
}

/// The containers held in a vector, with their runs as sequences.
pub open spec fn conts_model(c: Seq<(u32, Vec<(u32, u32)>)>) -> Conts {
    c.map_values(|e: (u32, Vec<(u32, u32)>)| (e.0, e.1@))
}

/// The runs of a container are separated by at least one missing value.
pub open spec fn local_sep(lr: Seq<(u32, u32)>) -> bool {
    forall|j: int| 0 < j < lr.len() ==> #[trigger] lr[j].0 > lr[j - 1].1 + 1
}

/// Separated runs below `2^16` number at most `2^15`.
proof fn lemma_local_len(lr: Seq<(u32, u32)>)
    requires
        local_ok(lr),
        local_sep(lr),
    ensures
        lr.len() <= 0x8000,
{
    assert forall|j: int| 0 <= j < lr.len() implies #[trigger] lr[j].0 >= 2 * j by {
        lemma_local_start(lr, j);
    }
    assert(lr[lr.len() - 1].0 >= 2 * (lr.len() - 1));
}

proof fn lemma_local_start(lr: Seq<(u32, u32)>, j: int)
    requires
        local_ok(lr),
        local_sep(lr),
        0 <= j < lr.len(),
    ensures
        lr[j].0 >= 2 * j,
    decreases j,
{
    if j > 0 {
        lemma_local_start(lr, j - 1);
        assert(lr[j].0 > lr[j - 1].1 + 1);
    }
}

/// The last value of the last run of a non-empty container under `key`.
pub open spec fn cont_last(key: int, lr: Seq<(u32, u32)>) -> int {
    key * 0x1_0000 + lr.last().1
}

/// The state of splitting runs into containers: finished containers `m`,
/// the container `cur` under `cur_key` still being filled, holding together
/// the values `processed`.
pub open spec fn split_state(m: Conts, cur_key: u32, cur: Seq<(u32, u32)>, processed: Set<u32>) -> bool {
    &&& conts_ok(m)
    &&& forall|k: int| 0 <= k < m.len() ==> local_sep(#[trigger] m[k].1)
    &&& cur.len() == 0 ==> m.len() == 0 && processed == Set::<u32>::empty()
    &&& cur.len() > 0 ==> {
        &&& cur_key < 0x1_0000
        &&& local_ok(cur)
        &&& local_sep(cur)
        &&& m.len() > 0 ==> m.last().0 < cur_key
        &&& processed == conts_set_from(m, 0).union(lift(cur_key as int, runs_set(cur)))
    }
}

proof fn lemma_conts_set_push(c: Conts, x: (u32, Seq<(u32, u32)>))
    ensures
        conts_set_from(c.push(x), 0) == conts_set_from(c, 0).union(lift(x.0 as int, runs_set(x.1))),
{
    let t = c.push(x);
    assert forall|v: u32| #[trigger] conts_set_from(t, 0).contains(v) == conts_set_from(c, 0).union(lift(x.0 as int, runs_set(x.1))).contains(v) by {
        if conts_set_from(t, 0).contains(v) {
            let j = choose|j: int| 0 <= j < t.len() && #[trigger] lift(t[j].0 as int, runs_set(t[j].1)).contains(v);
            if j < c.len() {
                assert(t[j] == c[j]);
            }
        }
        if conts_set_from(c, 0).contains(v) {
            let j = choose|j: int| 0 <= j < c.len() && #[trigger] lift(c[j].0 as int, runs_set(c[j].1)).contains(v);
            assert(t[j] == c[j]);
        }
        if lift(x.0 as int, runs_set(x.1)).contains(v) {
            assert(t[c.len() as int] == x);
        }
    }
    assert(conts_set_from(t, 0) =~= conts_set_from(c, 0).union(lift(x.0 as int, runs_set(x.1))));
}

proof fn lemma_lift_union(key: int, a: Set<u32>, b: Set<u32>)
    ensures
        lift(key, a.union(b)) == lift(key, a).union(lift(key, b)),
{
    assert(lift(key, a.union(b)) =~= lift(key, a).union(lift(key, b)));
}

/// A single run lifted under `key` is the interval it stands for.
proof fn lemma_lift_piece(key: u32, piece: (u32, u32))
    requires
        key < 0x1_0000,
        piece.0 <= piece.1 <= 0xFFFF,
    ensures
        lift(key as int, runs_set(seq![piece])) == interval(key * 0x1_0000 + piece.0, key * 0x1_0000 + piece.1),
{
    crate::runs::lemma_runs_set_push(Seq::<(u32, u32)>::empty(), piece);
    assert(seq![piece] == Seq::<(u32, u32)>::empty().push(piece));
    assert(runs_set(Seq::<(u32, u32)>::empty()) =~= Set::<u32>::empty());
    assert(runs_set(seq![piece]) =~= interval(piece.0 as int, piece.1 as int));
    crate::portable::lemma_lift_interval(key as int, piece.0 as int, piece.1 as int);
}

proof fn lemma_block_arith(s: u32, key: u32, block_last: u32, e: u32, hi: u32, plo: u32, phi: u32)
    requires
        key == s >> 16u32,
        block_last == (key << 16u32) | 0xFFFFu32,
        e == if hi < block_last { hi } else { block_last },
        s <= hi,
        plo == s & 0xFFFFu32,
        phi == e & 0xFFFFu32,
    ensures
        key < 0x1_0000,
        s == key * 0x1_0000 + plo,
        e == key * 0x1_0000 + phi,
        block_last == key * 0x1_0000 + 0xFFFF,
        plo <= phi <= 0xFFFF,
        s <= e,
{
    assert(key < 0x1_0000 && block_last == key * 0x1_0000 + 0xFFFF && s == key * 0x1_0000 + plo
        && plo <= 0xFFFF) by (bit_vector)
        requires
            key == s >> 16u32,
            block_last == (key << 16u32) | 0xFFFFu32,
            plo == s & 0xFFFFu32,
    ;
    assert(e == key * 0x1_0000 + phi && phi <= 0xFFFF) by (bit_vector)
        requires
            block_last == (key << 16u32) | 0xFFFFu32,
            key < 0x1_0000,
            phi == e & 0xFFFFu32,
            e <= block_last,
            e >= key * 0x1_0000,
    ;
}

/// Adding the piece `[s, e]` (within one block `key`) to the split state.
proof fn lemma_split_step(
    pre_m: Conts,
    pre_key: u32,
    pre_cur: Seq<(u32, u32)>,
    pre_done: Set<u32>,
    m: Conts,
    key: u32,
    cur: Seq<(u32, u32)>,
    s: u32,
    e: u32,
    piece: (u32, u32),
)
    requires
        split_state(pre_m, pre_key, pre_cur, pre_done),
        pre_cur.len() > 0 ==> cont_last(pre_key as int, pre_cur) < s,
        pre_cur.len() > 0 && cont_last(pre_key as int, pre_cur) + 1 == s ==> s % 0x1_0000 == 0,
        key < 0x1_0000,
        s == key * 0x1_0000 + piece.0,
        e == key * 0x1_0000 + piece.1,
        piece.0 <= piece.1 <= 0xFFFF,
        pre_cur.len() > 0 && key != pre_key ==> m == pre_m.push((pre_key, pre_cur)) && cur == seq![piece],
        pre_cur.len() > 0 && key == pre_key ==> m == pre_m && cur == pre_cur.push(piece),
        pre_cur.len() == 0 ==> m == pre_m && cur == seq![piece],
    ensures
        split_state(m, key, cur, pre_done.union(interval(s as int, e as int))),
        cur.len() > 0,
        cont_last(key as int, cur) == e,
{
    lemma_lift_piece(key, piece);
    if pre_cur.len() == 0 {
        assert(conts_set_from(m, 0) =~= Set::<u32>::empty());
        assert(pre_done.union(interval(s as int, e as int)) =~= conts_set_from(m, 0).union(lift(key as int, runs_set(cur))));
    } else if key != pre_key {
        let last = pre_cur.last().1;
        assert(pre_key * 0x1_0000 + last < key * 0x1_0000 + piece.0);
        assert(pre_key < key) by (nonlinear_arith)
            requires
                pre_key * 0x1_0000 + last < key * 0x1_0000 + piece.0,
                piece.0 <= 0xFFFF,
                pre_key != key,
        ;
        assert forall|k: int| 0 <= k < m.len() implies #[trigger] m[k].0 < 0x1_0000 && local_ok(m[k].1) by {
            if k < pre_m.len() {
                assert(m[k] == pre_m[k]);
            }
        }
        assert forall|k: int| 0 < k < m.len() implies #[trigger] m[k - 1].0 < m[k].0 by {
            if k < pre_m.len() {
                assert(m[k] == pre_m[k]);
                assert(m[k - 1] == pre_m[k - 1]);
            } else {
                assert(m[k - 1] == pre_m.last());
            }
        }
        assert forall|k: int| 0 <= k < m.len() implies local_sep(#[trigger] m[k].1) by {
            if k < pre_m.len() {
                assert(m[k] == pre_m[k]);
            }
        }
        lemma_conts_set_push(pre_m, (pre_key, pre_cur));
        assert(pre_done.union(interval(s as int, e as int)) =~= conts_set_from(m, 0).union(lift(key as int, runs_set(cur))));
    } else {
        let last = pre_cur.last().1;
        assert(key * 0x1_0000 + last < key * 0x1_0000 + piece.0);
        if last + 1 == piece.0 {
            assert(s % 0x1_0000 == piece.0) by (nonlinear_arith)
                requires
                    s == key * 0x1_0000 + piece.0,
                    piece.0 <= 0xFFFF,
            ;
        }
        assert(piece.0 > last + 1);
        assert(cur.last() == piece);
        assert forall|j: int| 0 <= j < cur.len() implies #[trigger] cur[j].0 <= cur[j].1 && cur[j].1 <= 0xFFFF by {
            if j < pre_cur.len() {
                assert(cur[j] == pre_cur[j]);
            }
        }
        assert forall|j: int| 0 < j < cur.len() implies #[trigger] cur[j].0 > cur[j - 1].1 + 1 by {
            if j < pre_cur.len() {
                assert(cur[j] == pre_cur[j]);
                assert(cur[j - 1] == pre_cur[j - 1]);
            } else {
                assert(cur[j - 1] == pre_cur.last());
            }
        }
        crate::runs::lemma_runs_set_push(pre_cur, piece);
        lemma_lift_union(key as int, runs_set(pre_cur), interval(piece.0 as int, piece.1 as int));
        crate::portable::lemma_lift_interval(key as int, piece.0 as int, piece.1 as int);
        assert(pre_done.union(interval(s as int, e as int)) =~= conts_set_from(m, 0).union(lift(key as int, runs_set(cur))));
    }
}

/// Splits a well-formed run list into containers of runs that share their
/// high 16 bits.
fn split_containers(runs: &Vec<(u32, u32)>) -> (c: Vec<(u32, Vec<(u32, u32)>)>)
    requires
        runs_wf(runs@),
    ensures
        conts_ok(conts_model(c@)),
        forall|k: int| 0 <= k < c@.len() ==> local_sep(#[trigger] conts_model(c@)[k].1),
        conts_set_from(conts_model(c@), 0) == runs_set(runs@),
{
    let mut out: Vec<(u32, Vec<(u32, u32)>)> = Vec::new();
    let mut cur_key: u32 = 0;
    let mut cur: Vec<(u32, u32)> = Vec::new();
    let mut i: usize = 0;
    let ghost mut done: Set<u32> = Set::empty();
    proof {
        assert(runs_set(runs@.take(0)) =~= Set::<u32>::empty());
    }
    while i < runs.len()
        invariant
            runs_wf(runs@),
            i <= runs@.len(),
            split_state(conts_model(out@), cur_key, cur@, done),
            done == runs_set(runs@.take(i as int)),
            i < runs@.len() && cur@.len() > 0 ==> cont_last(cur_key as int, cur@) + 1 < runs@[i as int].0,
        decreases runs@.len() - i,
    {
        let (lo, hi) = runs[i];
        let mut s: u32 = lo;
        proof {
            assert(runs@[i as int].0 <= runs@[i as int].1);
            assert(done.union(interval(lo as int, s - 1)) =~= done);
        }
        loop
            invariant_except_break
                split_state(conts_model(out@), cur_key, cur@, done.union(interval(lo as int, s - 1))),
                cur@.len() > 0 ==> cont_last(cur_key as int, cur@) < s,
                cur@.len() > 0 && cont_last(cur_key as int, cur@) + 1 == s ==> s % 0x1_0000 == 0,
            invariant
                runs_wf(runs@),
                i < runs@.len(),
                (lo, hi) == runs@[i as int],
                lo <= s <= hi,
                done == runs_set(runs@.take(i as int)),
            ensures
                split_state(conts_model(out@), cur_key, cur@, done.union(interval(lo as int, hi as int))),
                cur@.len() > 0,
                cont_last(cur_key as int, cur@) == hi,
            decreases hi - s,
        {
            let key = s >> 16u32;
            let block_last = (key << 16u32) | 0xFFFFu32;
            let e = if hi < block_last { hi } else { block_last };
            let piece = (s & 0xFFFFu32, e & 0xFFFFu32);
            proof {
                lemma_block_arith(s, key, block_last, e, hi, piece.0, piece.1);
            }
            let ghost pre_out = out@;
            let ghost pre_cur = cur@;
            let ghost pre_key = cur_key;
            let ghost pre_done = done.union(interval(lo as int, s - 1));
            if cur.len() > 0 && key != cur_key {
                let mut fresh: Vec<(u32, u32)> = Vec::new();
                std::mem::swap(&mut fresh, &mut cur);
                out.push((cur_key, fresh));
                proof {
                    assert(conts_model(out@) =~= conts_model(pre_out).push((pre_key, pre_cur)));
                }
            }
            cur_key = key;
            cur.push(piece);
            proof {
                if pre_cur.len() == 0 {
                    assert(cur@ =~= seq![piece]);
                } else if key != pre_key {
                    assert(cur@ =~= seq![piece]);
                }
                lemma_split_step(conts_model(pre_out), pre_key, pre_cur, pre_done, conts_model(out@), cur_key, cur@, s, e, piece);
                assert(pre_done.union(interval(s as int, e as int)) =~= done.union(interval(lo as int, e as int)));
            }
            if e == hi {
                break;
            }
            s = e + 1;
        }
        proof {
            assert(runs@.take(i + 1) == runs@.take(i as int).push((lo, hi)));
            crate::runs::lemma_runs_set_push(runs@.take(i as int), (lo, hi));
            if i + 1 < runs@.len() {
                assert(runs@[i as int].1 + 1 < runs@[i + 1].0);
            }
            done = runs_set(runs@.take(i + 1));
        }
        i = i + 1;
    }
    if cur.len() > 0 {
        let ghost pre_out = out@;
        let ghost cur_v = cur@;
        out.push((cur_key, cur));
        proof {
            lemma_split_flush(conts_model(pre_out), cur_key, cur_v, done);
            assert(conts_model(out@) =~= conts_model(pre_out).push((cur_key, cur_v)));
        }
    }
    proof {
        assert(runs@.take(runs@.len() as int) == runs@);
        if out@.len() == 0 {
            assert(conts_set_from(conts_model(out@), 0) =~= Set::<u32>::empty());
        }
    }
    out
}

/// Finishing the container being filled.
proof fn lemma_split_flush(m: Conts, cur_key: u32, cur: Seq<(u32, u32)>, done: Set<u32>)
    requires
        split_state(m, cur_key, cur, done),
        cur.len() > 0,
    ensures
        conts_ok(m.push((cur_key, cur))),
        forall|k: int| 0 <= k < m.len() + 1 ==> local_sep(#[trigger] m.push((cur_key, cur))[k].1),
        conts_set_from(m.push((cur_key, cur)), 0) == done,
{
    let t = m.push((cur_key, cur));
    assert forall|k: int| 0 <= k < t.len() implies #[trigger] t[k].0 < 0x1_0000 && local_ok(t[k].1) by {
        if k < m.len() {
            assert(t[k] == m[k]);
        }
    }
    assert forall|k: int| 0 < k < t.len() implies #[trigger] t[k - 1].0 < t[k].0 by {
        if k < m.len() {
            assert(t[k] == m[k]);
            assert(t[k - 1] == m[k - 1]);
        } else {
            assert(t[k - 1] == m.last());
        }
    }
    assert forall|k: int| 0 <= k < t.len() implies local_sep(#[trigger] t[k].1) by {
        if k < m.len() {
            assert(t[k] == m[k]);
        }
    }
    lemma_conts_set_push(m, (cur_key, cur));
}

/// Containers split from a bitmap: well formed, and within each container
/// the runs are separated by missing values.
pub open spec fn canonical(c: Conts) -> bool {
    &&& conts_ok(c)
    &&& forall|k: int| 0 <= k < c.len() ==> local_sep(#[trigger] c[k].1)
}

/// The runs of a valid container cover between one and `2^16` values.
proof fn lemma_local_card(lr: Seq<(u32, u32)>)
    requires
        local_ok(lr),
    ensures
        1 <= crate::runs::runs_card(lr) <= 0x1_0000,
{
    assert forall|j: int| 1 <= j <= lr.len() implies crate::runs::runs_card(#[trigger] lr.take(j)) <= lr[j - 1].1 + 1
        && crate::runs::runs_card(lr.take(j)) >= 1 by {
        lemma_local_card_prefix(lr, j);
    }
    assert(lr.take(lr.len() as int) == lr);
}

proof fn lemma_local_card_prefix(lr: Seq<(u32, u32)>, j: int)
    requires
        local_ok(lr),
        1 <= j <= lr.len(),
    ensures
        1 <= crate::runs::runs_card(lr.take(j)) <= lr[j - 1].1 + 1,
    decreases j,
{
    assert(lr.take(j).drop_last() =~= lr.take(j - 1));
    assert(lr.take(j).last() == lr[j - 1]);
    if j > 1 {
        lemma_local_card_prefix(lr, j - 1);
    } else {
        assert(lr.take(0) =~= Seq::<(u32, u32)>::empty());
    }
}

/// The number of values in a container's runs.
fn container_card(lr: &Vec<(u32, u32)>) -> (r: u32)
    requires
        local_ok(lr@),
    ensures
        r == crate::runs::runs_card(lr@),
        1 <= r <= 0x1_0000,
{
    let mut total: u32 = 0;
    let mut j: usize = 0;
    proof {
        assert(lr@.take(0) =~= Seq::<(u32, u32)>::empty());
    }
    while j < lr.len()
        invariant
            local_ok(lr@),
            j <= lr@.len(),
            total == crate::runs::runs_card(lr@.take(j as int)),
            j > 0 ==> total <= lr@[j - 1].1 + 1,
        decreases lr@.len() - j,
    {
        let (lo, hi) = lr[j];
        proof {
            assert(lr@.take(j + 1).drop_last() =~= lr@.take(j as int));
            assert(lr@.take(j + 1).last() == lr@[j as int]);
            if j > 0 {
                assert(lr@[j as int].0 > lr@[j - 1].1);
            }
        }
        total = total + (hi - lo + 1);
        j = j + 1;
    }
    proof {
        assert(lr@.take(lr@.len() as int) == lr@);
        lemma_local_card(lr@);
    }
    total
}

fn write_u16(out: &mut Vec<u8>, v: u16)
    ensures
        final(out)@ == old(out)@ + le16_bytes(v as int),
{
    let b = u16_le_bytes(v);
    out.push(b[0]);
    out.push(b[1]);
    assert(out@ =~= old(out)@ + le16_bytes(v as int));
}

fn write_u32(out: &mut Vec<u8>, v: u32)
    ensures
        final(out)@ == old(out)@ + le32_bytes(v as int),
{
    let b = u32_le_bytes(v);
    out.push(b[0]);
    out.push(b[1]);
    out.push(b[2]);
    out.push(b[3]);
    assert(out@ =~= old(out)@ + le32_bytes(v as int));
}

/// Writes a run container.
fn write_run_container(lr: &Vec<(u32, u32)>, out: &mut Vec<u8>)
    requires
        local_ok(lr@),
        lr@.len() < 0x1_0000,
    ensures
        final(out)@ == old(out)@ + cont_bytes(lr@),
{
    write_u16(out, lr.len() as u16);
    let ghost start = out@;
    let mut j: usize = 0;
    proof {
        assert(lr@.take(0) =~= Seq::<(u32, u32)>::empty());
        assert(out@ =~= start + runs_bytes(lr@.take(0)));
    }
    while j < lr.len()
        invariant
            local_ok(lr@),
            j <= lr@.len(),
            start == old(out)@ + le16_bytes(lr@.len() as int),
            out@ == start + runs_bytes(lr@.take(j as int)),
        decreases lr@.len() - j,
    {
        let (lo, hi) = lr[j];
        assert(lo <= hi && hi <= 0xFFFF);
        write_u16(out, lo as u16);
        write_u16(out, (hi - lo) as u16);
        proof {
            let t = lr@.take(j + 1);
            assert(t.drop_last() =~= lr@.take(j as int));
            assert(t.last() == (lo, hi));
            assert(out@ =~= start + runs_bytes(t));
        }
        j = j + 1;
    }
    proof {
        assert(lr@.take(lr@.len() as int) == lr@);
        assert(out@ =~= old(out)@ + cont_bytes(lr@));
    }
}

/// Valid runs within `[0, 2^16)` start at least at their index.
proof fn lemma_local_start_index(lr: Seq<(u32, u32)>, j: int)
    requires
        local_ok(lr),
        0 <= j < lr.len(),
    ensures
        lr[j].0 >= j,
    decreases j,
{
    if j > 0 {
        lemma_local_start_index(lr, j - 1);
        assert(lr[j].0 > lr[j - 1].1);
    }
}

/// A container has at most `2^16` runs.
proof fn lemma_local_count(lr: Seq<(u32, u32)>)
    requires
        local_ok(lr),
    ensures
        lr.len() <= 0x1_0000,
{
    lemma_local_start_index(lr, lr.len() - 1);
}

/// Whether a container is stored as runs.
fn container_is_run(lr: &Vec<(u32, u32)>, runs_kept: bool) -> (r: bool)
    requires
        local_ok(lr@),
    ensures
        r == is_run(lr@, runs_kept),
{
    if !runs_kept {
        return false;
    }
    proof {
        lemma_local_count(lr@);
    }
    let card = container_card(lr) as u64;
    let plain: u64 = if card <= DEFAULT_MAX_SIZE as u64 {
        2 * card + 2
    } else {
        8192
    };
    2 + 4 * (lr.len() as u64) < plain
}

/// The size of a container, in the form it is stored in.
fn container_size(lr: &Vec<(u32, u32)>, runs_kept: bool) -> (r: u64)
    requires
        local_ok(lr@),
    ensures
        r == piece_size(lr@, runs_kept),
{
    proof {
        reveal(piece_size);
    }
    if container_is_run(lr, runs_kept) {
        2 + 4 * (lr.len() as u64)
    } else {
        let card = container_card(lr) as u64;
        if card <= DEFAULT_MAX_SIZE as u64 {
            2 * card
        } else {
            8192
        }
    }
}

/// Writes a container in the form it is stored in.
fn write_piece(lr: &Vec<(u32, u32)>, runs_kept: bool, out: &mut Vec<u8>)
    requires
        local_ok(lr@),
        lr@.len() < 0x1_0000,
    ensures
        final(out)@ == old(out)@ + piece(lr@, runs_kept),
{
    proof {
        reveal(piece);
    }
    if container_is_run(lr, runs_kept) {
        write_run_container(lr, out);
    } else if container_card(lr) as usize <= DEFAULT_MAX_SIZE {
        crate::containers::write_array(lr, out);
    } else {
        crate::containers::write_bitset(lr, out);
    }
}

/// Writes the data of all containers.
fn write_data(c: &Vec<(u32, Vec<(u32, u32)>)>, runs_kept: bool, out: &mut Vec<u8>)
    requires
        conts_ok(conts_model(c@)),
        forall|k: int| 0 <= k < c@.len() ==> #[trigger] c@[k].1@.len() < 0x1_0000,
    ensures
        final(out)@ == old(out)@ + data_bytes(conts_model(c@), runs_kept),
{
    let ghost m = conts_model(c@);
    let mut k: usize = 0;
    proof {
        assert(m.take(0) =~= Seq::<(u32, Seq<(u32, u32)>)>::empty());
        assert(out@ =~= old(out)@ + data_bytes(m.take(0), runs_kept));
    }
    while k < c.len()
        invariant
            m == conts_model(c@),
            conts_ok(m),
            forall|k: int| 0 <= k < c@.len() ==> #[trigger] c@[k].1@.len() < 0x1_0000,
            k <= c@.len(),
            out@ == old(out)@ + data_bytes(m.take(k as int), runs_kept),
        decreases c@.len() - k,
    {
        assert(m[k as int] == (c@[k as int].0, c@[k as int].1@));
        assert(m[k as int].0 < 0x1_0000);
        assert(local_ok(m[k as int].1));
        write_piece(&c[k].1, runs_kept, out);
        proof {
            let t = m.take(k + 1);
            assert(t.drop_last() =~= m.take(k as int));
            assert(t.last() == m[k as int]);
            assert(out@ =~= old(out)@ + data_bytes(t, runs_kept));
        }
        k = k + 1;
    }
    proof {
        assert(m.take(c@.len() as int) == m);
    }
}

/// Writes the descriptive header: each container's key and cardinality minus one.
fn write_desc(c: &Vec<(u32, Vec<(u32, u32)>)>, out: &mut Vec<u8>)
    requires
        conts_ok(conts_model(c@)),
    ensures
        final(out)@ == old(out)@ + desc_bytes(conts_model(c@)),
{
    let ghost m = conts_model(c@);
    let mut k: usize = 0;
    proof {
        assert(m.take(0) =~= Seq::<(u32, Seq<(u32, u32)>)>::empty());
        assert(out@ =~= old(out)@ + desc_bytes(m.take(0)));
    }
    while k < c.len()
        invariant
            m == conts_model(c@),
            conts_ok(m),
            k <= c@.len(),
            out@ == old(out)@ + desc_bytes(m.take(k as int)),
        decreases c@.len() - k,
    {
        assert(m[k as int] == (c@[k as int].0, c@[k as int].1@));
        assert(m[k as int].0 < 0x1_0000);
        assert(local_ok(m[k as int].1));
        let key = c[k].0;
        let card = container_card(&c[k].1);
        write_u16(out, key as u16);
        write_u16(out, (card - 1) as u16);
        proof {
            let t = m.take(k + 1);
            assert(t.drop_last() =~= m.take(k as int));
            assert(t.last() == m[k as int]);
            assert(out@ =~= old(out)@ + desc_bytes(t));
        }
        k = k + 1;
    }
    proof {
        assert(m.take(c@.len() as int) == m);
    }
}

/// Writes the run-container flags.
fn write_flags(c: &Vec<(u32, Vec<(u32, u32)>)>, runs_kept: bool, out: &mut Vec<u8>)
    requires
        conts_ok(conts_model(c@)),
        c@.len() <= 0x1_0000,
    ensures
        final(out)@ == old(out)@ + flag_bytes(conts_model(c@), runs_kept),
{
    let ghost m = conts_model(c@);
    let n = c.len();
    let count = (n + 7) / 8;
    let mut i: usize = 0;
    while i < count
        invariant
            m == conts_model(c@),
            conts_ok(m),
            n == c@.len(),
            n <= 0x1_0000,
            count == (n + 7) / 8,
            i <= count,
            out@ == old(out)@ + Seq::new(i as nat, |j: int| flag_byte(m, runs_kept, j)),
        decreases count - i,
    {
        let ghost f = |t: int| run_bit(m, runs_kept, 8 * i + t);
        let mut byte: u8 = 0;
        let mut t: usize = 0;
        proof {
            assert forall|tt: int| 0 <= tt < 8 implies #[trigger] bit_of(byte, tt) == (tt < t && f(tt)) by {
                crate::containers::lemma_bit_zero(tt);
            }
        }
        while t < 8
            invariant
                m == conts_model(c@),
                conts_ok(m),
                n == c@.len(),
                i < count,
                count == (n + 7) / 8,
                t <= 8,
                f == (|t: int| run_bit(m, runs_kept, 8 * i + t)),
                forall|tt: int| 0 <= tt < 8 ==> #[trigger] bit_of(byte, tt) == (tt < t && f(tt)),
            decreases 8 - t,
        {
            let k = 8 * i + t;
            let flagged = if k < n {
                assert(m[k as int] == (c@[k as int].0, c@[k as int].1@));
                assert(m[k as int].0 < 0x1_0000 && local_ok(m[k as int].1));
                container_is_run(&c[k].1, runs_kept)
            } else {
                false
            };
            assert(flagged == f(t as int));
            let ghost prev = byte;
            if flagged {
                byte = byte | (1u8 << (t as u8));
            }
            proof {
                assert forall|tt: int| 0 <= tt < 8 implies #[trigger] bit_of(byte, tt) == (tt < t + 1 && f(tt)) by {
                    if flagged {
                        crate::containers::lemma_bit_set(prev, t as int, tt);
                    }
                }
            }
            t = t + 1;
        }
        proof {
            crate::containers::lemma_byte_from(f);
            assert(crate::containers::byte_bits(byte, f));
            assert(byte == flag_byte(m, runs_kept, i as int));
        }
        out.push(byte);
        proof {
            assert(out@ =~= old(out)@ + Seq::new((i + 1) as nat, |j: int| flag_byte(m, runs_kept, j)));
        }
        i = i + 1;
    }
    assert(out@ =~= old(out)@ + flag_bytes(m, runs_kept));
}

/// Whether any container is stored as runs.
fn any_run(c: &Vec<(u32, Vec<(u32, u32)>)>, runs_kept: bool) -> (r: bool)
    requires
        conts_ok(conts_model(c@)),
    ensures
        r == has_run(conts_model(c@), runs_kept),
{
    let ghost m = conts_model(c@);
    let mut k: usize = 0;
    while k < c.len()
        invariant
            m == conts_model(c@),
            conts_ok(m),
            k <= c@.len(),
            forall|j: int| 0 <= j < k ==> !#[trigger] run_bit(m, runs_kept, j),
        decreases c@.len() - k,
    {
        assert(m[k as int] == (c@[k as int].0, c@[k as int].1@));
        assert(m[k as int].0 < 0x1_0000);
        assert(local_ok(m[k as int].1));
        if container_is_run(&c[k].1, runs_kept) {
            assert(run_bit(m, runs_kept, k as int));
            return true;
        }
        k = k + 1;
    }
    false
}

/// Containers of at most `2^15` runs start no further than `k` maximal
/// containers in.
proof fn lemma_data_off_bound(c: Conts, k: int, runs_kept: bool)
    requires
        0 <= k <= c.len(),
        forall|j: int| 0 <= j < c.len() ==> #[trigger] c[j].1.len() <= 0x8000,
    ensures
        0 <= data_off(c, k, runs_kept) <= k * 0x2_0002,
    decreases k,
{
    if k > 0 {
        reveal(piece_size);
        lemma_data_off_bound(c, k - 1, runs_kept);
        assert(c[k - 1].1.len() <= 0x8000);
    }
}

/// The four bytes of a value depend on it modulo `2^32` only.
proof fn lemma_le32_bytes_mod(n: u64)
    ensures
        le32_bytes((n % 0x1_0000_0000) as int) == le32_bytes(n as int),
{
    assert((n % 0x1_0000_0000) % 0x1_0000 == n % 0x1_0000 && ((n % 0x1_0000_0000) / 0x1_0000) % 0x1_0000 == (n
        / 0x1_0000) % 0x1_0000) by (bit_vector);
}

/// Writes the offset header: where each container starts in the whole
/// serialization, whose container data starts at `base`.
fn write_offsets(c: &Vec<(u32, Vec<(u32, u32)>)>, base: u64, runs_kept: bool, out: &mut Vec<u8>)
    requires
        conts_ok(conts_model(c@)),
        c@.len() <= 0x1_0000,
        base <= 0x10_0000,
        forall|k: int| 0 <= k < c@.len() ==> #[trigger] c@[k].1@.len() <= 0x8000,
    ensures
        final(out)@ == old(out)@ + offset_bytes(conts_model(c@), base as int, c@.len() as int, runs_kept),
{
    let ghost m = conts_model(c@);
    let mut off: u64 = base;
    let mut k: usize = 0;
    proof {
        assert forall|j: int| 0 <= j < m.len() implies #[trigger] m[j].1.len() <= 0x8000 by {
            assert(m[j] == (c@[j].0, c@[j].1@));
        }
        assert(out@ =~= old(out)@ + offset_bytes(m, base as int, 0, runs_kept));
    }
    while k < c.len()
        invariant
            m == conts_model(c@),
            conts_ok(m),
            c@.len() <= 0x1_0000,
            base <= 0x10_0000,
            forall|j: int| 0 <= j < m.len() ==> #[trigger] m[j].1.len() <= 0x8000,
            k <= c@.len(),
            off == base + data_off(m, k as int, runs_kept),
            out@ == old(out)@ + offset_bytes(m, base as int, k as int, runs_kept),
        decreases c@.len() - k,
    {
        proof {
            lemma_data_off_bound(m, k as int, runs_kept);
            lemma_data_off_bound(m, k + 1, runs_kept);
            lemma_le32_bytes_mod(off);
            assert(m[k as int] == (c@[k as int].0, c@[k as int].1@));
            assert(m[k as int].0 < 0x1_0000);
            assert(local_ok(m[k as int].1));
        }
        write_u32(out, (off % 0x1_0000_0000) as u32);
        let size = container_size(&c[k].1, runs_kept);
        off = off + size;
        k = k + 1;
    }
}

/// Writes the portable serialization of split containers.
fn write_containers(c: &Vec<(u32, Vec<(u32, u32)>)>, runs_kept: bool, out: &mut Vec<u8>)
    requires
        canonical(conts_model(c@)),
        c@.len() <= 0x1_0000,
    ensures
        final(out)@ == old(out)@ + encode_conts(conts_model(c@), runs_kept),
{
    let ghost m = conts_model(c@);
    proof {
        assert forall|k: int| 0 <= k < c@.len() implies #[trigger] c@[k].1@.len() <= 0x8000 by {
            assert(m[k] == (c@[k].0, c@[k].1@));
            assert(m[k].0 < 0x1_0000 && local_ok(m[k].1));
            lemma_local_len(m[k].1);
        }
    }
    let n = c.len();
    let ghost o0 = out@;
    if !any_run(c, runs_kept) {
        write_u32(out, SERIAL_COOKIE_NO_RUNCONTAINER);
        write_u32(out, n as u32);
        write_desc(c, out);
        let ghost o1 = out@;
        write_offsets(c, (8 + 8 * n) as u64, runs_kept, out);
        let ghost o2 = out@;
        write_data(c, runs_kept, out);
        proof {
            let h = le32_bytes(SERIAL_COOKIE_NO_RUNCONTAINER as int) + le32_bytes(n as int) + desc_bytes(m);
            assert(o1 =~= o0 + h);
            assert(o2 =~= o1 + offset_bytes(m, 8 + 8 * n, n as int, runs_kept));
            assert(out@ =~= old(out)@ + encode_conts(m, runs_kept));
        }
        return;
    }
    write_u16(out, SERIAL_COOKIE);
    write_u16(out, (n - 1) as u16);
    write_flags(c, runs_kept, out);
    write_desc(c, out);
    let ghost o1 = out@;
    if n >= NO_OFFSET_THRESHOLD {
        let base = (4 + (n + 7) / 8 + 8 * n) as u64;
        write_offsets(c, base, runs_kept, out);
    }
    let ghost o2 = out@;
    write_data(c, runs_kept, out);
    proof {
        let h = le16_bytes(SERIAL_COOKIE as int) + le16_bytes(n - 1) + flag_bytes(m, runs_kept) + desc_bytes(m);
        assert(o1 =~= o0 + h);
        let offs = if n >= NO_OFFSET_THRESHOLD { offset_bytes(m, data_start(n as int), n as int, runs_kept) } else { Seq::<u8>::empty() };
        assert(o2 =~= o1 + offs);
        assert(encode_conts(m, runs_kept) == h + offs + data_bytes(m, runs_kept));
        assert(out@ =~= old(out)@ + encode_conts(m, runs_kept));
    }
}

/// Keys of well-formed containers increase.
proof fn lemma_keys_increasing(c: Conts, i: int, j: int)
    requires
        conts_ok(c),
        0 <= i < j < c.len(),
    ensures
        c[i].0 < c[j].0,
    decreases j - i,
{
    assert(c[j - 1].0 < c[j].0);
    if j > i + 1 {
        lemma_keys_increasing(c, i, j - 1);
    }
}

/// A container's runs, kept apart by missing values, form a well-formed run list.
pub(crate) proof fn lemma_local_wf(lr: Seq<(u32, u32)>)
    requires
        local_ok(lr),
        local_sep(lr),
    ensures
        runs_wf(lr),
{
    assert forall|i: int, j: int| #![trigger lr[i], lr[j]] 0 <= i < j < lr.len() implies lr[i].1 + 1 < lr[j].0 by {
        lemma_local_gap(lr, i, j);
    }
}

proof fn lemma_local_gap(lr: Seq<(u32, u32)>, i: int, j: int)
    requires
        local_ok(lr),
        local_sep(lr),
        0 <= i < j < lr.len(),
    ensures
        lr[i].1 + 1 < lr[j].0,
    decreases j - i,
{
    assert(lr[j].0 > lr[j - 1].1 + 1);
    if j > i + 1 {
        lemma_local_gap(lr, i, j - 1);
        assert(lr[j - 1].0 <= lr[j - 1].1);
    }
}

/// Within container `j`, a low value `v` is present exactly when
/// `c[j].0 * 2^16 + v` is among the values of all containers.
proof fn lemma_low_value(c: Conts, j: int, v: u32)
    requires
        conts_ok(c),
        0 <= j < c.len(),
        v <= 0xFFFF,
    ensures
        c[j].0 * 0x1_0000 + v <= u32::MAX,
        conts_set_from(c, 0).contains((c[j].0 * 0x1_0000 + v) as u32) == runs_set(c[j].1).contains(v),
{
    let key = c[j].0;
    assert(key < 0x1_0000);
    let x = (key * 0x1_0000 + v) as u32;
    assert(x == key * 0x1_0000 + v) by (nonlinear_arith)
        requires
            key < 0x1_0000,
            v <= 0xFFFF,
            x == (key * 0x1_0000 + v) as u32,
    ;
    assert(x / 0x1_0000 == key && x % 0x1_0000 == v) by (nonlinear_arith)
        requires
            x == key * 0x1_0000 + v,
            v <= 0xFFFF,
    ;
    if conts_set_from(c, 0).contains(x) {
        let i = choose|i: int| 0 <= i < c.len() && #[trigger] lift(c[i].0 as int, runs_set(c[i].1)).contains(x);
        if i < j {
            lemma_keys_increasing(c, i, j);
        } else if i > j {
            lemma_keys_increasing(c, j, i);
        }
    }
    if runs_set(c[j].1).contains(v) {
        assert(lift(c[j].0 as int, runs_set(c[j].1)).contains(x));
    }
}

/// Strictly increasing sequences with the same elements are equal.
pub(crate) proof fn lemma_increasing_unique(a: Seq<u32>, b: Seq<u32>)
    requires
        forall|i: int, j: int| 0 <= i < j < a.len() ==> a[i] < a[j],
        forall|i: int, j: int| 0 <= i < j < b.len() ==> b[i] < b[j],
        forall|x: u32| a.contains(x) == b.contains(x),
    ensures
        a == b,
    decreases a.len(),
{
    if a.len() == 0 {
        if b.len() > 0 {
            assert(b.contains(b[0]));
        }
    } else {
        assert(a.contains(a[0]));
        assert(b.len() > 0);
        assert(b.contains(b[0]));
        let i = choose|i: int| 0 <= i < a.len() && a[i] == b[0];
        let j = choose|j: int| 0 <= j < b.len() && b[j] == a[0];
        if i > 0 {
            assert(a[0] < a[i]);
        }
        if j > 0 {
            assert(b[0] < b[j]);
        }
        assert(a[0] == b[0]);
        let a1 = a.skip(1);
        let b1 = b.skip(1);
        assert forall|x: u32| a1.contains(x) == b1.contains(x) by {
            if a1.contains(x) {
                let k = choose|k: int| 0 <= k < a1.len() && a1[k] == x;
                assert(a[k + 1] == x);
                assert(a[0] < a[k + 1]);
                assert(b.contains(x));
                let m = choose|m: int| 0 <= m < b.len() && b[m] == x;
                assert(m != 0);
                assert(b1[m - 1] == x);
            }
            if b1.contains(x) {
                let k = choose|k: int| 0 <= k < b1.len() && b1[k] == x;
                assert(b[k + 1] == x);
                assert(b[0] < b[k + 1]);
                assert(a.contains(x));
                let m = choose|m: int| 0 <= m < a.len() && a[m] == x;
                assert(m != 0);
                assert(a1[m - 1] == x);
            }
        }
        assert forall|i: int, j: int| 0 <= i < j < a1.len() implies a1[i] < a1[j] by {
            assert(a1[i] == a[i + 1] && a1[j] == a[j + 1]);
        }
        assert forall|i: int, j: int| 0 <= i < j < b1.len() implies b1[i] < b1[j] by {
            assert(b1[i] == b[i + 1] && b1[j] == b[j + 1]);
        }
        lemma_increasing_unique(a1, b1);
        assert(a =~= seq![a[0]] + a1);
        assert(b =~= seq![b[0]] + b1);
    }
}

/// The keys of a list of containers.
pub open spec fn keys(c: Conts) -> Seq<u32> {
    Seq::new(c.len(), |j: int| c[j].0)
}

/// Every key of `c` is also a key of `d` when `d` holds the same values.
proof fn lemma_keys_shared(c: Conts, d: Conts, key: u32)
    requires
        conts_ok(c),
        conts_ok(d),
        conts_set_from(c, 0) == conts_set_from(d, 0),
        keys(c).contains(key),
    ensures
        keys(d).contains(key),
{
    let j = choose|j: int| 0 <= j < keys(c).len() && keys(c)[j] == key;
    assert(c[j].0 < 0x1_0000 && local_ok(c[j].1));
    let v = c[j].1[0].0;
    assert(v <= 0xFFFF);
    assert(in_runs(c[j].1, v));
    lemma_low_value(c, j, v);
    let x = (key * 0x1_0000 + v) as u32;
    assert(conts_set_from(d, 0).contains(x));
    let i = choose|i: int| 0 <= i < d.len() && #[trigger] lift(d[i].0 as int, runs_set(d[i].1)).contains(x);
    assert(x == key * 0x1_0000 + v);
    assert(x / 0x1_0000 == key) by (nonlinear_arith)
        requires
            x == key * 0x1_0000 + v,
            v <= 0xFFFF,
    ;
    assert(keys(d)[i] == key);
}

/// Split containers are determined by the values they hold.
pub proof fn lemma_canonical_unique(c: Conts, d: Conts)
    requires
        canonical(c),
        canonical(d),
        conts_set_from(c, 0) == conts_set_from(d, 0),
    ensures
        c == d,
{
    assert forall|x: u32| keys(c).contains(x) == keys(d).contains(x) by {
        if keys(c).contains(x) {
            lemma_keys_shared(c, d, x);
        }
        if keys(d).contains(x) {
            lemma_keys_shared(d, c, x);
        }
    }
    assert forall|i: int, j: int| 0 <= i < j < keys(c).len() implies keys(c)[i] < keys(c)[j] by {
        lemma_keys_increasing(c, i, j);
    }
    assert forall|i: int, j: int| 0 <= i < j < keys(d).len() implies keys(d)[i] < keys(d)[j] by {
        lemma_keys_increasing(d, i, j);
    }
    lemma_increasing_unique(keys(c), keys(d));
    assert(c.len() == keys(c).len() && d.len() == keys(d).len());
    assert forall|j: int| 0 <= j < c.len() implies #[trigger] c[j] == d[j] by {
        assert(keys(c)[j] == keys(d)[j]);
        assert(c[j].0 < 0x1_0000 && local_ok(c[j].1));
        assert(d[j].0 < 0x1_0000 && local_ok(d[j].1));
        assert forall|v: u32| #[trigger] runs_set(c[j].1).contains(v) == runs_set(d[j].1).contains(v) by {
            if v <= 0xFFFF {
                lemma_low_value(c, j, v);
                lemma_low_value(d, j, v);
            } else {
                if runs_set(c[j].1).contains(v) {
                    let k = choose|k: int| 0 <= k < c[j].1.len() && #[trigger] c[j].1[k].0 <= v && v <= c[j].1[k].1;
                }
                if runs_set(d[j].1).contains(v) {
                    let k = choose|k: int| 0 <= k < d[j].1.len() && #[trigger] d[j].1[k].0 <= v && v <= d[j].1[k].1;
                }
            }
        }
        assert(runs_set(c[j].1) =~= runs_set(d[j].1));
        lemma_local_wf(c[j].1);
        lemma_local_wf(d[j].1);
        crate::runs::lemma_runs_canonical(c[j].1, d[j].1);
    }
    assert(c =~= d);
}

/// The split containers of a set of values.
pub open spec fn containers_of(s: Set<u32>) -> Conts {
    choose|c: Conts| canonical(c) && conts_set_from(c, 0) == s
}

/// The empty set has no containers, so none of them is stored as runs.
pub proof fn lemma_empty_no_run(runs_kept: bool)
    ensures
        !has_run(containers_of(Set::<u32>::empty()), runs_kept),
{
    let s = Set::<u32>::empty();
    lemma_containers_exist(s);
    let c = containers_of(s);
    if c.len() > 0 {
        assert(c[0].0 < 0x1_0000 && local_ok(c[0].1));
        let lr = c[0].1;
        let key = c[0].0;
        let v = lr[0].0;
        assert(lr[0].0 <= v && v <= lr[0].1 && lr[0].1 <= 0xFFFF);
        assert(runs_set(lr).contains(v));
        assert(key * 0x1_0000 + v < 0x1_0000_0000) by (nonlinear_arith)
            requires
                key < 0x1_0000,
                v <= 0xFFFF,
        ;
        let x = (key * 0x1_0000 + v) as u32;
        assert(x / 0x1_0000 == key && x % 0x1_0000 == v) by (nonlinear_arith)
            requires
                key < 0x1_0000,
                v <= 0xFFFF,
                x == key * 0x1_0000 + v,
        ;
        assert(lift(key as int, runs_set(lr)).contains(x));
        assert(conts_set_from(c, 0).contains(x));
    }
    assert forall|k: int| !#[trigger] run_bit(c, runs_kept, k) by {}
}

/// The portable serialization of a set of values, as this library writes it,
/// with or without run compression kept.
pub open spec fn portable_bytes(s: Set<u32>, runs_kept: bool) -> Seq<u8> {
    encode_conts(containers_of(s), runs_kept)
}

/// Adds the values `[s, hi]` of one run to a split state, block by block.
proof fn split_run(m: Conts, key: u32, cur: Seq<(u32, u32)>, done: Set<u32>, lo: u32, s: u32, hi: u32) -> (res: (
    Conts,
    u32,
    Seq<(u32, u32)>,
))
    requires
        lo <= s <= hi,
        split_state(m, key, cur, done.union(interval(lo as int, s - 1))),
        cur.len() > 0 ==> cont_last(key as int, cur) < s,
        cur.len() > 0 && cont_last(key as int, cur) + 1 == s ==> s % 0x1_0000 == 0,
    ensures
        split_state(res.0, res.1, res.2, done.union(interval(lo as int, hi as int))),
        res.2.len() > 0,
        cont_last(res.1 as int, res.2) == hi,
    decreases hi - s,
{
    let k = (s / 0x1_0000) as u32;
    let block_last = k * 0x1_0000 + 0xFFFF;
    let e = (if hi < block_last { hi as int } else { block_last }) as u32;
    let piece = ((s % 0x1_0000) as u32, (e % 0x1_0000) as u32);
    assert(k < 0x1_0000 && s == k * 0x1_0000 + piece.0 && e == k * 0x1_0000 + piece.1 && piece.0 <= piece.1 <= 0xFFFF)
        by (nonlinear_arith)
        requires
            k == s / 0x1_0000,
            block_last == k * 0x1_0000 + 0xFFFF,
            e == (if hi < block_last { hi as int } else { block_last }),
            s <= hi,
            piece.0 == s % 0x1_0000,
            piece.1 == e % 0x1_0000,
    ;
    let m2 = if cur.len() > 0 && k != key { m.push((key, cur)) } else { m };
    let cur2 = if cur.len() > 0 && k == key { cur.push(piece) } else { seq![piece] };
    lemma_split_step(m, key, cur, done.union(interval(lo as int, s - 1)), m2, k, cur2, s, e, piece);
    assert(done.union(interval(lo as int, s - 1)).union(interval(s as int, e as int)) =~= done.union(
        interval(lo as int, e as int),
    ));
    if e == hi {
        (m2, k, cur2)
    } else {
        assert(e == block_last);
        assert((e + 1) % 0x1_0000 == 0) by (nonlinear_arith)
            requires
                e == k * 0x1_0000 + 0xFFFF,
        ;
        split_run(m2, k, cur2, done, lo, (e + 1) as u32, hi)
    }
}

/// Splits the first `i` runs of `r` into containers.
proof fn split_prefix(r: Seq<(u32, u32)>, i: int) -> (res: (Conts, u32, Seq<(u32, u32)>))
    requires
        runs_wf(r),
        0 <= i <= r.len(),
    ensures
        split_state(res.0, res.1, res.2, runs_set(r.take(i))),
        i < r.len() && res.2.len() > 0 ==> cont_last(res.1 as int, res.2) + 1 < r[i].0,
    decreases i,
{
    if i == 0 {
        assert(runs_set(r.take(0)) =~= Set::<u32>::empty());
        (Seq::empty(), 0u32, Seq::empty())
    } else {
        let (m, key, cur) = split_prefix(r, i - 1);
        let (lo, hi) = r[i - 1];
        assert(lo <= hi);
        assert(runs_set(r.take(i - 1)).union(interval(lo as int, lo - 1)) =~= runs_set(r.take(i - 1)));
        let res = split_run(m, key, cur, runs_set(r.take(i - 1)), lo, lo, hi);
        assert(r.take(i) == r.take(i - 1).push((lo, hi)));
        crate::runs::lemma_runs_set_push(r.take(i - 1), (lo, hi));
        if i < r.len() {
            assert(r[i - 1].1 + 1 < r[i].0);
        }
        res
    }
}

/// Every set of values has split containers.
pub proof fn lemma_containers_exist(s: Set<u32>)
    ensures
        canonical(containers_of(s)),
        conts_set_from(containers_of(s), 0) == s,
{
    crate::runs::lemma_runs_exist(s);
    let r = choose|r: Seq<(u32, u32)>| runs_wf(r) && runs_set(r) == s;
    let (m, key, cur) = split_prefix(r, r.len() as int);
    assert(r.take(r.len() as int) == r);
    if cur.len() > 0 {
        lemma_split_flush(m, key, cur, s);
        assert(canonical(m.push((key, cur))));
    } else {
        assert(conts_set_from(m, 0) =~= Set::<u32>::empty());
        assert(canonical(m));
    }
}

/// Well-formed containers have distinct keys below `2^16`, so there are at most
/// `2^16` of them.
proof fn lemma_conts_len(c: Conts)
    requires
        conts_ok(c),
    ensures
        c.len() <= 0x1_0000,
{
    if c.len() > 0 {
        assert forall|j: int| 0 <= j < c.len() implies #[trigger] c[j].0 >= j by {
            lemma_key_at_least(c, j);
        }
        assert(c[c.len() - 1].0 < 0x1_0000);
    }
}

proof fn lemma_key_at_least(c: Conts, j: int)
    requires
        conts_ok(c),
        0 <= j < c.len(),
    ensures
        c[j].0 >= j,
    decreases j,
{
    if j > 0 {
        lemma_key_at_least(c, j - 1);
        assert(c[j - 1].0 < c[j].0);
    }
}

/// The split containers of any set meet the bounds of the format.
proof fn lemma_containers_bounds(s: Set<u32>)
    ensures
        containers_of(s).len() <= 0x1_0000,
        forall|j: int| 0 <= j < containers_of(s).len() ==> #[trigger] containers_of(s)[j].1.len() < 0x1_0000,
{
    lemma_containers_exist(s);
    let c = containers_of(s);
    lemma_conts_len(c);
    assert forall|j: int| 0 <= j < c.len() implies #[trigger] c[j].1.len() < 0x1_0000 by {
        assert(c[j].0 < 0x1_0000 && local_ok(c[j].1));
        lemma_local_len(c[j].1);
    }
}

/// Reading back the portable serialization of a set gives the set, and takes
/// all of its bytes, with or without run compression kept.
pub proof fn lemma_portable_roundtrip(s: Set<u32>, runs_kept: bool)
    ensures
        portable_decode(portable_bytes(s, runs_kept)) == Some((s, portable_bytes(s, runs_kept).len() as int)),
{
    lemma_portable_prefix(s, runs_kept, portable_bytes(s, runs_kept));
}

/// Whatever follows it, a portable serialization at the start of `b` reads
/// back as its set and takes exactly its bytes.
pub proof fn lemma_portable_prefix(s: Set<u32>, runs_kept: bool, b: Seq<u8>)
    requires
        at(b, 0, portable_bytes(s, runs_kept)),
    ensures
        portable_decode(b) == Some((s, portable_bytes(s, runs_kept).len() as int)),
{
    lemma_containers_exist(s);
    lemma_containers_bounds(s);
    lemma_decode_encode(containers_of(s), runs_kept, b);
}

/// Writes the portable serialization of a bitmap: its containers are stored
/// as runs where the bitmap keeps run compression and runs are smaller.
pub fn portable_serialize_into(b: &crate::bitmap::Bitmap, out: &mut Vec<u8>)
    ensures
        final(out)@ == old(out)@ + portable_bytes(b@, b.keeps_runs()),
{
    let c = split_containers(b.runs_ref());
    proof {
        lemma_containers_exist(b@);
        lemma_canonical_unique(conts_model(c@), containers_of(b@));
        lemma_conts_len(conts_model(c@));
    }
    write_containers(&c, b.run_compression(), out);
}

/// Whether the portable serialization of a bitmap stores some container as
/// runs.
pub fn portable_has_run(b: &crate::bitmap::Bitmap, runs_kept: bool) -> (r: bool)
    ensures
        r == has_run(containers_of(b@), runs_kept),
{
    let c = split_containers(b.runs_ref());
    proof {
        lemma_containers_exist(b@);
        lemma_canonical_unique(conts_model(c@), containers_of(b@));
    }
    any_run(&c, runs_kept)
}

/// The portable serialization of any set takes at most `2^34` bytes.
pub proof fn lemma_portable_len(s: Set<u32>, runs_kept: bool)
    ensures
        portable_bytes(s, runs_kept).len() <= 0x4_0000_0000,
{
    lemma_containers_exist(s);
    lemma_containers_bounds(s);
    let c = containers_of(s);
    let n = c.len() as int;
    if n > 0 {
        lemma_desc_bytes_len(c);
        lemma_offset_bytes_len(c, data_start(n), n, runs_kept);
        lemma_offset_bytes_len(c, 8 + 8 * n, n, runs_kept);
        lemma_data_bytes(c, 0, runs_kept);
        assert forall|j: int| 0 <= j < c.len() implies #[trigger] c[j].1.len() <= 0x8000 by {
            assert(c[j].0 < 0x1_0000 && local_ok(c[j].1));
            lemma_local_len(c[j].1);
        }
        lemma_data_off_bound(c, n, runs_kept);
        assert(n * 0x2_0002 <= 0x1_0000 * 0x2_0002) by (nonlinear_arith)
            requires
                n <= 0x1_0000,
        ;
    }
}

} // verus!
