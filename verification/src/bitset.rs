//! A dense bitset: bit `i` lives in bit `i % 64` of 64-bit word `i / 64`.
use crate::bitmap::{op_holds, SetOp};
use vstd::prelude::*;

verus! {

/// The largest number of words a bitset can have: its bit indices must fit
/// in a `usize`.
pub const MAX_WORDS: usize = usize::MAX / 64;

/// Bit `j` of a word.
pub open spec fn word_bit(w: u64, j: int) -> bool {
    (w >> (j as u64)) & 1u64 == 1u64
}

/// Whether bit `i` is set in a sequence of words.
pub open spec fn has_bit(words: Seq<u64>, i: int) -> bool {
    0 <= i < 64 * words.len() && word_bit(words[i / 64], i % 64)
}

/// The indices of the bits set in a sequence of words.
pub open spec fn bits_of(words: Seq<u64>) -> Set<usize> {
    Set::new(|i: usize| has_bit(words, i as int))
}

/// The indices below `n`.
pub open spec fn indices_below(n: int) -> Set<usize> {
    Set::new(|i: usize| i < n)
}

/// Setting bit `j` of a word to `v` changes that bit only.
proof fn lemma_set_word_bit(w: u64, j: u64, v: bool, k: u64)
    requires
        j < 64,
        k < 64,
    ensures
        word_bit((w & !(1u64 << j)) | ((if v { 1u64 } else { 0u64 }) << j), k as int) == if k == j {
            v
        } else {
            word_bit(w, k as int)
        },
{
    let b: u64 = if v { 1u64 } else { 0u64 };
    assert(b <= 1);
    assert(((((w & !(1u64 << j)) | (b << j)) >> k) & 1u64 == 1u64) == if k == j {
        b == 1u64
    } else {
        (w >> k) & 1u64 == 1u64
    }) by (bit_vector)
        requires
            j < 64,
            k < 64,
            b <= 1,
    ;
}

/// No bit of zero is set, and every bit of all ones is.
proof fn lemma_constant_word_bits(k: u64)
    requires
        k < 64,
    ensures
        !word_bit(0u64, k as int),
        word_bit(!0u64, k as int),
{
    assert((0u64 >> k) & 1u64 != 1u64) by (bit_vector);
    assert((!0u64 >> k) & 1u64 == 1u64) by (bit_vector)
        requires
            k < 64,
    ;
}

/// The bits of a combined word are the combined bits.
proof fn lemma_op_word_bits(a: u64, b: u64, k: u64)
    requires
        k < 64,
    ensures
        word_bit(a & b, k as int) == (word_bit(a, k as int) && word_bit(b, k as int)),
        word_bit(a | b, k as int) == (word_bit(a, k as int) || word_bit(b, k as int)),
        word_bit(a ^ b, k as int) == (word_bit(a, k as int) != word_bit(b, k as int)),
        word_bit(a & !b, k as int) == (word_bit(a, k as int) && !word_bit(b, k as int)),
{
    assert((((a & b) >> k) & 1u64 == 1u64) == (((a >> k) & 1u64 == 1u64) && ((b >> k) & 1u64 == 1u64))) by (bit_vector)
        requires
            k < 64,
    ;
    assert((((a | b) >> k) & 1u64 == 1u64) == (((a >> k) & 1u64 == 1u64) || ((b >> k) & 1u64 == 1u64))) by (bit_vector)
        requires
            k < 64,
    ;
    assert((((a ^ b) >> k) & 1u64 == 1u64) == (((a >> k) & 1u64 == 1u64) != ((b >> k) & 1u64 == 1u64))) by (bit_vector)
        requires
            k < 64,
    ;
    assert((((a & !b) >> k) & 1u64 == 1u64) == (((a >> k) & 1u64 == 1u64) && !((b >> k) & 1u64 == 1u64))) by (bit_vector)
        requires
            k < 64,
    ;
}

/// The bits of a sequence of words lie below its size in bits, so they are
/// finitely many.
proof fn lemma_bits_finite(words: Seq<u64>)
    ensures
        bits_of(words).finite(),
        bits_of(words).subset_of(indices_below(64 * words.len() as int)),
{
    assert(bits_of(words).subset_of(Set::new(|i: usize| (i as int) < 64 * words.len())));
    lemma_indices_below_finite(64 * words.len() as int);
    assert(indices_below(64 * words.len() as int) =~= Set::new(|i: usize| (i as int) < 64 * words.len()));
}

/// The indices below `n` are finitely many.
proof fn lemma_indices_below_finite(n: int)
    ensures
        indices_below(n).finite(),
    decreases if n < 0 { 0 } else { n },
{
    if n <= 0 {
        assert(indices_below(n) =~= Set::<usize>::empty());
    } else {
        lemma_indices_below_finite(n - 1);
        if n - 1 <= usize::MAX {
            assert(indices_below(n) =~= indices_below(n - 1).insert((n - 1) as usize));
        } else {
            assert(indices_below(n) =~= indices_below(n - 1));
        }
    }
}

/// A dense bitset
pub struct Bitset {
    words: Vec<u64>,
}

impl View for Bitset {
    type V = Set<usize>;

    closed spec fn view(&self) -> Set<usize> {
        bits_of(self.words@)
    }
}

impl Bitset {
    #[verifier::type_invariant]
    spec fn inv(self) -> bool {
        self.words@.len() <= MAX_WORDS
    }

    /// The words the bits are kept in.
    pub closed spec fn words(&self) -> Seq<u64> {
        self.words@
    }

    /// The bits are those of the words, so they are finitely many.
    pub proof fn lemma_words(&self)
        ensures
            self@ == bits_of(self.words()),
            self@.finite(),
    {
        lemma_bits_finite(self.words@);
    }

    /// Create a new bitset; it does not allocate
    pub fn new() -> (r: Self)
        ensures
            r.words() == Seq::<u64>::empty(),
            r@ == Set::<usize>::empty(),
    {
        let r = Bitset { words: Vec::new() };
        assert(r@ =~= Set::<usize>::empty());
        r
    }

    /// Create a new bitset of at least `size` bits, all cleared
    pub fn with_size(size: usize) -> (r: Self)
        requires
            size <= 64 * MAX_WORDS,
        ensures
            r.words().len() == size / 64 + if size % 64 == 0 { 0int } else { 1int },
            r@ == Set::<usize>::empty(),
    {
        let n = size / 64 + if size % 64 == 0 { 0 } else { 1 };
        let words = vec![0u64; n];
        let r = Bitset { words };
        proof {
            assert forall|i: usize| !#[trigger] r@.contains(i) by {
                if has_bit(r.words@, i as int) {
                    lemma_constant_word_bits((i % 64) as u64);
                }
            }
            assert(r@ =~= Set::<usize>::empty());
        }
        r
    }

    /// Access the words of the bitset
    pub fn as_slice(&self) -> (r: &[u64])
        ensures
            r@ == self.words(),
    {
        self.words.as_slice()
    }

    /// How many 64-bit words of memory the backend buffer uses
    pub fn size_in_words(&self) -> (r: usize)
        ensures
            r == self.words().len(),
    {
        self.words.len()
    }

    /// How many bytes of memory the backend buffer uses
    pub fn size_in_bytes(&self) -> (r: usize)
        ensures
            r == 8 * self.words().len(),
    {
        proof {
            use_type_invariant(self);
        }
        self.words.len() * 8
    }

    /// How many bits can be accessed
    pub fn size_in_bits(&self) -> (r: usize)
        ensures
            r == 64 * self.words().len(),
    {
        proof {
            use_type_invariant(self);
        }
        self.words.len() * 64
    }

    /// Get the value of the ith bit; bits out of bounds are cleared
    pub fn get(&self, i: usize) -> (r: bool)
        ensures
            r == self@.contains(i),
    {
        let k = i / 64;
        if k >= self.words.len() {
            return false;
        }
        let w = self.words[k];
        let j = (i % 64) as u64;
        (w >> j) & 1u64 == 1u64
    }

    /// Grows the bitset with cleared words to `n` words, if it is shorter.
    fn grow(&mut self, n: usize)
        requires
            n <= MAX_WORDS,
        ensures
            final(self).words().len() == if old(self).words().len() < n { n as int } else { old(self).words().len() as int },
            final(self)@ == old(self)@,
    {
        proof {
            use_type_invariant(&*self);
        }
        let ghost old_words = self.words@;
        let mut words: Vec<u64> = Vec::new();
        std::mem::swap(&mut words, &mut self.words);
        while words.len() < n
            invariant
                old_words.len() <= words@.len() || words@ == old_words,
                words@.len() <= if old_words.len() < n { n as int } else { old_words.len() as int },
                words@.take(old_words.len() as int) == old_words,
                forall|k: int| old_words.len() <= k < words@.len() ==> words@[k] == 0u64,
            decreases n - words@.len(),
        {
            words.push(0u64);
        }
        proof {
            assert(words@.take(old_words.len() as int) == old_words);
            assert forall|i: usize| #[trigger] bits_of(words@).contains(i) == bits_of(old_words).contains(i) by {
                let k = i / 64;
                if i < 64 * words@.len() && i >= 64 * old_words.len() {
                    lemma_constant_word_bits((i % 64) as u64);
                }
                if i < 64 * old_words.len() {
                    assert(words@[i as int / 64] == words@.take(old_words.len() as int)[i as int / 64]);
                }
            }
            assert(bits_of(words@) =~= bits_of(old_words));
        }
        self.words = words;
    }

    /// Set the ith bit to `value`; the bitset grows with cleared bits as
    /// needed
    pub fn set_to_value(&mut self, i: usize, value: bool)
        requires
            i / 64 < MAX_WORDS,
        ensures
            final(self)@ == if value { old(self)@.insert(i) } else { old(self)@.remove(i) },
            final(self).words().len() == if old(self).words().len() <= i / 64 {
                i / 64 + 1
            } else {
                old(self).words().len() as int
            },
    {
        let k = i / 64;
        if k >= self.words.len() {
            self.grow(k + 1);
        }
        proof {
            use_type_invariant(&*self);
        }
        let ghost before = self.words@;
        let ghost bits_before = self@;
        let j = (i % 64) as u64;
        let w = self.words[k];
        let b: u64 = if value { 1u64 } else { 0u64 };
        let nw = (w & !(1u64 << j)) | (b << j);
        let mut words: Vec<u64> = Vec::new();
        std::mem::swap(&mut words, &mut self.words);
        words.set(k, nw);
        proof {
            assert forall|x: usize| #[trigger] bits_of(words@).contains(x) == if value {
                bits_before.insert(i).contains(x)
            } else {
                bits_before.remove(i).contains(x)
            } by {
                if x < 64 * words@.len() {
                    if x / 64 == k {
                        lemma_set_word_bit(w, j, value, (x % 64) as u64);
                        if x % 64 == j {
                            assert(x == i);
                        } else {
                            assert(x != i);
                        }
                    } else {
                        assert(words@[x as int / 64] == before[x as int / 64]);
                        assert(x != i);
                    }
                } else {
                    assert(x != i);
                }
            }
            assert(bits_of(words@) =~= if value {
                bits_before.insert(i)
            } else {
                bits_before.remove(i)
            });
        }
        self.words = words;
    }

    /// Set the ith bit; the bitset grows with cleared bits as needed
    pub fn set(&mut self, i: usize)
        requires
            i / 64 < MAX_WORDS,
        ensures
            final(self)@ == old(self)@.insert(i),
            final(self).words().len() == if old(self).words().len() <= i / 64 {
                i / 64 + 1
            } else {
                old(self).words().len() as int
            },
    {
        self.set_to_value(i, true);
    }

    /// Set all bits to `value`; the size stays the same
    pub fn fill(&mut self, value: bool)
        ensures
            final(self).words().len() == old(self).words().len(),
            final(self)@ == if value { indices_below(64 * old(self).words().len() as int) } else { Set::<usize>::empty() },
    {
        proof {
            use_type_invariant(&*self);
        }
        let n = self.words.len();
        let fill: u64 = if value { !0u64 } else { 0u64 };
        let mut words = vec![fill; n];
        let ghost target = if value { indices_below(64 * n) } else { Set::<usize>::empty() };
        proof {
            assert forall|x: usize| #[trigger] bits_of(words@).contains(x) == target.contains(x) by {
                if x < 64 * n {
                    lemma_constant_word_bits((x % 64) as u64);
                }
            }
            assert(bits_of(words@) =~= target);
        }
        self.words = words;
    }

    /// Count of number of set bits
    pub fn count(&self) -> (r: usize)
        ensures
            r == self@.len(),
    {
        proof {
            use_type_invariant(self);
        }
        let total = self.words.len() * 64;
        let mut c: usize = 0;
        let mut i: usize = 0;
        assert(self@.filter(|x: usize| x < 0) =~= Set::<usize>::empty());
        while i < total
            invariant
                total == 64 * self.words@.len(),
                i <= total,
                c == self@.filter(|x: usize| x < i).len(),
                c <= i,
            decreases total - i,
        {
            proof {
                self.lemma_words();
                let before = self@.filter(|x: usize| x < i);
                let after = self@.filter(|x: usize| x < i + 1);
                if self@.contains(i) {
                    assert(after =~= before.insert(i));
                } else {
                    assert(after =~= before);
                }
                vstd::set_lib::lemma_len_subset(before, self@);
            }
            if self.get(i) {
                c = c + 1;
            }
            i = i + 1;
        }
        proof {
            assert(self@.filter(|x: usize| x < i) =~= self@);
        }
        c
    }

    /// Index of the first set bit, or zero if the bitset has no set bits
    pub fn minimum(&self) -> (r: usize)
        ensures
            self@ == Set::<usize>::empty() ==> r == 0,
            self@ != Set::<usize>::empty() ==> self@.contains(r) && forall|y: usize| #[trigger] self@.contains(y) ==> r <= y,
    {
        proof {
            use_type_invariant(self);
        }
        let total = self.words.len() * 64;
        let mut i: usize = 0;
        while i < total
            invariant
                total == 64 * self.words@.len(),
                i <= total,
                forall|y: usize| #[trigger] self@.contains(y) ==> i <= y,
            decreases total - i,
        {
            if self.get(i) {
                return i;
            }
            i = i + 1;
        }
        proof {
            assert(self@ =~= Set::<usize>::empty());
        }
        0
    }

    /// Index of the last set bit, or zero if the bitset has no set bits
    pub fn maximum(&self) -> (r: usize)
        ensures
            self@ == Set::<usize>::empty() ==> r == 0,
            self@ != Set::<usize>::empty() ==> self@.contains(r) && forall|y: usize| #[trigger] self@.contains(y) ==> y <= r,
    {
        proof {
            use_type_invariant(self);
        }
        let mut i: usize = self.words.len() * 64;
        while i > 0
            invariant
                i <= 64 * self.words@.len(),
                forall|y: usize| #[trigger] self@.contains(y) ==> y < i,
            decreases i,
        {
            if self.get(i - 1) {
                return i - 1;
            }
            i = i - 1;
        }
        proof {
            assert(self@ =~= Set::<usize>::empty());
        }
        0
    }
}

/// The indices that `op` keeps from the bits of `a` and `b`.
pub open spec fn op_bits(op: SetOp, a: Set<usize>, b: Set<usize>) -> Set<usize> {
    Set::new(|i: usize| op_holds(op, a.contains(i), b.contains(i)))
}

/// The four combinations of bit sets, as set operations.
proof fn lemma_op_bits(a: Set<usize>, b: Set<usize>)
    ensures
        op_bits(SetOp::And, a, b) == a.intersect(b),
        op_bits(SetOp::Or, a, b) == a.union(b),
        op_bits(SetOp::Xor, a, b) == a.difference(b).union(b.difference(a)),
        op_bits(SetOp::AndNot, a, b) == a.difference(b),
{
    assert(op_bits(SetOp::And, a, b) =~= a.intersect(b));
    assert(op_bits(SetOp::Or, a, b) =~= a.union(b));
    assert(op_bits(SetOp::Xor, a, b) =~= a.difference(b).union(b.difference(a)));
    assert(op_bits(SetOp::AndNot, a, b) =~= a.difference(b));
}

/// Iterator over the set bits of a bitset, in increasing order
pub struct BitsetIterator<'a> {
    bitset: &'a Bitset,
    current: usize,
}

impl<'a> BitsetIterator<'a> {
    /// The bits walked over.
    pub closed spec fn bits(&self) -> Set<usize> {
        self.bitset@
    }

    /// The index from which the next set bit is looked for.
    pub closed spec fn from(&self) -> int {
        self.current as int
    }

    /// The next set bit, if any; the iterator then moves past it.
    pub fn next(&mut self) -> (r: Option<usize>)
        ensures
            final(self).bits() == old(self).bits(),
            match r {
                None => final(self).from() == old(self).from() && forall|y: usize| #[trigger] old(self).bits().contains(y)
                    ==> y < old(self).from(),
                Some(v) => old(self).bits().contains(v) && old(self).from() <= v && final(self).from() == v + 1
                    && forall|y: usize| #[trigger] old(self).bits().contains(y) && old(self).from() <= y ==> v <= y,
            },
    {
        let bs = self.bitset;
        proof {
            use_type_invariant(bs);
        }
        let total = bs.words.len() * 64;
        let start = self.current;
        let mut i = start;
        let mut found = false;
        while i < total
            invariant_except_break
                !found,
            invariant
                total == 64 * bs.words@.len(),
                start <= i || total <= i,
                forall|y: usize| #[trigger] bs@.contains(y) && start <= y && y < i ==> false,
                found ==> bs@.contains(i) && start <= i,
            ensures
                found ==> bs@.contains(i) && start <= i && i < total,
                !found ==> forall|y: usize| #[trigger] bs@.contains(y) ==> y < start,
            decreases total - i,
        {
            if bs.get(i) {
                found = true;
                break;
            }
            i = i + 1;
        }
        if found {
            self.current = i + 1;
            Some(i)
        } else {
            None
        }
    }
}

/// `q` lists, in increasing order, the least bits of `s` from `from` on: every
/// bit of `s` from `from` up to the last one listed is listed.
pub open spec fn next_bits(s: Set<usize>, from: int, q: Seq<usize>) -> bool {
    &&& forall|i: int, j: int| 0 <= i < j < q.len() ==> q[i] < q[j]
    &&& forall|i: int| 0 <= i < q.len() ==> s.contains(#[trigger] q[i]) && from <= q[i]
    &&& forall|y: usize| #[trigger] s.contains(y) && from <= y && q.len() > 0 && y <= q.last() ==> q.contains(y)
}

impl<'a> BitsetIterator<'a> {
    /// Reads the next set bits into `buffer`, until it is full or the bits run
    /// out; returns how many were read.
    pub fn next_set_bits(&mut self, buffer: &mut [usize]) -> (r: usize)
        ensures
            final(self).bits() == old(self).bits(),
            r <= old(buffer)@.len(),
            final(buffer)@.len() == old(buffer)@.len(),
            forall|i: int| r <= i < old(buffer)@.len() ==> #[trigger] final(buffer)@[i] == old(buffer)@[i],
            next_bits(old(self).bits(), old(self).from(), final(buffer)@.take(r as int)),
            r < old(buffer)@.len() ==> forall|y: usize| #[trigger] old(self).bits().contains(y) && old(self).from() <= y
                ==> final(buffer)@.take(r as int).contains(y),
            r > 0 ==> final(self).from() == final(buffer)@[r - 1] + 1,
    {
        let ghost s = self.bits();
        let ghost f0 = self.from();
        let mut n: usize = 0;
        let mut done = false;
        proof {
            assert(buffer@.take(0) =~= Seq::<usize>::empty());
        }
        while n < buffer.len() && !done
            invariant
                self.bits() == s,
                n <= buffer@.len(),
                buffer@.len() == old(buffer)@.len(),
                forall|j: int| n <= j < old(buffer)@.len() ==> #[trigger] buffer@[j] == old(buffer)@[j],
                next_bits(s, f0, buffer@.take(n as int)),
                n > 0 ==> self.from() == buffer@[n - 1] + 1,
                n == 0 ==> self.from() == f0,
                forall|y: usize| #[trigger] s.contains(y) && f0 <= y && y < self.from() ==> buffer@.take(n as int).contains(y),
                done ==> forall|y: usize| #[trigger] s.contains(y) && f0 <= y ==> buffer@.take(n as int).contains(y),
            decreases buffer@.len() - n + (if done { 0int } else { 1int }),
        {
            let ghost before = buffer@.take(n as int);
            let ghost from_before = self.from();
            match self.next() {
                Some(v) => {
                    buffer[n] = v;
                    n = n + 1;
                    proof {
                        let t = buffer@.take(n as int);
                        assert(t =~= before.push(v));
                        assert forall|i: int| 0 <= i < before.len() implies before[i] < v by {
                            assert(s.contains(before[i]));
                            if before.len() > 0 {
                                assert(before[i] <= before.last());
                            }
                        }
                        assert forall|y: usize| #[trigger] s.contains(y) && f0 <= y && y < self.from() implies t.contains(y) by {
                            if y < from_before {
                                assert(before.contains(y));
                                let k = choose|k: int| 0 <= k < before.len() && before[k] == y;
                                assert(t[k] == y);
                            } else {
                                assert(y == v);
                                assert(t[before.len() as int] == y);
                            }
                        }
                        assert forall|y: usize| #[trigger] s.contains(y) && f0 <= y && t.len() > 0 && y <= t.last() implies t.contains(y) by {
                            if y < from_before {
                                assert(before.contains(y));
                                let k = choose|k: int| 0 <= k < before.len() && before[k] == y;
                                assert(t[k] == y);
                            } else {
                                assert(y == v);
                                assert(t[before.len() as int] == y);
                            }
                        }
                    }
                },
                None => {
                    done = true;
                },
            }
        }
        n
    }
}

impl Bitset {
    /// Returns an iterator over the set bits in the bitset
    pub fn iter(&self) -> (r: BitsetIterator<'_>)
        ensures
            r.bits() == self@,
            r.from() == 0,
    {
        BitsetIterator { bitset: self, current: 0 }
    }

    /// The number of indices that `op` keeps from the bits of both bitsets.
    fn count_op(&self, other: &Self, op: SetOp) -> (r: usize)
        ensures
            r == op_bits(op, self@, other@).len(),
    {
        proof {
            use_type_invariant(self);
            use_type_invariant(other);
            self.lemma_words();
            other.lemma_words();
        }
        let total = if self.words.len() < other.words.len() {
            other.words.len() * 64
        } else {
            self.words.len() * 64
        };
        let ghost target = op_bits(op, self@, other@);
        proof {
            assert(target.subset_of(self@.union(other@)));
            vstd::set_lib::lemma_len_subset(target, self@.union(other@));
        }
        let mut c: usize = 0;
        let mut i: usize = 0;
        assert(target.filter(|x: usize| x < 0) =~= Set::<usize>::empty());
        while i < total
            invariant
                target == op_bits(op, self@, other@),
                target.finite(),
                total >= 64 * self.words@.len() && total >= 64 * other.words@.len(),
                i <= total,
                c == target.filter(|x: usize| x < i).len(),
                c <= i,
            decreases total - i,
        {
            proof {
                let before = target.filter(|x: usize| x < i);
                let after = target.filter(|x: usize| x < i + 1);
                if target.contains(i) {
                    assert(after =~= before.insert(i));
                } else {
                    assert(after =~= before);
                }
                vstd::set_lib::lemma_len_subset(before, target);
            }
            let a = self.get(i);
            let b = other.get(i);
            let keep = match op {
                SetOp::And => a && b,
                SetOp::Or => a || b,
                SetOp::Xor => a != b,
                SetOp::AndNot => a && !b,
            };
            if keep {
                c = c + 1;
            }
            i = i + 1;
        }
        proof {
            assert(target.filter(|x: usize| x < i) =~= target);
        }
        c
    }

    /// The size of the hypothetical union of `self` and `other`
    pub fn union_count(&self, other: &Self) -> (r: usize)
        ensures
            r == self@.union(other@).len(),
    {
        proof {
            lemma_op_bits(self@, other@);
        }
        self.count_op(other, SetOp::Or)
    }

    /// The size of the hypothetical intersection of `self` and `other`
    pub fn intersection_count(&self, other: &Self) -> (r: usize)
        ensures
            r == self@.intersect(other@).len(),
    {
        proof {
            lemma_op_bits(self@, other@);
        }
        self.count_op(other, SetOp::And)
    }

    /// The size of the hypothetical difference of `self` and `other`
    pub fn difference_count(&self, other: &Self) -> (r: usize)
        ensures
            r == self@.difference(other@).len(),
    {
        proof {
            lemma_op_bits(self@, other@);
        }
        self.count_op(other, SetOp::AndNot)
    }

    /// The size of the hypothetical symmetric difference (xor) of `self` and
    /// `other`
    pub fn symmetric_difference_count(&self, other: &Self) -> (r: usize)
        ensures
            r == self@.difference(other@).union(other@.difference(self@)).len(),
    {
        proof {
            lemma_op_bits(self@, other@);
        }
        self.count_op(other, SetOp::Xor)
    }

    /// Return true if `self` and `other` contain no common elements
    pub fn is_disjoint(&self, other: &Self) -> (r: bool)
        ensures
            r == self@.disjoint(other@),
    {
        let n = self.intersection_count(other);
        proof {
            self.lemma_words();
            if n == 0 {
                assert forall|x: usize| self@.contains(x) implies !other@.contains(x) by {
                    if other@.contains(x) {
                        assert(self@.intersect(other@).contains(x));
                    }
                }
            } else {
                let common = self@.intersect(other@);
                assert(common.finite());
                assert(common.contains(common.choose()));
            }
        }
        n == 0
    }

    /// Return true if `self` and `other` contain at least one common element
    pub fn has_intersect(&self, other: &Self) -> (r: bool)
        ensures
            r == !self@.disjoint(other@),
    {
        !self.is_disjoint(other)
    }

    /// Return true if `self` is a superset of `other`
    pub fn is_superset(&self, other: &Self) -> (r: bool)
        ensures
            r == other@.subset_of(self@),
    {
        let n = other.difference_count(self);
        proof {
            other.lemma_words();
            if n == 0 {
                assert forall|x: usize| other@.contains(x) implies self@.contains(x) by {
                    if !self@.contains(x) {
                        assert(other@.difference(self@).contains(x));
                    }
                }
            } else {
                let missing = other@.difference(self@);
                assert(missing.finite());
                assert(missing.contains(missing.choose()));
            }
        }
        n == 0
    }

    /// Combines the bits of `other` into the bitset word by word. A union or
    /// symmetric difference grows the bitset to the longer of the two.
    fn combine_inplace(&mut self, other: &Self, op: SetOp)
        ensures
            final(self)@ == op_bits(op, old(self)@, other@),
            final(self).words().len() == if (op is Or || op is Xor) && old(self).words().len() < other.words().len() {
                other.words().len() as int
            } else {
                old(self).words().len() as int
            },
    {
        proof {
            use_type_invariant(other);
        }
        let grows = match op {
            SetOp::Or | SetOp::Xor => true,
            _ => false,
        };
        if grows {
            self.grow(other.words.len());
        }
        proof {
            use_type_invariant(&*self);
        }
        let ghost g = self.words@;
        let ghost gb = self@;
        let ghost ob = other@;
        let mut words: Vec<u64> = Vec::new();
        std::mem::swap(&mut words, &mut self.words);
        let n = words.len();
        let mut k: usize = 0;
        while k < n
            invariant
                n == words@.len(),
                n == g.len(),
                (op is Or || op is Xor) ==> other.words@.len() <= n,
                gb == bits_of(g),
                ob == bits_of(other.words@),
                k <= n,
                forall|i: usize| #[trigger] has_bit(words@, i as int) && (i as int) < 64 * k ==> op_holds(
                    op,
                    has_bit(g, i as int),
                    has_bit(other.words@, i as int),
                ),
                forall|i: usize| (i as int) < 64 * k ==> op_holds(op, has_bit(g, i as int), has_bit(other.words@, i as int))
                    ==> #[trigger] has_bit(words@, i as int),
                forall|q: int| k <= q < n ==> #[trigger] words@[q] == g[q],
            decreases n - k,
        {
            let a = words[k];
            let b = if k < other.words.len() {
                other.words[k]
            } else {
                0u64
            };
            let w = match op {
                SetOp::And => a & b,
                SetOp::Or => a | b,
                SetOp::Xor => a ^ b,
                SetOp::AndNot => a & !b,
            };
            let ghost before = words@;
            words.set(k, w);
            proof {
                assert forall|i: usize| (i as int) < 64 * (k + 1) implies #[trigger] has_bit(words@, i as int) == op_holds(
                    op,
                    has_bit(g, i as int),
                    has_bit(other.words@, i as int),
                ) by {
                    if (i as int) < 64 * k {
                        assert(words@[i as int / 64] == before[i as int / 64]);
                        assert(has_bit(words@, i as int) == has_bit(before, i as int));
                    } else {
                        let j = (i % 64) as u64;
                        assert(i / 64 == k);
                        lemma_op_word_bits(a, b, j);
                        if k >= other.words@.len() {
                            lemma_constant_word_bits(j);
                        }
                    }
                }
                assert forall|q: int| k + 1 <= q < n implies #[trigger] words@[q] == g[q] by {
                    assert(words@[q] == before[q]);
                }
            }
            k = k + 1;
        }
        proof {
            assert forall|i: usize| #[trigger] bits_of(words@).contains(i) == op_bits(op, gb, ob).contains(i) by {
                if (i as int) < 64 * n {
                    assert(has_bit(words@, i as int) == op_holds(op, has_bit(g, i as int), has_bit(other.words@, i as int)));
                } else {
                    assert(!has_bit(g, i as int));
                    if op is Or || op is Xor {
                        assert(!has_bit(other.words@, i as int));
                    }
                }
            }
            assert(bits_of(words@) =~= op_bits(op, gb, ob));
        }
        self.words = words;
    }

    /// Adds the bits of `other`, growing to the longer of the two
    pub fn union_inplace(&mut self, other: &Self)
        ensures
            final(self)@ == old(self)@.union(other@),
            final(self).words().len() == if old(self).words().len() < other.words().len() {
                other.words().len() as int
            } else {
                old(self).words().len() as int
            },
    {
        proof {
            lemma_op_bits(self@, other@);
        }
        self.combine_inplace(other, SetOp::Or);
    }

    /// Keeps the bits that are also in `other`; the size stays the same
    pub fn intersection_inplace(&mut self, other: &Self)
        ensures
            final(self)@ == old(self)@.intersect(other@),
            final(self).words().len() == old(self).words().len(),
    {
        proof {
            lemma_op_bits(self@, other@);
        }
        self.combine_inplace(other, SetOp::And);
    }

    /// Removes the bits of `other`; the size stays the same
    pub fn difference_inplace(&mut self, other: &Self)
        ensures
            final(self)@ == old(self)@.difference(other@),
            final(self).words().len() == old(self).words().len(),
    {
        proof {
            lemma_op_bits(self@, other@);
        }
        self.combine_inplace(other, SetOp::AndNot);
    }

    /// Keeps the bits in exactly one of the two, growing to the longer of
    /// the two
    pub fn symmetric_difference_inplace(&mut self, other: &Self)
        ensures
            final(self)@ == old(self)@.difference(other@).union(other@.difference(old(self)@)),
            final(self).words().len() == if old(self).words().len() < other.words().len() {
                other.words().len() as int
            } else {
                old(self).words().len() as int
            },
    {
        proof {
            lemma_op_bits(self@, other@);
        }
        self.combine_inplace(other, SetOp::Xor);
    }
}

impl Bitset {
    /// Capacity in bits: at least the size in bits; how much more depends on
    /// the allocator.
    pub fn capacity(&self) -> (r: usize)
        ensures
            r >= 64 * self.words().len(),
    {
        proof {
            use_type_invariant(self);
        }
        let words = crate::bitmap::vec_capacity(&self.words);
        match words.checked_mul(64) {
            Some(bits) => bits,
            None => usize::MAX,
        }
    }

    /// Resize the bitset to contain `new_array_size` 64-bit words; new bits
    /// are set to `value`
    pub fn resize_words(&mut self, new_array_size: usize, value: bool)
        requires
            new_array_size <= MAX_WORDS,
        ensures
            final(self).words().len() == new_array_size,
            forall|i: usize| #[trigger] final(self)@.contains(i) == if (i as int) < 64 * old(self).words().len() && (i as int)
                < 64 * new_array_size {
                old(self)@.contains(i)
            } else {
                (i as int) < 64 * new_array_size && value
            },
    {
        let ghost old_words = self.words@;
        let mut words: Vec<u64> = Vec::new();
        std::mem::swap(&mut words, &mut self.words);
        let fill: u64 = if value {
            !0u64
        } else {
            0u64
        };
        if new_array_size <= words.len() {
            words.truncate(new_array_size);
        } else {
            while words.len() < new_array_size
                invariant
                    old_words.len() <= words@.len() <= new_array_size,
                    words@.take(old_words.len() as int) == old_words,
                    forall|k: int| old_words.len() <= k < words@.len() ==> words@[k] == fill,
                decreases new_array_size - words@.len(),
            {
                words.push(fill);
            }
        }
        proof {
            assert forall|i: usize| #[trigger] has_bit(words@, i as int) == if (i as int) < 64 * old_words.len() && (i as int)
                < 64 * new_array_size {
                has_bit(old_words, i as int)
            } else {
                (i as int) < 64 * new_array_size && value
            } by {
                let q = i as int / 64;
                if (i as int) < 64 * new_array_size {
                    if (i as int) < 64 * old_words.len() {
                        if new_array_size > old_words.len() {
                            assert(words@[q] == words@.take(old_words.len() as int)[q]);
                        }
                    } else {
                        lemma_constant_word_bits((i % 64) as u64);
                    }
                }
            }
        }
        self.words = words;
    }

    /// Releases the words after the last one holding a set bit
    pub fn shrink_to_fit(&mut self)
        ensures
            final(self)@ == old(self)@,
            final(self).words() == old(self).words().take(final(self).words().len() as int),
            final(self).words().len() > 0 ==> final(self).words().last() != 0u64,
    {
        proof {
            use_type_invariant(&*self);
        }
        let ghost old_words = self.words@;
        let mut words: Vec<u64> = Vec::new();
        std::mem::swap(&mut words, &mut self.words);
        while words.len() > 0 && words[words.len() - 1] == 0u64
            invariant
                words@.len() <= old_words.len(),
                words@ == old_words.take(words@.len() as int),
                forall|k: int| words@.len() <= k < old_words.len() ==> old_words[k] == 0u64,
            decreases words@.len(),
        {
            words.pop();
        }
        proof {
            assert forall|i: usize| #[trigger] has_bit(words@, i as int) == has_bit(old_words, i as int) by {
                if (i as int) < 64 * words@.len() {
                    assert(words@[i as int / 64] == old_words[i as int / 64]);
                } else if (i as int) < 64 * old_words.len() {
                    lemma_constant_word_bits((i % 64) as u64);
                }
            }
            assert(bits_of(words@) =~= bits_of(old_words));
        }
        crate::bitmap::vec_shrink_to_fit(&mut words);
        self.words = words;
    }

    /// Sets the given bits
    pub fn extend(&mut self, values: &[usize])
        requires
            forall|k: int| 0 <= k < values@.len() ==> #[trigger] values@[k] / 64 < MAX_WORDS,
        ensures
            final(self)@ == old(self)@.union(values@.to_set()),
    {
        let mut k: usize = 0;
        while k < values.len()
            invariant
                forall|k: int| 0 <= k < values@.len() ==> #[trigger] values@[k] / 64 < MAX_WORDS,
                k <= values@.len(),
                self@ == old(self)@.union(values@.take(k as int).to_set()),
            decreases values@.len() - k,
        {
            self.set(values[k]);
            proof {
                assert(values@.take(k + 1) == values@.take(k as int).push(values@[k as int]));
                values@.take(k as int).lemma_push_to_set_commute(values@[k as int]);
                assert(self@ =~= old(self)@.union(values@.take(k + 1).to_set()));
            }
            k = k + 1;
        }
        assert(values@.take(values@.len() as int) == values@);
    }

    /// A bitset with exactly the given bits set
    pub fn of(values: &[usize]) -> (r: Self)
        requires
            forall|k: int| 0 <= k < values@.len() ==> #[trigger] values@[k] / 64 < MAX_WORDS,
        ensures
            r@ == values@.to_set(),
    {
        let mut r = Bitset::new();
        r.extend(values);
        assert(Set::<usize>::empty().union(values@.to_set()) =~= values@.to_set());
        r
    }
}

impl Clone for Bitset {
    fn clone(&self) -> (r: Self)
        ensures
            r.words() == self.words(),
            r@ == self@,
    {
        proof {
            use_type_invariant(self);
        }
        let mut words: Vec<u64> = Vec::new();
        let mut k: usize = 0;
        while k < self.words.len()
            invariant
                k <= self.words@.len(),
                words@ == self.words@.take(k as int),
            decreases self.words@.len() - k,
        {
            words.push(self.words[k]);
            assert(self.words@.take(k + 1) == self.words@.take(k as int).push(self.words@[k as int]));
            k = k + 1;
        }
        assert(self.words@.take(self.words@.len() as int) == self.words@);
        Bitset { words }
    }
}

impl Default for Bitset {
    fn default() -> (r: Self)
        ensures
            r@ == Set::<usize>::empty(),
    {
        Bitset::new()
    }
}

/// The `usize` indices of the values of a set of `u32` values.
pub open spec fn as_indices(s: Set<u32>) -> Set<usize> {
    Set::new(|i: usize| i <= u32::MAX && s.contains(i as u32))
}

impl crate::bitmap::Bitmap {
    /// A bitset with the bits of the bitmap's values set; `None` when the
    /// largest value is too large for a bitset on this machine
    pub fn to_bitset(&self) -> (r: Option<Bitset>)
        ensures
            r is None <==> exists|v: u32| #[trigger] self@.contains(v) && (v as usize) / 64 >= MAX_WORDS,
            r matches Some(b) ==> b@ == as_indices(self@),
    {
        let values = self.to_vec();
        let mut out = Bitset::new();
        let mut k: usize = 0;
        while k < values.len()
            invariant
                k <= values@.len(),
                forall|x: u32| #[trigger] values@.contains(x) <==> self@.contains(x),
                forall|j: int| 0 <= j < k ==> (values@[j] as usize) / 64 < MAX_WORDS,
                out@ == as_indices(values@.take(k as int).to_set()),
            decreases values@.len() - k,
        {
            let v = values[k] as usize;
            if v / 64 >= MAX_WORDS {
                proof {
                    assert(values@.contains(values@[k as int]));
                }
                return None;
            }
            out.set(v);
            proof {
                assert(values@.take(k + 1) == values@.take(k as int).push(values@[k as int]));
                values@.take(k as int).lemma_push_to_set_commute(values@[k as int]);
                assert(out@ =~= as_indices(values@.take(k + 1).to_set()));
            }
            k = k + 1;
        }
        proof {
            assert(values@.take(values@.len() as int) == values@);
            assert(values@.to_set() =~= self@);
            assert forall|v: u32| !(#[trigger] self@.contains(v) && (v as usize) / 64 >= MAX_WORDS) by {
                if self@.contains(v) {
                    assert(values@.contains(v));
                    let j = choose|j: int| 0 <= j < values@.len() && values@[j] == v;
                }
            }
        }
        Some(out)
    }
}

} // verus!
