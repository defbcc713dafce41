//! A bit-set over token ids, stored as 32-bit words.
use vstd::prelude::*;

use crate::TokenId;

verus! {

/// Whether bit `k` of word `w` is set.
pub open spec fn bit_of(w: u32, k: u32) -> bool {
    (w >> k) & 1u32 == 1u32
}

proof fn lemma_bit_zero(k: u32)
    requires
        k < 32,
    ensures
        !bit_of(0u32, k),
{
    assert((0u32 >> k) & 1u32 == 0u32) by (bit_vector);
}

proof fn lemma_bit_set(w: u32, k: u32, j: u32)
    requires
        k < 32,
        j < 32,
    ensures
        bit_of(w | (1u32 << k), j) == (j == k || bit_of(w, j)),
{
    assert((((w | (1u32 << k)) >> j) & 1u32 == 1u32) == (j == k || (w >> j) & 1u32 == 1u32))
        by (bit_vector)
        requires
            k < 32,
            j < 32,
    ;
}

proof fn lemma_bit_clear(w: u32, k: u32, j: u32)
    requires
        k < 32,
        j < 32,
    ensures
        bit_of(w & !(1u32 << k), j) == (j != k && bit_of(w, j)),
{
    assert((((w & !(1u32 << k)) >> j) & 1u32 == 1u32) == (j != k && (w >> j) & 1u32 == 1u32))
        by (bit_vector)
        requires
            k < 32,
            j < 32,
    ;
}

proof fn lemma_bit_or(a: u32, b: u32, j: u32)
    requires
        j < 32,
    ensures
        bit_of(a | b, j) == (bit_of(a, j) || bit_of(b, j)),
{
    assert((((a | b) >> j) & 1u32 == 1u32) == ((a >> j) & 1u32 == 1u32 || (b >> j) & 1u32
        == 1u32)) by (bit_vector)
        requires
            j < 32,
    ;
}

proof fn lemma_bit_and(a: u32, b: u32, j: u32)
    requires
        j < 32,
    ensures
        bit_of(a & b, j) == (bit_of(a, j) && bit_of(b, j)),
{
    assert((((a & b) >> j) & 1u32 == 1u32) == ((a >> j) & 1u32 == 1u32 && (b >> j) & 1u32
        == 1u32)) by (bit_vector)
        requires
            j < 32,
    ;
}

/// Whether bit `k` of byte `w` is set.
pub open spec fn bit8(w: u8, k: u8) -> bool {
    (w >> k) & 1u8 == 1u8
}

proof fn lemma_bit8_zero(k: u8)
    requires
        k < 8,
    ensures
        !bit8(0u8, k),
{
    assert((0u8 >> k) & 1u8 == 0u8) by (bit_vector)
        requires
            k < 8,
    ;
}

proof fn lemma_bit8_set(w: u8, k: u8, j: u8)
    requires
        k < 8,
        j < 8,
    ensures
        bit8(w | (1u8 << k), j) == (j == k || bit8(w, j)),
{
    assert((((w | (1u8 << k)) >> j) & 1u8 == 1u8) == (j == k || (w >> j) & 1u8 == 1u8))
        by (bit_vector)
        requires
            k < 8,
            j < 8,
    ;
}

/// Number of `true` entries in a sequence of flags.
pub open spec fn count_true(s: Seq<bool>) -> nat
    decreases s.len(),
{
    if s.len() == 0 {
        0
    } else {
        count_true(s.drop_last()) + if s.last() {
            1nat
        } else {
            0nat
        }
    }
}

/// A set of token ids drawn from `0..len`, one bit per id.
#[derive(Clone)]
pub struct TokenSet {
    words: Vec<u32>,
    size: usize,
}

impl TokenSet {
    /// Well-formed: exactly enough words for `size` bits.
    pub closed spec fn wf(&self) -> bool {
        &&& self.words@.len() == (self.size as int + 31) / 32
    }

    closed spec fn has(&self, t: int) -> bool {
        bit_of(self.words@[t / 32], (t % 32) as u32)
    }

    /// The set as one flag per id of the domain.
    pub closed spec fn view(&self) -> Seq<bool> {
        Seq::new(self.size as nat, |t: int| self.has(t))
    }

    /// An empty set over the ids `0..size`.
    pub fn new(size: usize) -> (r: TokenSet)
        ensures
            r.wf(),
            r@ == Seq::new(size as nat, |t: int| false),
    {
        let n: usize = size / 32 + if size % 32 == 0 {
            0usize
        } else {
            1usize
        };
        let mut words: Vec<u32> = Vec::new();
        while words.len() < n
            invariant
                words@.len() <= n,
                forall|i: int| 0 <= i < words@.len() ==> words@[i] == 0u32,
            decreases n - words@.len(),
        {
            words.push(0u32);
        }
        let r = TokenSet { words, size };
        assert forall|t: int| 0 <= t < size implies !r.has(t) by {
            lemma_bit_zero((t % 32) as u32);
        }
        assert(r@ =~= Seq::new(size as nat, |t: int| false));
        r
    }

    /// Size of the id domain.
    pub fn len(&self) -> (r: usize)
        ensures
            r == self@.len(),
    {
        self.size
    }

    /// Whether `t` is in the set.
    pub fn is_allowed(&self, t: TokenId) -> (r: bool)
        requires
            self.wf(),
            t < self@.len(),
        ensures
            r == self@[t as int],
    {
        self.get(t as usize)
    }

    fn get(&self, t: usize) -> (r: bool)
        requires
            self.wf(),
            t < self@.len(),
        ensures
            r == self@[t as int],
    {
        let w = self.words[t / 32];
        (w >> ((t % 32) as u32)) & 1u32 == 1u32
    }

    /// Adds `t` to the set.
    pub fn allow_token(&mut self, t: TokenId)
        requires
            old(self).wf(),
            t < old(self)@.len(),
        ensures
            final(self).wf(),
            final(self)@ == old(self)@.update(t as int, true),
    {
        self.set_flag(t, true);
    }

    /// Removes `t` from the set.
    pub fn disallow_token(&mut self, t: TokenId)
        requires
            old(self).wf(),
            t < old(self)@.len(),
        ensures
            final(self).wf(),
            final(self)@ == old(self)@.update(t as int, false),
    {
        self.set_flag(t, false);
    }

    fn set_flag(&mut self, t: TokenId, v: bool)
        requires
            old(self).wf(),
            t < old(self)@.len(),
        ensures
            final(self).wf(),
            final(self)@ == old(self)@.update(t as int, v),
    {
        let idx = (t / 32) as usize;
        let k = t % 32;
        let w = self.words[idx];
        let nw = if v {
            w | (1u32 << k)
        } else {
            w & !(1u32 << k)
        };
        let ghost before = *self;
        self.words.set(idx, nw);
        assert forall|j: int| 0 <= j < self.size implies self.has(j) == (if j == t {
            v
        } else {
            before.has(j)
        }) by {
            if j / 32 == idx as int {
                if v {
                    lemma_bit_set(w, k, (j % 32) as u32);
                } else {
                    lemma_bit_clear(w, k, (j % 32) as u32);
                }
            }
        }
        assert(self@ =~= before@.update(t as int, v));
    }

    /// Number of ids in the set.
    pub fn num_set(&self) -> (r: usize)
        requires
            self.wf(),
        ensures
            r == count_true(self@),
    {
        let mut n: usize = 0;
        let mut t: usize = 0;
        while t < self.size
            invariant
                self.wf(),
                t <= self.size,
                n <= t,
                n == count_true(self@.subrange(0, t as int)),
            decreases self.size - t,
        {
            assert(self@.subrange(0, t + 1).drop_last() =~= self@.subrange(0, t as int));
            assert(self@.subrange(0, t + 1).last() == self@[t as int]);
            if self.get(t) {
                n = n + 1;
            }
            t = t + 1;
        }
        assert(self@.subrange(0, self.size as int) =~= self@);
        n
    }

    /// The set as a dense buffer of little-endian bits: bit `t % 8` of byte
    /// `t / 8` is set iff `t` is in the set; the padding bits are clear.
    pub fn to_le_bytes(&self) -> (r: Vec<u8>)
        requires
            self.wf(),
        ensures
            r@.len() == (self@.len() + 7) / 8,
            forall|t: int|
                0 <= t < r@.len() * 8 ==> bit8(#[trigger] r@[t / 8], (t % 8) as u8) == (t
                    < self@.len() && self@[t]),
    {
        let n = self.size;
        let nb: usize = n / 8 + if n % 8 == 0 {
            0usize
        } else {
            1usize
        };
        let mut out: Vec<u8> = Vec::new();
        let mut i: usize = 0;
        while i < nb
            invariant
                self.wf(),
                n == self@.len(),
                nb == (n + 7) / 8,
                i <= nb,
                out@.len() == i,
                forall|t: int|
                    0 <= t < i * 8 ==> bit8(#[trigger] out@[t / 8], (t % 8) as u8) == (t < n
                        && self@[t]),
            decreases nb - i,
        {
            assert(8 * i < n);
            let base = 8 * i;
            let mut byte: u8 = 0;
            let mut j: u8 = 0;
            assert forall|k: u8| k < 8 implies !#[trigger] bit8(0u8, k) by {
                lemma_bit8_zero(k);
            }
            while j < 8
                invariant
                    self.wf(),
                    n == self@.len(),
                    base < n,
                    j <= 8,
                    forall|k: u8|
                        k < 8 ==> #[trigger] bit8(byte, k) == (k < j && base + k < n && self@[base
                            + k]),
                decreases 8 - j,
            {
                let take = (j as usize) < n - base && self.get(base + j as usize);
                let ghost old_byte = byte;
                if take {
                    byte = byte | (1u8 << j);
                }
                assert forall|k: u8| k < 8 implies #[trigger] bit8(byte, k) == (k < j + 1 && base + k
                    < n && self@[base + k]) by {
                    if take {
                        lemma_bit8_set(old_byte, j, k);
                    }
                }
                j = j + 1;
            }
            let ghost prev = out@;
            out.push(byte);
            assert forall|t: int| 0 <= t < (i + 1) * 8 implies bit8(#[trigger] out@[t / 8], (t % 8) as u8) == (t < n
                && self@[t]) by {
                if t >= i * 8 {
                    assert(t / 8 == i);
                    let k = (t % 8) as u8;
                    assert(t == base + k);
                    assert(bit8(byte, k) == (k < 8 && base + k < n && self@[base + k]));
                } else {
                    assert(out@[t / 8] == prev[t / 8]);
                }
            }
            i = i + 1;
        }
        out
    }

    /// The ids in the set, in increasing order.
    pub fn set_bits(&self) -> (r: Vec<TokenId>)
        requires
            self.wf(),
            self@.len() <= u32::MAX,
        ensures
            forall|i: int| 0 <= i < r@.len() ==> (#[trigger] r@[i]) < self@.len() && self@[r@[i] as int],
            forall|i: int, j: int| 0 <= i < j < r@.len() ==> r@[i] < r@[j],
            forall|t: int| 0 <= t < self@.len() && self@[t] ==> r@.contains(t as TokenId),
    {
        let mut out: Vec<TokenId> = Vec::new();
        let mut t: usize = 0;
        while t < self.size
            invariant
                self.wf(),
                self@.len() <= u32::MAX,
                t <= self@.len(),
                forall|i: int| 0 <= i < out@.len() ==> (#[trigger] out@[i]) < t && self@[out@[i] as int],
                forall|i: int, j: int| 0 <= i < j < out@.len() ==> out@[i] < out@[j],
                forall|u: int| 0 <= u < t && self@[u] ==> out@.contains(u as TokenId),
            decreases self@.len() - t,
        {
            if self.get(t) {
                let ghost before = out@;
                out.push(t as TokenId);
                assert forall|u: int| 0 <= u < t + 1 && self@[u] implies out@.contains(u as TokenId) by {
                    if u == t {
                        assert(out@[before.len() as int] == u as TokenId);
                    } else {
                        let i = choose|i: int| 0 <= i < before.len() && before[i] == u as TokenId;
                        assert(out@[i] == u as TokenId);
                    }
                }
            }
            t = t + 1;
        }
        out
    }

    /// Adds every id of `other` to this set.
    pub fn union_with(&mut self, other: &TokenSet)
        requires
            old(self).wf(),
            other.wf(),
            old(self)@.len() == other@.len(),
        ensures
            final(self).wf(),
            final(self)@ == Seq::new(other@.len(), |t: int| old(self)@[t] || other@[t]),
    {
        self.combine(other, true);
    }

    /// Keeps only the ids that are also in `other`.
    pub fn intersect_with(&mut self, other: &TokenSet)
        requires
            old(self).wf(),
            other.wf(),
            old(self)@.len() == other@.len(),
        ensures
            final(self).wf(),
            final(self)@ == Seq::new(other@.len(), |t: int| old(self)@[t] && other@[t]),
    {
        self.combine(other, false);
    }

    fn combine(&mut self, other: &TokenSet, union: bool)
        requires
            old(self).wf(),
            other.wf(),
            old(self)@.len() == other@.len(),
        ensures
            final(self).wf(),
            final(self)@ == Seq::new(
                other@.len(),
                |t: int|
                    if union {
                        old(self)@[t] || other@[t]
                    } else {
                        old(self)@[t] && other@[t]
                    },
            ),
    {
        let ghost before = *self;
        let mut i: usize = 0;
        while i < self.words.len()
            invariant
                self.size == before.size,
                self.words@.len() == before.words@.len(),
                before.wf(),
                other.wf(),
                before.size == other.size,
                i <= self.words@.len(),
                forall|j: int|
                    0 <= j < i ==> #[trigger] self.words@[j] == if union {
                        before.words@[j] | other.words@[j]
                    } else {
                        before.words@[j] & other.words@[j]
                    },
                forall|j: int| i <= j < self.words@.len() ==> #[trigger] self.words@[j] == before.words@[j],
            decreases self.words@.len() - i,
        {
            let a = self.words[i];
            let b = other.words[i];
            let c = if union {
                a | b
            } else {
                a & b
            };
            self.words.set(i, c);
            i = i + 1;
        }
        assert forall|t: int| 0 <= t < self.size implies self.has(t) == (if union {
            before.has(t) || other.has(t)
        } else {
            before.has(t) && other.has(t)
        }) by {
            let j = t / 32;
            assert(self.words@[j] == if union {
                before.words@[j] | other.words@[j]
            } else {
                before.words@[j] & other.words@[j]
            });
            if union {
                lemma_bit_or(before.words@[j], other.words@[j], (t % 32) as u32);
            } else {
                lemma_bit_and(before.words@[j], other.words@[j], (t % 32) as u32);
            }
        }
        assert(self@ =~= Seq::new(
            other@.len(),
            |t: int|
                if union {
                    before@[t] || other@[t]
                } else {
                    before@[t] && other@[t]
                },
        ));
    }
}

} // verus!
