use vstd::prelude::*;

verus! {

/// Bits in one word.
pub const WORD_BITS: usize = 64;

/// Bit `j` of word `w`.
pub open spec fn bit(w: u64, j: int) -> bool {
    (w >> (j as u64)) & 1u64 == 1u64
}

proof fn lemma_bit_zero(j: u64)
    requires
        j < 64,
    ensures
        (0u64 >> j) & 1u64 == 0u64,
{
    assert((0u64 >> j) & 1u64 == 0u64) by (bit_vector);
}

proof fn lemma_bit_set(w: u64, off: u64, j: u64)
    requires
        off < 64,
        j < 64,
    ensures
        ((w | (1u64 << off)) >> j) & 1u64 == if j == off {
            1u64
        } else {
            (w >> j) & 1u64
        },
{
    assert(((w | (1u64 << off)) >> j) & 1u64 == if j == off {
        1u64
    } else {
        (w >> j) & 1u64
    }) by (bit_vector)
        requires
            off < 64,
            j < 64,
    ;
}

proof fn lemma_bit_clear(w: u64, off: u64, j: u64)
    requires
        off < 64,
        j < 64,
    ensures
        ((w & !(1u64 << off)) >> j) & 1u64 == if j == off {
            0u64
        } else {
            (w >> j) & 1u64
        },
{
    assert(((w & !(1u64 << off)) >> j) & 1u64 == if j == off {
        0u64
    } else {
        (w >> j) & 1u64
    }) by (bit_vector)
        requires
            off < 64,
            j < 64,
    ;
}

proof fn lemma_bit_toggle(w: u64, off: u64, j: u64)
    requires
        off < 64,
        j < 64,
    ensures
        ((w ^ (1u64 << off)) >> j) & 1u64 == if j == off {
            ((w >> j) & 1u64) ^ 1u64
        } else {
            (w >> j) & 1u64
        },
        ((((w >> j) & 1u64) ^ 1u64) == 1u64) == ((w >> j) & 1u64 != 1u64),
{
    assert(((w ^ (1u64 << off)) >> j) & 1u64 == if j == off {
        ((w >> j) & 1u64) ^ 1u64
    } else {
        (w >> j) & 1u64
    }) by (bit_vector)
        requires
            off < 64,
            j < 64,
    ;
    assert(((((w >> j) & 1u64) ^ 1u64) == 1u64) == ((w >> j) & 1u64 != 1u64)) by (bit_vector);
}

/// A fixed number of bits packed into words.
#[derive(Clone, Debug, PartialEq, Eq)]
pub struct BitArray {
    integers: Vec<u64>,
}

impl View for BitArray {
    type V = Seq<bool>;

    closed spec fn view(&self) -> Seq<bool> {
        Seq::new(
            self.integers@.len() * 64,
            |i: int| bit(self.integers@[i / 64], i % 64),
        )
    }
}

fn integer_index(bit_index: usize) -> (r: usize)
    ensures
        r == bit_index / 64,
{
    bit_index / WORD_BITS
}

fn bit_offset(bit_index: usize) -> (r: u64)
    ensures
        r == bit_index % 64,
{
    (bit_index % WORD_BITS) as u64
}

impl BitArray {
    /// At least `bits` bits, all clear.
    pub fn new(bits: usize) -> (r: Self)
        ensures
            r@.len() == (bits as int + 63) / 64 * 64,
            forall|i: int| 0 <= i < r@.len() ==> !#[trigger] r@[i],
    {
        let n = bits / WORD_BITS + if bits % WORD_BITS == 0 { 0 } else { 1 };
        let mut integers: Vec<u64> = Vec::new();
        while integers.len() < n
            invariant
                integers@.len() <= n,
                forall|k: int| 0 <= k < integers@.len() ==> #[trigger] integers@[k] == 0u64,
            decreases n - integers@.len(),
        {
            integers.push(0);
        }
        let r = BitArray { integers };
        proof {
            assert(n == (bits as int + 63) / 64);
            assert forall|i: int| 0 <= i < r@.len() implies !#[trigger] r@[i] by {
                lemma_bit_zero((i % 64) as u64);
            }
        }
        r
    }

    /// The number of bits.
    pub fn capacity(&self) -> (r: usize)
        requires
            self@.len() <= usize::MAX,
        ensures
            r == self@.len(),
    {
        self.integers.len() * WORD_BITS
    }

    /// Clears every bit.
    pub fn clear_all(&mut self)
        ensures
            final(self)@.len() == old(self)@.len(),
            forall|i: int| 0 <= i < final(self)@.len() ==> !#[trigger] final(self)@[i],
    {
        let mut k: usize = 0;
        while k < self.integers.len()
            invariant
                k <= self.integers@.len(),
                self.integers@.len() == old(self).integers@.len(),
                forall|a: int| 0 <= a < k ==> #[trigger] self.integers@[a] == 0u64,
            decreases self.integers@.len() - k,
        {
            self.integers.set(k, 0);
            k = k + 1;
        }
        proof {
            assert forall|i: int| 0 <= i < self@.len() implies !#[trigger] self@[i] by {
                lemma_bit_zero((i % 64) as u64);
            }
        }
    }

    /// Bit `index`.
    pub fn get(&self, index: usize) -> (r: bool)
        requires
            index < self@.len(),
        ensures
            r == self@[index as int],
    {
        let integer = self.integers[integer_index(index)];
        (integer >> bit_offset(index)) & 1u64 == 1u64
    }

    /// Sets bit `index`.
    pub fn set(&mut self, index: usize)
        requires
            index < old(self)@.len(),
        ensures
            final(self)@ == old(self)@.update(index as int, true),
    {
        let k = integer_index(index);
        let off = bit_offset(index);
        let w = self.integers[k];
        self.integers.set(k, w | (1u64 << off));
        proof {
            assert forall|i: int| 0 <= i < self@.len() implies #[trigger] self@[i] == old(self)@.update(index as int, true)[i] by {
                if i / 64 == k as int {
                    lemma_bit_set(w, off, (i % 64) as u64);
                }
            }
            assert(self@ =~= old(self)@.update(index as int, true));
        }
    }

    /// Clears bit `index`.
    pub fn clear(&mut self, index: usize)
        requires
            index < old(self)@.len(),
        ensures
            final(self)@ == old(self)@.update(index as int, false),
    {
        let k = integer_index(index);
        let off = bit_offset(index);
        let w = self.integers[k];
        self.integers.set(k, w & !(1u64 << off));
        proof {
            assert forall|i: int| 0 <= i < self@.len() implies #[trigger] self@[i] == old(self)@.update(index as int, false)[i] by {
                if i / 64 == k as int {
                    lemma_bit_clear(w, off, (i % 64) as u64);
                }
            }
            assert(self@ =~= old(self)@.update(index as int, false));
        }
    }

    /// Flips bit `index`.
    pub fn toggle(&mut self, index: usize)
        requires
            index < old(self)@.len(),
        ensures
            final(self)@ == old(self)@.update(index as int, !old(self)@[index as int]),
    {
        let k = integer_index(index);
        let off = bit_offset(index);
        let w = self.integers[k];
        self.integers.set(k, w ^ (1u64 << off));
        proof {
            assert forall|i: int| 0 <= i < self@.len() implies #[trigger] self@[i] == old(self)@.update(index as int, !old(self)@[index as int])[i] by {
                if i / 64 == k as int {
                    lemma_bit_toggle(w, off, (i % 64) as u64);
                }
            }
            assert(self@ =~= old(self)@.update(index as int, !old(self)@[index as int]));
        }
    }
}

} // verus!
