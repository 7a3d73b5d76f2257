use vstd::prelude::*;

verus! {

/// Whether bit `k` of the word `w` is set.
pub open spec fn word_bit(w: u32, k: u32) -> bool {
    (w >> k) & 1u32 == 1u32
}

/// The number of `u32` words that a bitset of `bits` bits allocates: `bits`
/// rounded up to the next multiple of 32.
pub open spec fn bitset_word_count(bits: nat) -> nat {
    if bits % 32 == 0 {
        bits
    } else {
        (bits + (32 - bits % 32)) as nat
    }
}

/// A fixed size set of bits packed in `u32` words, bit `i` living in word
/// `i / 32` at position `i % 32`.
pub struct Bitset {
    data: Vec<u32>,
}

proof fn lemma_word_or(w: u32, k: u32, j: u32)
    requires
        k < 32,
        j < 32,
    ensures
        word_bit(w | (1u32 << k), j) == (j == k || word_bit(w, j)),
{
    assert(((w | (1u32 << k)) >> j) & 1u32 == 1u32 <==> (j == k || (w >> j) & 1u32 == 1u32))
        by (bit_vector)
        requires
            k < 32,
            j < 32,
    ;
}

proof fn lemma_word_clear(w: u32, k: u32, j: u32)
    requires
        k < 32,
        j < 32,
    ensures
        word_bit(w & !(1u32 << k), j) == (j != k && word_bit(w, j)),
{
    assert(((w & !(1u32 << k)) >> j) & 1u32 == 1u32 <==> (j != k && (w >> j) & 1u32 == 1u32))
        by (bit_vector)
        requires
            k < 32,
            j < 32,
    ;
}

proof fn lemma_word_test(w: u32, k: u32)
    requires
        k < 32,
    ensures
        ((w & (1u32 << k)) > 0) == word_bit(w, k),
{
    assert(((w & (1u32 << k)) > 0u32) <==> ((w >> k) & 1u32 == 1u32)) by (bit_vector)
        requires
            k < 32,
    ;
}

proof fn lemma_zero_word(k: u32)
    requires
        k < 32,
    ensures
        !word_bit(0u32, k),
{
    assert((0u32 >> k) & 1u32 != 1u32) by (bit_vector);
}

impl Bitset {
    /// The bits, in order: bit `i` is word `i / 32`, position `i % 32`.
    pub closed spec fn view(&self) -> Seq<bool> {
        Seq::new(
            (self.data@.len() * 32) as nat,
            |i: int| word_bit(self.data@[i / 32], (i % 32) as u32),
        )
    }

    /// The number of words that back the set.
    pub closed spec fn word_count(&self) -> nat {
        self.data@.len()
    }

    pub proof fn lemma_view_len(&self)
        ensures
            self@.len() == self.word_count() * 32,
    {
    }

    /// Allocates `bits` rounded up to a multiple of 32 words (so 32 times the
    /// requested number of bits), all clear.
    pub fn new(bits: usize) -> (r: Self)
        requires
            bits + 31 <= usize::MAX,
        ensures
            r.word_count() == bitset_word_count(bits as nat),
            r@.len() == r.word_count() * 32,
            bits <= r@.len(),
            forall|i: int| 0 <= i < r@.len() ==> !r@[i],
    {
        let rem = bits % 32;
        let n = if rem == 0 {
            bits
        } else {
            bits + (32 - rem)
        };
        let mut data: Vec<u32> = Vec::new();
        let mut k: usize = 0;
        while k < n
            invariant
                k <= n,
                data@.len() == k,
                forall|j: int| 0 <= j < k ==> data@[j] == 0u32,
            decreases n - k,
        {
            data.push(0u32);
            k = k + 1;
        }
        let r = Bitset { data };
        proof {
            assert forall|i: int| 0 <= i < r@.len() implies !r@[i] by {
                lemma_zero_word((i % 32) as u32);
            }
        }
        r
    }

    /// Sets bit `bit` to `value`, leaving every other bit as it was.
    pub fn set_bit(&mut self, bit: usize, value: bool)
        requires
            bit < old(self)@.len(),
        ensures
            final(self)@ == old(self)@.update(bit as int, value),
            final(self).word_count() == old(self).word_count(),
    {
        let n = bit / 32;
        let k = (bit % 32) as u32;
        let mask: u32 = 1u32 << k;
        let w = self.data[n];
        let nw = if value {
            w | mask
        } else {
            w & !mask
        };
        self.data.set(n, nw);
        proof {
            let ov = old(self)@;
            let nv = self@;
            assert forall|i: int| 0 <= i < nv.len() implies nv[i] == ov.update(bit as int, value)[i] by {
                let wi = i / 32;
                let ki = (i % 32) as u32;
                if wi == n as int {
                    if value {
                        lemma_word_or(w, k, ki);
                    } else {
                        lemma_word_clear(w, k, ki);
                    }
                }
            }
            assert(nv =~= ov.update(bit as int, value));
        }
    }

    /// Whether bit `bit` is set.
    pub fn get_bit(&self, bit: usize) -> (r: bool)
        requires
            bit < self@.len(),
        ensures
            r == self@[bit as int],
    {
        let k = (bit % 32) as u32;
        let r = (self.data[bit / 32] & (1u32 << k)) > 0;
        proof {
            lemma_word_test(self.data@[bit as int / 32], k);
        }
        r
    }
}

/// A new bitset of `bits` bits can be read at each of them, and every one
/// of them is clear.
pub proof fn law_new_bitset_clear(b: Bitset, bits: nat, i: int)
    requires
        b.word_count() == bitset_word_count(bits),
        b@.len() == b.word_count() * 32,
        forall|k: int| 0 <= k < b@.len() ==> !b@[k],
        0 <= i < bits,
    ensures
        i < b@.len(),
        !b@[i],
{
    assert(bitset_word_count(bits) >= bits);
    assert(bitset_word_count(bits) * 32 >= bitset_word_count(bits)) by (nonlinear_arith);
}

/// Reading a bit right after setting it gives back the value written, and
/// every other bit keeps the value it had.
pub proof fn law_bitset_set_get(before: Seq<bool>, bit: int, value: bool, other: int)
    requires
        0 <= bit < before.len(),
        0 <= other < before.len(),
        other != bit,
    ensures
        before.update(bit, value)[bit] == value,
        before.update(bit, value)[other] == before[other],
{
}

} // verus!
