//! Flat bitsets stored as `u64` words: bit `i` lives in word `i / 64` at
//! position `i % 64`.

use vstd::prelude::*;

verus! {

/// Whether bit `i` of the word `w` is set.
pub open spec fn word_bit(w: u64, i: int) -> bool {
    0 <= i < 64 && (w >> (i as u64)) & 1u64 == 1u64
}

/// Whether bit `i` is set in the bitset `words`.
pub open spec fn bit_at(words: Seq<u64>, i: int) -> bool {
    0 <= i && i / 64 < words.len() && word_bit(words[i / 64], i % 64)
}

pub proof fn lemma_mask_test(w: u64, j: u64)
    requires
        j < 64,
    ensures
        (w & (1u64 << j) != 0) == word_bit(w, j as int),
{
    assert((w & (1u64 << j) != 0) == ((w >> j) & 1u64 == 1u64)) by (bit_vector)
        requires
            j < 64,
    ;
}

pub proof fn lemma_zero_word(i: u64)
    requires
        i < 64,
    ensures
        !word_bit(0u64, i as int),
{
    assert((0u64 >> i) & 1u64 == 0u64) by (bit_vector);
}

pub proof fn lemma_set_bit(w: u64, j: u64, i: u64)
    requires
        j < 64,
        i < 64,
    ensures
        word_bit(w | (1u64 << j), i as int) == (word_bit(w, i as int) || i == j),
{
    assert((((w | (1u64 << j)) >> i) & 1u64 == 1u64) == (((w >> i) & 1u64 == 1u64) || i == j))
        by (bit_vector)
        requires
            j < 64,
            i < 64,
    ;
}

pub proof fn lemma_and_bit(a: u64, b: u64, i: u64)
    requires
        i < 64,
    ensures
        word_bit(a & b, i as int) == (word_bit(a, i as int) && word_bit(b, i as int)),
{
    assert((((a & b) >> i) & 1u64 == 1u64) == (((a >> i) & 1u64 == 1u64) && ((b >> i) & 1u64
        == 1u64))) by (bit_vector)
        requires
            i < 64,
    ;
}

/// Number of set bits among the lowest `n` bits of `w`.
pub open spec fn pop_low(w: u64, n: nat) -> nat
    decreases n,
{
    if n == 0 {
        0
    } else {
        pop_low(w, (n - 1) as nat) + if word_bit(w, n - 1) {
            1nat
        } else {
            0nat
        }
    }
}

/// Number of set bits of `w`.
pub open spec fn popcount(w: u64) -> nat {
    pop_low(w, 64)
}

/// Number of set bits over all words of a bitset.
pub open spec fn count_bits(words: Seq<u64>) -> nat
    decreases words.len(),
{
    if words.len() == 0 {
        0
    } else {
        count_bits(words.drop_last()) + popcount(words.last())
    }
}

pub proof fn lemma_pop_low_bound(w: u64, n: nat)
    ensures
        pop_low(w, n) <= n,
    decreases n,
{
    if n > 0 {
        lemma_pop_low_bound(w, (n - 1) as nat);
    }
}

pub proof fn lemma_count_bits_bound(words: Seq<u64>)
    ensures
        count_bits(words) <= 64 * words.len(),
    decreases words.len(),
{
    if words.len() > 0 {
        lemma_count_bits_bound(words.drop_last());
        lemma_pop_low_bound(words.last(), 64);
    }
}


/// Number of indices below `n` whose bit is set.
pub open spec fn set_below(words: Seq<u64>, n: int) -> nat
    decreases n,
{
    if n <= 0 {
        0
    } else {
        set_below(words, n - 1) + if bit_at(words, n - 1) { 1nat } else { 0nat }
    }
}

proof fn lemma_set_below_words(words: Seq<u64>, n: int)
    requires
        0 <= n <= 64 * words.len(),
    ensures
        set_below(words, n) == count_bits(words.take(n / 64)) + if n / 64 < words.len() {
            pop_low(words[n / 64], (n % 64) as nat)
        } else {
            0nat
        },
    decreases n,
{
    if n == 0 {
        assert(words.take(0) =~= Seq::<u64>::empty());
    } else {
        lemma_set_below_words(words, n - 1);
        let q = (n - 1) / 64;
        let r = (n - 1) % 64;
        assert(n - 1 == 64 * q + r && 0 <= r < 64) by (nonlinear_arith)
            requires
                n >= 1,
                q == (n - 1) / 64,
                r == (n - 1) % 64,
        ;
        assert(q < words.len()) by (nonlinear_arith)
            requires
                n - 1 == 64 * q + r,
                0 <= r < 64,
                n <= 64 * words.len(),
        ;
        assert(bit_at(words, n - 1) == word_bit(words[q], r));
        if r < 63 {
            assert(n / 64 == q && n % 64 == r + 1) by (nonlinear_arith)
                requires
                    n == 64 * q + r + 1,
                    0 <= r < 63,
            ;
        } else {
            assert(n / 64 == q + 1 && n % 64 == 0) by (nonlinear_arith)
                requires
                    n == 64 * q + 64,
                    q >= 0,
            ;
            assert(words.take(q + 1).drop_last() =~= words.take(q));
            assert(words.take(q + 1).last() == words[q]);
        }
    }
}

/// The set bits of a bitset are exactly its candidates: their number is
/// the number of indices whose bit is set.
pub proof fn lemma_count_bits_is_set_below(words: Seq<u64>)
    ensures
        count_bits(words) == set_below(words, 64 * words.len() as int),
{
    lemma_set_below_words(words, 64 * words.len() as int);
    assert((64 * words.len()) / 64 == words.len() && (64 * words.len()) % 64 == 0) by (nonlinear_arith);
    assert(words.take(words.len() as int) =~= words);
}

/// Number of set bits of one word.
pub fn word_popcount(w: u64) -> (r: u32)
    ensures
        r as nat == popcount(w),
{
    let mut count: u32 = 0;
    let mut i: u64 = 0;
    while i < 64
        invariant
            i <= 64,
            count as nat == pop_low(w, i as nat),
            count <= i,
        decreases 64 - i,
    {
        proof {
            lemma_pop_low_bound(w, (i + 1) as nat);
        }
        if (w >> i) & 1u64 == 1u64 {
            count = count + 1;
        }
        i = i + 1;
    }
    count
}

/// Total number of set bits in a bitset.
pub fn count_set_bits(candidates: &[u64]) -> (r: usize)
    requires
        candidates@.len() * 64 <= usize::MAX,
    ensures
        r as nat == count_bits(candidates@),
{
    let mut total: usize = 0;
    let mut i: usize = 0;
    while i < candidates.len()
        invariant
            i <= candidates@.len(),
            candidates@.len() * 64 <= usize::MAX,
            total as nat == count_bits(candidates@.take(i as int)),
        decreases candidates@.len() - i,
    {
        let c = word_popcount(candidates[i]);
        proof {
            assert(candidates@.take(i + 1).drop_last() =~= candidates@.take(i as int));
            lemma_count_bits_bound(candidates@.take(i + 1));
        }
        total = total + c as usize;
        i = i + 1;
    }
    assert(candidates@.take(i as int) =~= candidates@);
    total
}

/// Number of set bits of a bitset, in a wide accumulator.
pub fn count_bits_wide(words: &[u64]) -> (r: u128)
    ensures
        r as nat == count_bits(words@),
{
    let mut total: u128 = 0;
    let mut i: usize = 0;
    while i < words.len()
        invariant
            i <= words@.len(),
            total as nat == count_bits(words@.take(i as int)),
        decreases words@.len() - i,
    {
        let c = word_popcount(words[i]);
        proof {
            assert(words@.take(i + 1).drop_last() =~= words@.take(i as int));
            lemma_count_bits_bound(words@.take(i + 1));
        }
        total = total + c as u128;
        i = i + 1;
    }
    assert(words@.take(i as int) =~= words@);
    total
}

/// Word-wise AND of `r` with `b` over their common length; words of `r`
/// beyond the end of `b` are kept.
pub open spec fn and_words(r: Seq<u64>, b: Seq<u64>) -> Seq<u64> {
    Seq::new(r.len(), |i: int| if i < b.len() { r[i] & b[i] } else { r[i] })
}

/// In-place AND of two bitsets over their common length.
pub fn bitset_and(result: &mut [u64], bitset: &[u64])
    ensures
        final(result)@ == and_words(old(result)@, bitset@),
{
    let n = if result.len() < bitset.len() { result.len() } else { bitset.len() };
    let mut i: usize = 0;
    while i < n
        invariant
            n <= result@.len(),
            n <= bitset@.len(),
            n == result@.len() || n == bitset@.len(),
            i <= n,
            result@.len() == old(result)@.len(),
            forall|j: int| 0 <= j < i ==> result@[j] == old(result)@[j] & bitset@[j],
            forall|j: int| i <= j < result@.len() ==> result@[j] == old(result)@[j],
        decreases n - i,
    {
        let v = result[i] & bitset[i];
        result[i] = v;
        i = i + 1;
    }
    assert(result@ =~= and_words(old(result)@, bitset@));
}

} // verus!
