//! Bits of 64-bit words and of bitmaps stored as sequences of such words,
//! least significant bit first, with the counting that rank and select
//! structures rest on.
use vstd::prelude::*;

verus! {

/// Bit `j` of `w`, counted from the least significant bit.
pub open spec fn bit(w: u64, j: int) -> u64 {
    (w >> (j as u64)) & 1
}

/// The number of set bits among the `b` lowest bits of `w`.
pub open spec fn ones_below(w: u64, b: int) -> int
    decreases b,
{
    if b <= 0 {
        0
    } else {
        ones_below(w, b - 1) + bit(w, b - 1)
    }
}

/// The number of set bits of `w`.
pub open spec fn popcount(w: u64) -> int {
    ones_below(w, 64)
}

/// Bit `i` of the bitmap `words`: bit `i % 64` of word `i / 64`. Bits past
/// the end read as 0.
pub open spec fn bit_at(words: Seq<u64>, i: int) -> u64 {
    if 0 <= i < 64 * words.len() {
        bit(words[i / 64], i % 64)
    } else {
        0
    }
}

/// The number of set bits of `words` before position `i`.
pub open spec fn ones_before(words: Seq<u64>, i: int) -> int
    decreases i,
{
    if i <= 0 {
        0
    } else {
        ones_before(words, i - 1) + bit_at(words, i - 1)
    }
}

/// The number of set bits in the first `k` words.
pub open spec fn ones_in_words(words: Seq<u64>, k: int) -> int
    decreases k,
{
    if k <= 0 {
        0
    } else {
        ones_in_words(words, k - 1) + popcount(words[k - 1])
    }
}

/// The number of clear bits of `words` before position `i`.
pub open spec fn zeros_before(words: Seq<u64>, i: int) -> int {
    i - ones_before(words, i)
}

/// A bit is 0 or 1.
pub proof fn lemma_bit_value(w: u64, j: int)
    ensures
        bit(w, j) == 0 || bit(w, j) == 1,
{
    let s = j as u64;
    assert((w >> s) & 1 == 0 || (w >> s) & 1 == 1) by (bit_vector);
}

/// Counts of set bits lie between zero and the number of bits counted.
pub proof fn lemma_ones_below_bounds(w: u64, b: int)
    ensures
        0 <= ones_below(w, b) <= if b < 0 { 0 } else { b },
        ones_below(w, b) <= ones_below(w, b + 1),
    decreases b,
{
    lemma_bit_value(w, b);
    if b > 0 {
        lemma_ones_below_bounds(w, b - 1);
        lemma_bit_value(w, b - 1);
    }
}

/// Counts of set bits before a position lie between zero and the position,
/// and do not decrease.
pub proof fn lemma_ones_before_monotone(words: Seq<u64>, i: int, j: int)
    requires
        i <= j,
    ensures
        0 <= ones_before(words, i) <= ones_before(words, j),
        ones_before(words, j) - ones_before(words, i) <= j - i,
    decreases j - i,
{
    if i < j {
        lemma_ones_before_monotone(words, i, j - 1);
        if 0 <= j - 1 < 64 * words.len() {
            lemma_bit_value(words[(j - 1) / 64], (j - 1) % 64);
        }
    } else {
        lemma_ones_before_nonneg(words, i);
    }
}

proof fn lemma_ones_before_nonneg(words: Seq<u64>, i: int)
    ensures
        0 <= ones_before(words, i) <= if i < 0 { 0 } else { i },
    decreases i,
{
    if i > 0 {
        lemma_ones_before_nonneg(words, i - 1);
        if 0 <= i - 1 < 64 * words.len() {
            lemma_bit_value(words[(i - 1) / 64], (i - 1) % 64);
        }
    }
}

/// The set bits before bit `b` of word `k` are those of the earlier words and
/// those below `b` in word `k`.
pub proof fn lemma_ones_before_word(words: Seq<u64>, k: int, b: int)
    requires
        0 <= k < words.len(),
        0 <= b <= 64,
    ensures
        ones_before(words, 64 * k + b) == ones_in_words(words, k) + ones_below(words[k], b),
    decreases k, b,
{
    if b == 0 {
        if k > 0 {
            lemma_ones_before_word(words, k - 1, 64);
        }
    } else {
        lemma_ones_before_word(words, k, b - 1);
        let i = 64 * k + b - 1;
        assert(i / 64 == k && i % 64 == b - 1) by (nonlinear_arith)
            requires
                i == 64 * k + b - 1,
                0 <= b - 1 < 64,
                0 <= k,
        ;
        assert(64 * k + 64 <= 64 * words.len()) by (nonlinear_arith)
            requires
                k < words.len(),
        ;
    }
}

/// Past the last word, no further bits are set.
pub proof fn lemma_ones_before_total(words: Seq<u64>, i: int)
    requires
        64 * words.len() <= i,
    ensures
        ones_before(words, i) == ones_in_words(words, words.len() as int),
    decreases i,
{
    if i > 64 * words.len() {
        lemma_ones_before_total(words, i - 1);
    } else if words.len() > 0 {
        lemma_ones_before_word(words, words.len() - 1, 64);
    }
}

/// Counts of set bits over whole words lie within the bits counted.
pub proof fn lemma_ones_in_words_bounds(words: Seq<u64>, k: int)
    requires
        0 <= k <= words.len(),
    ensures
        0 <= ones_in_words(words, k) <= 64 * k,
    decreases k,
{
    if k > 0 {
        lemma_ones_in_words_bounds(words, k - 1);
        lemma_ones_below_bounds(w_at(words, k - 1), 64);
    }
}

spec fn w_at(words: Seq<u64>, k: int) -> u64 {
    words[k]
}

/// The set bits of `w` that lie below bit `b`, `b < 64`, are the set bits of
/// `w` masked with `2^b - 1`.
pub proof fn lemma_masked_popcount(w: u64, b: u64)
    requires
        b < 64,
    ensures
        popcount(w & (((1u64 << b) - 1) as u64)) == ones_below(w, b as int),
{
    lemma_masked_ones_below(w, b, 64);
}

proof fn lemma_masked_ones_below(w: u64, b: u64, n: int)
    requires
        b < 64,
        0 <= n <= 64,
    ensures
        ones_below(w & (((1u64 << b) - 1) as u64), n) == ones_below(w, if n < b { n } else { b as int }),
    decreases n,
{
    if n > 0 {
        lemma_masked_ones_below(w, b, n - 1);
        let j = (n - 1) as u64;
        assert(((w & (((1u64 << b) - 1) as u64)) >> j) & 1 == (if j < b { (w >> j) & 1 } else { 0 }))
            by (bit_vector)
            requires
                b < 64,
                j < 64,
        ;
    }
}

/// The number of set bits of `w` (what `u64::count_ones` gives).
pub fn count_ones(w: u64) -> (c: u32)
    ensures
        c == popcount(w),
        c <= 64,
{
    let mut c: u32 = 0;
    let mut j: u64 = 0;
    while j < 64
        invariant
            j <= 64,
            c == ones_below(w, j as int),
            c <= j,
        decreases 64 - j,
    {
        proof {
            lemma_bit_value(w, j as int);
        }
        if (w >> j) & 1 == 1 {
            c = c + 1;
        }
        j = j + 1;
    }
    c
}

} // verus!
verus! {

/// The lowest set bit of a non-zero word is at its trailing-zero count, and
/// `w & (w - 1)` clears exactly that bit.
pub proof fn lemma_lowest_set_bit(w: u64)
    requires
        w != 0,
    ensures
        vstd::std_specs::bits::u64_trailing_zeros(w) < 64,
        bit(w, vstd::std_specs::bits::u64_trailing_zeros(w) as int) == 1,
        forall|j: int| 0 <= j < vstd::std_specs::bits::u64_trailing_zeros(w) ==> #[trigger] bit(w, j) == 0,
        forall|j: int|
            0 <= j < 64 ==> #[trigger] bit((w & ((w - 1) as u64)), j) == if j
                == vstd::std_specs::bits::u64_trailing_zeros(w) {
                0
            } else {
                bit(w, j)
            },
{
    let t = vstd::std_specs::bits::u64_trailing_zeros(w) as u64;
    vstd::std_specs::bits::axiom_u64_trailing_zeros(w);
    assert(w << ((64 - t) as u64) == 0);
    assert forall|j: int| 0 <= j < 64 implies #[trigger] bit((w & ((w - 1) as u64)), j) == if j == t {
        0
    } else {
        bit(w, j)
    } by {
        let jj = j as u64;
        assert(((w & ((w - 1) as u64)) >> jj) & 1 == if jj == t { 0 } else { (w >> jj) & 1 })
            by (bit_vector)
            requires
                w != 0,
                t < 64,
                jj < 64,
                (w >> t) & 1 == 1,
                w << ((64 - t) as u64) == 0,
        ;
    }
    assert forall|j: int| 0 <= j < t implies #[trigger] bit(w, j) == 0 by {
        let jj = j as u64;
        assert((w >> jj) & 1 == 0);
    }
}

} // verus!
verus! {

/// Clear bits between `q` and `t` add nothing to the count.
pub proof fn lemma_ones_below_flat(w: u64, q: int, t: int)
    requires
        0 <= q <= t,
        forall|j: int| q <= j < t ==> #[trigger] bit(w, j) == 0,
    ensures
        ones_below(w, t) == ones_below(w, q),
    decreases t - q,
{
    if q < t {
        lemma_ones_below_flat(w, q, t - 1);
        assert(bit(w, t - 1) == 0);
    }
}

/// `w` masked with `!0 << l` keeps the bits of `w` from `l` up.
pub proof fn lemma_high_mask(w: u64, l: u64, b: int)
    requires
        l < 64,
        0 <= b <= 64,
    ensures
        forall|j: int| 0 <= j < 64 ==> #[trigger] bit(w & (!0u64 << l), j) == if j < l {
            0
        } else {
            bit(w, j)
        },
        ones_below(w & (!0u64 << l), b) == if b <= l {
            0
        } else {
            ones_below(w, b) - ones_below(w, l as int)
        },
    decreases b,
{
    assert forall|j: int| 0 <= j < 64 implies #[trigger] bit(w & (!0u64 << l), j) == if j < l {
        0
    } else {
        bit(w, j)
    } by {
        let jj = j as u64;
        assert(((w & (!0u64 << l)) >> jj) & 1 == if jj < l { 0 } else { (w >> jj) & 1 })
            by (bit_vector)
            requires
                l < 64,
                jj < 64,
        ;
    }
    if b > 0 {
        lemma_high_mask(w, l, b - 1);
    }
}

/// The word index and bit offset of a bit position.
pub proof fn lemma_split_index(i: usize)
    ensures
        i >> 6 == i / 64,
        i & 63 == i % 64,
{
    assert(i >> 6 == i / 64 && i & 63 == i % 64) by (bit_vector);
}

} // verus!
