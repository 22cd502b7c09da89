//! Machine words as flags: single bits, population counts, and the bit tricks the sieve uses.
use crate::lists::{lemma_position_of, lemma_positions, lemma_positions_clear, ones, positions};
use vstd::prelude::*;
use vstd::std_specs::bits::{axiom_u64_leading_zeros, axiom_u64_trailing_zeros};

verus! {

/// Whether bit `i` of `w` is set.
pub open spec fn word_bit(w: u64, i: int) -> bool {
    0 <= i < 64 && (w >> (i as u64)) & 1 == 1
}

/// The bits of one word, the lowest first.
pub open spec fn word_flags(w: u64) -> Seq<bool> {
    Seq::new(64, |i: int| word_bit(w, i))
}

/// The bits of a run of words, the lowest bit of the first word first.
pub open spec fn flags(bits: Seq<u64>) -> Seq<bool> {
    Seq::new((64 * bits.len()) as nat, |i: int| word_bit(bits[i / 64], i % 64))
}

/// How many bits of `w` are set.
pub open spec fn popcount(w: u64) -> nat {
    ones(word_flags(w))
}

/// How many bits of the first `k` words are set.
pub open spec fn prefix_ones(bits: Seq<u64>, k: int) -> int {
    ones(flags(bits.take(k))) as int
}

/// The lowest set bit of `x` on its own, and zero for zero.
pub open spec fn low(x: usize) -> usize {
    if x == 0 {
        0
    } else {
        x & !((x - 1) as usize)
    }
}

/// `u64::count_ones` counts the set bits of its argument.
pub assume_specification[ u64::count_ones ](word: u64) -> (count: u32)
    ensures
        count == popcount(word),
;

/// The flags of a run with one more word are those of the run and then those of the word.
pub proof fn lemma_flags_push(bits: Seq<u64>, w: u64)
    ensures
        flags(bits.push(w)) == flags(bits) + word_flags(w),
{
    assert(flags(bits.push(w)) =~= flags(bits) + word_flags(w));
}

/// The flags of a concatenation.
pub proof fn lemma_flags_concat(a: Seq<u64>, b: Seq<u64>)
    ensures
        flags(a + b) == flags(a) + flags(b),
{
    assert forall|i: int| 0 <= i < flags(a + b).len() implies #[trigger] flags(a + b)[i] == (flags(a) + flags(
        b,
    ))[i] by {
        if i >= 64 * a.len() {
            let j = i - 64 * a.len();
            assert(j / 64 == i / 64 - a.len() && j % 64 == i % 64);
        }
    }
    assert(flags(a + b) =~= flags(a) + flags(b));
}

/// A prefix count grows with each word by that word's set bits.
pub proof fn lemma_prefix_step(bits: Seq<u64>, k: int)
    requires
        0 <= k < bits.len(),
    ensures
        prefix_ones(bits, k + 1) == prefix_ones(bits, k) + popcount(bits[k]),
        popcount(bits[k]) <= 64,
{
    assert(bits.take(k + 1) =~= bits.take(k).push(bits[k]));
    lemma_flags_push(bits.take(k), bits[k]);
    crate::lists::lemma_positions_concat(flags(bits.take(k)), word_flags(bits[k]));
    lemma_positions(word_flags(bits[k]));
}

/// Prefix counts start at nothing, never fall, and stay below the number of bits.
pub proof fn lemma_prefix_monotone(bits: Seq<u64>, i: int, j: int)
    requires
        0 <= i <= j <= bits.len(),
    ensures
        prefix_ones(bits, 0) == 0,
        0 <= prefix_ones(bits, i) <= prefix_ones(bits, j) <= 64 * j,
        prefix_ones(bits, bits.len() as int) == ones(flags(bits)),
    decreases j - i,
{
    assert(flags(bits.take(0)).len() == 0);
    assert(bits.take(bits.len() as int) =~= bits);
    lemma_positions(flags(bits.take(j)));
    if i < j {
        lemma_prefix_monotone(bits, i, j - 1);
        lemma_prefix_step(bits, j - 1);
    }
}

/// The flags up to bit `b` of word `w`.
pub proof fn lemma_flags_take(bits: Seq<u64>, w: int, b: int)
    requires
        0 <= w < bits.len(),
        0 <= b < 64,
    ensures
        flags(bits).take(64 * w + b) == flags(bits.take(w)) + word_flags(bits[w]).take(b),
        ones(flags(bits).take(64 * w + b)) == prefix_ones(bits, w) + ones(word_flags(bits[w]).take(b)),
        flags(bits)[64 * w + b] == word_bit(bits[w], b),
{
    let lhs = flags(bits).take(64 * w + b);
    let rhs = flags(bits.take(w)) + word_flags(bits[w]).take(b);
    assert forall|i: int| 0 <= i < lhs.len() implies lhs[i] == rhs[i] by {
        if i >= 64 * w {
            assert(i / 64 == w && i % 64 == i - 64 * w);
        }
    }
    assert(lhs =~= rhs);
    crate::lists::lemma_positions_concat(flags(bits.take(w)), word_flags(bits[w]).take(b));
    assert((64 * w + b) / 64 == w && (64 * w + b) % 64 == b);
}

/// Replacing one word replaces its 64 flags.
pub proof fn lemma_flags_update(bits: Seq<u64>, w: int, word: u64, b: int)
    requires
        0 <= w < bits.len(),
        0 <= b < 64,
        word_flags(word) == word_flags(bits[w]).update(b, false),
    ensures
        flags(bits.update(w, word)) == flags(bits).update(64 * w + b, false),
{
    let lhs = flags(bits.update(w, word));
    let rhs = flags(bits).update(64 * w + b, false);
    assert forall|i: int| 0 <= i < lhs.len() implies lhs[i] == rhs[i] by {
        if i / 64 == w {
            assert(lhs[i] == word_flags(word)[i % 64]);
            assert(i == 64 * w + i % 64);
        }
    }
    assert(lhs =~= rhs);
}

/// The lowest set bit on its own.
pub fn lowbit(x: usize) -> (r: usize)
    ensures
        r == low(x),
        x > 0 ==> 0 < r <= x,
{
    if x == 0 {
        0
    } else {
        proof {
            lemma_low_range(x);
        }
        x & !(x - 1)
    }
}

/// The lowest set bit is no larger than the number.
pub proof fn lemma_low_range(x: usize)
    requires
        x > 0,
    ensures
        0 < low(x) <= x,
{
    assert(0 < low(x) <= x) by (bit_vector)
        requires
            x > 0,
    ;
}

/// The largest power of two that is not above `n`, and zero for zero.
pub fn highest_power_of_two_at_most(n: usize) -> (r: usize)
    ensures
        n == 0 ==> r == 0,
        n > 0 ==> r <= n && n - r < r && low(r) == r,
{
    if n == 0 {
        return 0;
    }
    let wide = n as u64;
    let zeros: u32 = wide.leading_zeros();
    proof {
        axiom_u64_leading_zeros(wide);
    }
    let shift: u64 = 63 - zeros as u64;
    proof {
        let z = vstd::std_specs::bits::u64_leading_zeros(wide) as u64;
        assert((1u64 << shift) <= wide && wide - (1u64 << shift) < (1u64 << shift) && (1u64 << shift)
            & !(((1u64 << shift) - 1) as u64) == (1u64 << shift) && (1u64 << shift) > 0) by (bit_vector)
            requires
                z < 64,
                shift == 63 - z,
                (wide >> ((63 - z) as u64)) & 1 != 0,
                wide >> ((64 - z) as u64) == 0,
        ;
    }
    let r: usize = (1u64 << shift) as usize;
    proof {
        let p: u64 = 1u64 << shift;
        assert(r & !((r - 1) as usize) == r) by (bit_vector)
            requires
                r > 0,
                r as u64 == p,
                p & !((p - 1) as u64) == p,
        ;
    }
    r
}

/// Clearing the lowest set bit of a word clears the first of its set flags.
proof fn lemma_clear_lowest(w: u64)
    requires
        w != 0,
    ensures
        positions(word_flags(w)).len() > 0,
        positions(word_flags(w))[0] == vstd::std_specs::bits::u64_trailing_zeros(w),
        positions(word_flags(w & (w - 1) as u64)) == positions(word_flags(w)).skip(1),
{
    let t = vstd::std_specs::bits::u64_trailing_zeros(w) as u64;
    let v = w & (w - 1) as u64;
    axiom_u64_trailing_zeros(w);
    let f = word_flags(w);
    assert(f[t as int]);
    assert(ones(f.take(t as int)) == 0) by {
        lemma_positions(f.take(t as int));
        if ones(f.take(t as int)) > 0 {
            let i = positions(f.take(t as int))[0];
            assert(f.take(t as int)[i]);
            assert((w >> (i as u64)) & 1u64 == 0u64);
        }
    }
    lemma_position_of(f, t as int);
    assert forall|i: int| 0 <= i < 64 implies word_flags(v)[i] == #[trigger] f.update(t as int, false)[i] by {
        let j = i as u64;
        assert(((v >> j) & 1 == 1) == (j != t && (w >> j) & 1 == 1)) by (bit_vector)
            requires
                v == w & (w - 1) as u64,
                j < 64,
                t < 64,
                (w >> t) & 1 == 1,
                w << ((64 - t) as u64) == 0,
        ;
    }
    assert(word_flags(v) =~= f.update(t as int, false));
    lemma_positions_clear(f, t as int);
    assert(positions(f).remove(0) =~= positions(f).skip(1));
}

/// The index of the `rank`-th set bit of a word, counted from the lowest.
pub fn select_in_word(word: u64, rank: u32) -> (r: u32)
    requires
        1 <= rank <= popcount(word),
    ensures
        r < 64,
        word_bit(word, r as int),
        ones(word_flags(word).take(r as int)) == rank - 1,
{
    let mut left: u64 = word;
    let mut i: u32 = 1;
    let ghost all = positions(word_flags(word));
    proof {
        assert(all.skip(0) =~= all);
    }
    while i < rank
        invariant
            1 <= i <= rank <= all.len(),
            all == positions(word_flags(word)),
            positions(word_flags(left)) == all.skip(i - 1),
        decreases rank - i,
    {
        proof {
            lemma_zero_word(left);
            lemma_clear_lowest(left);
            assert(all.skip(i - 1).skip(1) =~= all.skip(i as int));
        }
        left = left & (left - 1);
        i = i + 1;
    }
    let r: u32 = left.trailing_zeros();
    proof {
        lemma_zero_word(left);
        lemma_clear_lowest(left);
        axiom_u64_trailing_zeros(left);
        assert(all[rank - 1] == r);
        lemma_positions(word_flags(word));
        let f = word_flags(word);
        assert(f[r as int]);
        lemma_position_of(f, r as int);
        let k = ones(f.take(r as int)) as int;
        if k < rank - 1 {
            assert(all[k] < all[rank - 1]);
        } else if k > rank - 1 {
            assert(all[rank - 1] < all[k]);
        }
    }
    r
}

/// A word with a set flag is not zero.
proof fn lemma_zero_word(w: u64)
    ensures
        w == 0 ==> popcount(w) == 0,
{
    if w == 0 {
        lemma_positions(word_flags(w));
        if popcount(w) > 0 {
            let i = positions(word_flags(w))[0];
            assert(word_flags(w)[i]);
            let j = i as u64;
            assert((0u64 >> j) & 1 == 0) by (bit_vector);
        }
    }
}

/// Clearing bit `b` by a mask clears that flag and no other.
pub proof fn lemma_clear_bit(w: u64, b: u64)
    requires
        b < 64,
    ensures
        (w & (1u64 << b) != 0) == word_bit(w, b as int),
        word_flags(w & !(1u64 << b)) == word_flags(w).update(b as int, false),
{
    assert((w & (1u64 << b) != 0) == ((w >> b) & 1 == 1)) by (bit_vector)
        requires
            b < 64,
    ;
    let v = w & !(1u64 << b);
    assert forall|i: int| 0 <= i < 64 implies #[trigger] word_flags(v)[i] == word_flags(w).update(
        b as int,
        false,
    )[i] by {
        let j = i as u64;
        assert(((v >> j) & 1 == 1) == (j != b && (w >> j) & 1 == 1)) by (bit_vector)
            requires
                v == w & !(1u64 << b),
                j < 64,
                b < 64,
        ;
    }
    assert(word_flags(v) =~= word_flags(w).update(b as int, false));
}

} // verus!
