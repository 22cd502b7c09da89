//! What the operations of the sieve do to the list of numbers that it holds, by their places.
use crate::scan::{
    chunk_flags, pack_u16_action, scan_chunk_words, SCAN_LARGE_DELETION_WORD_DIVISOR, SCAN_LARGE_WORDS,
    SCAN_SMALL_DELETION_WORD_DIVISOR, U16_SCAN_MAX_STEP,
};
use crate::lists::{ones, strike};
use crate::sieve::{LuckySieve, SieveError};
use crate::sizing::{after_try, reduced_size, NextTry};
use vstd::prelude::*;

verus! {

/// Whether `after` is what is left of `before` when every number whose place is a multiple of
/// `step` goes: what stays moves up by as many places as numbers went before it.
pub open spec fn is_thinned(before: Seq<int>, after: Seq<int>, step: int) -> bool {
    &&& after.len() == before.len() - before.len() as int / step
    &&& forall|place: int|
        1 <= place <= before.len() && place % step != 0 ==> #[trigger] before[place - 1] == after[place - place
            / step - 1]
}

/// What striking leaves.
proof fn lemma_thinned(s: Seq<int>, step: int)
    requires
        step >= 1,
    ensures
        is_thinned(s, strike(s, step), step),
{
    let t = strike(s, step);
    crate::lists::lemma_strike_len(s, step);
    assert forall|place: int| 1 <= place <= s.len() && place % step != 0 implies #[trigger] s[place - 1] == t[place
        - place / step - 1] by {
        crate::lists::lemma_strike_index(s, step, place);
    }
}

/// Every number that is left was there, at a place that is no multiple of the step.
pub proof fn law_thinned_numbers(before: Seq<int>, after: Seq<int>, step: int, i: int)
    requires
        step >= 1,
        is_thinned(before, after, step),
        0 <= i < after.len(),
    ensures
        exists|place: int|
            1 <= place <= before.len() && place % step != 0 && place - place / step == i + 1
                && #[trigger] before[place - 1] == after[i],
{
    lemma_thinned(before, step);
    let place = crate::lists::lemma_strike_source(before, step, i);
    assert(before[place - 1] == after[place - place / step - 1]);
}

/// Deleting every `step`-th number deletes those whose places are multiples of `step`, and no
/// others, and says how many there were.
pub proof fn law_delete_every(sieve: &mut LuckySieve, step: u64, deletions: u64)
    requires
        step >= 1,
        old(sieve).wf(),
        call_ensures(LuckySieve::delete_every, (sieve, step), deletions),
    ensures
        is_thinned(old(sieve)@, final(sieve)@, step as int),
        deletions == old(sieve)@.len() - final(sieve)@.len(),
        final(sieve).alive == final(sieve)@.len(),
        final(sieve).n_odds == old(sieve).n_odds,
{
    lemma_thinned(old(sieve)@, step as int);
}

/// Deleting with scans where they pay does the same.
pub proof fn law_delete_every_with_scan(
    sieve: &mut LuckySieve,
    step: u64,
    threads: usize,
    scan_threshold: u64,
    deletions: u64,
)
    requires
        step >= 1,
        old(sieve).wf(),
        call_ensures(LuckySieve::delete_every_with_scan, (sieve, step, threads, scan_threshold), deletions),
    ensures
        is_thinned(old(sieve)@, final(sieve)@, step as int),
        deletions == old(sieve)@.len() - final(sieve)@.len(),
        final(sieve).alive == final(sieve)@.len(),
        final(sieve).n_odds == old(sieve).n_odds,
{
    lemma_thinned(old(sieve)@, step as int);
}

/// Deleting by a scan does the same, whatever the number of workers.
pub proof fn law_delete_every_by_scan(sieve: &mut LuckySieve, step: u64, expected: u64, threads: usize, deletions: u64)
    requires
        1 <= step <= U16_SCAN_MAX_STEP,
        old(sieve).wf(),
        call_ensures(LuckySieve::delete_every_by_scan, (sieve, step, expected, threads), deletions),
    ensures
        is_thinned(old(sieve)@, final(sieve)@, step as int),
        deletions == expected,
        final(sieve).alive == final(sieve)@.len(),
        final(sieve).n_odds == old(sieve).n_odds,
{
    lemma_thinned(old(sieve)@, step as int);
}

/// The bits that a scan leaves are those of what it does not delete.
pub proof fn law_scan(sieve: &mut LuckySieve, step: u64, threads: usize, deletions: u64)
    requires
        1 <= step <= U16_SCAN_MAX_STEP,
        old(sieve).wf(),
        call_ensures(LuckySieve::delete_every_by_u16_scan, (sieve, step, threads), deletions),
    ensures
        is_thinned(old(sieve)@, final(sieve)@, step as int),
        deletions == old(sieve)@.len() - final(sieve)@.len(),
{
    lemma_thinned(old(sieve)@, step as int);
}

/// The masks for the first pass leave of all odd numbers those whose places are no multiples of
/// three.
pub proof fn law_first_pass(sieve: &mut LuckySieve, deletions: u64)
    requires
        old(sieve).wf(),
        old(sieve).alive == old(sieve).n_odds,
        call_ensures(LuckySieve::delete_initial_every_three, (sieve,), deletions),
    ensures
        is_thinned(old(sieve)@, final(sieve)@, 3),
        deletions == old(sieve)@.len() - final(sieve)@.len(),
{
    lemma_thinned(old(sieve)@, 3);
}

/// A scan is made only up to the threshold and the largest step there is a table for, in a sieve
/// of a million words or more, and there exactly where a deletion falls on every four words, or
/// every sixteen from a hundred million words on.
pub proof fn law_should_scan_delete(sieve: &LuckySieve, step: u64, deletions: u64, scan_threshold: u64, r: bool)
    requires
        call_ensures(LuckySieve::should_scan_delete, (sieve, step, deletions, scan_threshold), r),
    ensures
        step > scan_threshold || step > 2048 || sieve.bits@.len() < 1_000_000 ==> !r,
        step <= scan_threshold && step <= 2048 && 1_000_000 <= sieve.bits@.len() < 100_000_000 ==> (r <==> 4
            * deletions + 4 > sieve.bits@.len()),
        step <= scan_threshold && step <= 2048 && sieve.bits@.len() >= 100_000_000 ==> (r <==> 16 * deletions + 16
            > sieve.bits@.len()),
{
    let words = sieve.bits@.len() as int;
    let divisor: int = if words >= SCAN_LARGE_WORDS {
        SCAN_LARGE_DELETION_WORD_DIVISOR as int
    } else {
        SCAN_SMALL_DELETION_WORD_DIVISOR as int
    };
    let share = words / divisor;
    vstd::arithmetic::div_mod::lemma_fundamental_div_mod(words, divisor);
    assert(words == divisor * share + words % divisor);
    assert(r == sieve.scan_pays(step as int, deletions as int, scan_threshold as int));
    if words >= SCAN_LARGE_WORDS {
        assert(divisor == 16);
    } else {
        assert(divisor == 4);
    }
}

/// The words of a scan are dealt out so that the workers' parts cover them all and smaller parts
/// would not; no worker at all counts as one.
pub proof fn law_scan_chunk_words(total_words: usize, threads: usize, r: usize)
    requires
        call_ensures(scan_chunk_words, (total_words, threads), r),
    ensures
        threads <= 1 ==> r == total_words,
        threads >= 1 ==> r * threads >= total_words,
        threads >= 1 && r >= 2 ==> (r - 1) * threads < total_words,
        total_words >= 1 ==> r >= 1,
        total_words == 0 ==> r == 0,
{
    let n = total_words as int;
    let at_least: int = if threads > 1 {
        threads as int
    } else {
        1
    };
    let at_most: int = if n > 1 {
        n
    } else {
        1
    };
    let t: int = if at_least < at_most {
        at_least
    } else {
        at_most
    };
    assert(r == (n + t - 1) / t);
    vstd::arithmetic::div_mod::lemma_fundamental_div_mod(n + t - 1, t);
    let rest = (n + t - 1) % t;
    assert(r * t >= n && (r - 1) * t < n) by (nonlinear_arith)
        requires
            n + t - 1 == t * r + rest,
            0 <= rest < t,
            n >= 0,
    ;
    if t < at_least {
        assert(t == at_most);
        assert(r <= 1) by (nonlinear_arith)
            requires
                (r - 1) * t < n,
                n <= t,
                t >= 1,
        ;
        assert(r * threads >= r * t) by (nonlinear_arith)
            requires
                threads >= t,
                r >= 0,
        ;
    }
}

/// How many of the lowest `n` bits of a chunk are set.
pub open spec fn low_ones(chunk: u16, n: int) -> int
    decreases n,
{
    if n <= 0 {
        0
    } else if (chunk >> ((n - 1) as u16)) & 1 == 1 {
        low_ones(chunk, n - 1) + 1
    } else {
        low_ones(chunk, n - 1)
    }
}

proof fn lemma_low_ones(chunk: u16, n: int)
    requires
        0 <= n <= 16,
    ensures
        low_ones(chunk, n) == ones(chunk_flags(chunk).take(n)),
    decreases n,
{
    let f = chunk_flags(chunk);
    if n == 0 {
        assert(f.take(0) =~= Seq::empty());
    } else {
        lemma_low_ones(chunk, n - 1);
        crate::lists::lemma_ones_step(f, n - 1);
    }
}

/// An action packs three numbers: the chunk that is left, in the low sixteen bits, how many bits
/// it clears, in the next five, and the phase after it, above. A bit of the chunk stays unless the
/// set bits since the last deletion, up to and with it, are a multiple of the step.
pub proof fn law_pack_u16_action(step: u16, phase: u16, chunk: u16, left: u16, action: u32, i: int)
    requires
        call_ensures(pack_u16_action, (step, phase, chunk), action),
        1 <= step <= U16_SCAN_MAX_STEP,
        phase < step,
        action % 65536 == left,
        0 <= i < 16,
    ensures
        (action / 65536) % 32 == (phase + low_ones(chunk, 16)) / step as int,
        action / 2097152 == (phase + low_ones(chunk, 16)) % step as int,
        ((left >> (i as u16)) & 1 == 1) <==> (chunk >> (i as u16)) & 1 == 1 && (phase + low_ones(chunk, i + 1))
            % step as int != 0,
{
    assert((action & 0xFFFF) as u16 == left && (action >> 16) & 0x1F == (action / 65536) % 32 && action >> 21 == action
        / 2097152) by (bit_vector)
        requires
            action % 65536 == left,
    ;
    let f = chunk_flags(chunk);
    assert(f.take(16) =~= f);
    lemma_low_ones(chunk, 16);
    lemma_low_ones(chunk, i + 1);
    assert(chunk_flags(left)[i] == crate::lists::thin(f, phase as int, step as int)[i]);
}

/// The next size to try is the nine tenths of the whole tens, and there is none below ten.
pub proof fn law_reduced_size(n_odds: u64, r: Option<u64>)
    requires
        call_ensures(reduced_size, (n_odds,), r),
    ensures
        r is None <==> n_odds < 10,
        forall|tens: int| n_odds >= 10 && #[trigger] (10 * tens) <= n_odds < 10 * tens + 10 ==> r->0 == 9 * tens,
{
}

/// After a try that gave a sieve, or that failed for the smallest size, there is no other; after
/// any other failure the next size is tried, and the error is kept.
pub proof fn law_after_try(n_odds: u64, outcome: Result<LuckySieve, SieveError>, size: Option<u64>, r: NextTry)
    requires
        call_ensures(reduced_size, (n_odds,), size),
        call_ensures(after_try, (n_odds, outcome), r),
    ensures
        match (outcome, size) {
            (Err(error), Some(n)) => r == (NextTry::Retry { n_odds: n, error }),
            _ => r == (NextTry::Stop { outcome }),
        },
{
}

} // verus!
