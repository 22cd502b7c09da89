//! What the library promises as a whole: the verdicts of a search are those of the sieve that
//! defines the lucky numbers.
use crate::bits::{flags, word_bit, word_flags};
use crate::candidates::{
    admitted, candidates_of, collected, lists_family, merged, merged_all, noted, noted_all, start_state, touched,
    Candidate, CandidateLabel, CandidateState, Direction, LabelMap,
};
use crate::config::CandidateFamily;
use crate::families::{
    consecutive_entries, fibonacci_seeds, is_prime, lucas_seeds, mersenne_entries, mersenne_prime_entries,
    recurrence_entries, repdigit_entries, repunit, run_value, term, terms_fit, tetranacci_seeds, Entry,
};
use crate::lists::{positions, strike};
use crate::lucky::{after_passes, is_lucky, lucky_count, odd_rank, odds};
use crate::search::{
    announced, announced_at_end, applied, at_end, factor_of, factors_left, lemma_none_pending, pending_count,
    search_from, state_after, state_at_end, state_count, verdict_from,
};
use crate::sieve::survivors;
use vstd::arithmetic::power2::pow2;
use vstd::prelude::*;

verus! {

/// Whether a state is right about the odd number `n` after `k` passes: an undecided number
/// stands at the place the state says, and not below the factors so far; a decided one has the
/// verdict it deserves, and the place of a lucky one counts the lucky numbers up to it.
pub open spec fn tracks(n: int, k: nat, state: CandidateState) -> bool {
    match state {
        CandidateState::Pending { rank } => {
            &&& 1 <= rank <= after_passes(odd_rank(n), k).len()
            &&& after_passes(odd_rank(n), k)[rank - 1] == n
            &&& k >= 1 ==> rank >= 2 * k + 1
        },
        CandidateState::Lucky { rank, .. } => is_lucky(n) && rank == lucky_count(n),
        CandidateState::Composite { .. } => !is_lucky(n),
        CandidateState::Inconclusive => false,
    }
}

/// The number one is lucky.
pub proof fn law_one_is_lucky()
    ensures
        is_lucky(1),
{
    assert forall|k: nat| #[trigger] after_passes(odd_rank(1), k).contains(1) by {
        crate::lucky::lemma_after_passes(1, k);
        assert(after_passes(1, k)[0] == 1);
    }
}

/// A fresh candidate is tracked from the start.
pub proof fn law_start_is_tracked(n: u64)
    requires
        n % 2 == 1,
    ensures
        tracks(n as int, 0, start_state(n)),
{
    if n == 1 {
        law_one_is_lucky();
        reveal_with_fuel(lucky_count, 2);
    } else {
        crate::lucky::lemma_start_place(n as int);
    }
}

/// What is left after the first pass is at most two thirds, rounded up.
proof fn lemma_first_pass_len(n_odds: nat, k: nat)
    requires
        n_odds >= 2,
        k >= 1,
    ensures
        after_passes(n_odds, k).len() <= n_odds - n_odds as int / 3,
    decreases k,
{
    let s = after_passes(n_odds, (k - 1) as nat);
    crate::lucky::lemma_after_passes(n_odds, (k - 1) as nat);
    if k == 1 {
        crate::lists::lemma_strike_len(s, 3);
    } else {
        lemma_first_pass_len(n_odds, (k - 1) as nat);
        if k < s.len() {
            crate::lists::lemma_strike_no_longer(s, s[k as int]);
        }
    }
}

/// Striking by a factor as `u64` holds it is one pass of the sieve: a factor that does not fit
/// is larger than the list is long, and so is the number in its place.
pub proof fn lemma_pass_by_u64(n_odds: nat, k: nat)
    requires
        n_odds <= u64::MAX,
        1 <= k < after_passes(n_odds, (k - 1) as nat).len(),
    ensures
        strike(
            after_passes(n_odds, (k - 1) as nat),
            factor_of(after_passes(n_odds, (k - 1) as nat)[k as int]) as int,
        ) == after_passes(n_odds, k),
{
    let s = after_passes(n_odds, (k - 1) as nat);
    crate::lucky::lemma_after_passes(n_odds, (k - 1) as nat);
    if s[k as int] >= u64::MAX {
        assert(k > 1);
        lemma_first_pass_len(n_odds, (k - 1) as nat);
        crate::lists::lemma_strike_short(s, s[k as int]);
        crate::lists::lemma_strike_short(s, u64::MAX - 1);
    }
}

/// Applying the factor of pass `k` takes a state that is right before the pass to one that is
/// right after it: a place below the factor means lucky, a multiple of it means struck, and any
/// other place `r` becomes `r - r / factor`.
pub proof fn law_factor_keeps_track(n: int, n_odds: nat, k: nat, state: CandidateState)
    requires
        1 <= n <= u64::MAX,
        n % 2 == 1,
        1 <= k < after_passes(n_odds, (k - 1) as nat).len(),
        tracks(n, (k - 1) as nat, state),
    ensures
        tracks(n, k, state_after(state, factor_of(after_passes(n_odds, (k - 1) as nat)[k as int]))),
{
    match state {
        CandidateState::Pending { rank } => {
            let m = odd_rank(n);
            let p = (k - 1) as nat;
            let s = after_passes(m, p);
            let f = after_passes(n_odds, p)[k as int];
            let r = rank as int;
            crate::lucky::lemma_after_passes(n_odds, p);
            crate::lucky::lemma_after_passes(m, p);
            if r < f {
                if k < s.len() {
                    crate::lucky::lemma_same_factor(m, n_odds, k);
                }
                crate::lucky::lemma_settled_is_lucky(n, p, r, f);
                crate::lucky::lemma_settled_place(n, p, r, f);
            } else if r % f == 0 {
                crate::lucky::lemma_struck_is_not_lucky(n, k, n_odds, r);
            } else {
                crate::lucky::lemma_pass_by_factor(m, n_odds, k);
                crate::lists::lemma_strike_index(s, f, r);
                vstd::arithmetic::div_mod::lemma_div_nonincreasing(r, f);
                vstd::arithmetic::div_mod::lemma_div_pos_is_pos(r, f);
                let moved = r - r / f;
                if moved < f {
                    crate::lucky::lemma_factor_bounds_later(m, n_odds, k);
                    crate::lucky::lemma_settled_is_lucky(n, k, moved, f);
                    crate::lucky::lemma_settled_place(n, k, moved, f);
                }
            }
        },
        _ => {},
    }
}

/// Where the factors of a sieve are used up, a place within its limit is final.
pub proof fn law_exhausted_verdict(n: int, n_odds: nat, k: nat, state: CandidateState)
    requires
        1 <= n <= u64::MAX,
        n % 2 == 1,
        n_odds >= 1,
        after_passes(n_odds, k).len() <= k + 1,
        tracks(n, k, state),
    ensures
        ({
            let limit = factor_of(2 * n_odds - 1);
            match state_at_end(state, limit) {
                CandidateState::Lucky { rank, .. } => is_lucky(n) && rank == lucky_count(n),
                CandidateState::Composite { .. } => !is_lucky(n),
                CandidateState::Inconclusive => odd_rank(n) > limit,
                CandidateState::Pending { .. } => false,
            }
        }),
{
    match state {
        CandidateState::Pending { rank } => {
            crate::lucky::lemma_after_passes(odd_rank(n), k);
            if n <= 2 * n_odds - 1 && n_odds >= 2 {
                law_own_range_is_decided(n, n_odds, k, state);
            } else if rank <= 2 * n_odds - 1 {
                crate::lucky::lemma_exhausted_bounds_later(odd_rank(n), n_odds, k);
                crate::lucky::lemma_settled_is_lucky(n, k, rank as int, 2 * n_odds as int);
                crate::lucky::lemma_settled_place(n, k, rank as int, 2 * n_odds as int);
            }
        },
        _ => {},
    }
}

/// A tracked number of the sieve's own range is decided before the factors are used up.
pub proof fn law_own_range_is_decided(n: int, n_odds: nat, k: nat, state: CandidateState)
    requires
        1 <= n <= 2 * n_odds - 1,
        n % 2 == 1,
        n_odds >= 2,
        after_passes(n_odds, k).len() <= k + 1,
        tracks(n, k, state),
    ensures
        !(state is Pending),
{
    match state {
        CandidateState::Pending { rank } => {
            crate::lucky::lemma_prefix(odd_rank(n), n_odds, k);
        },
        _ => {},
    }
}

/// What every step of a search keeps, and so what holds where it stops.
proof fn lemma_search_tracks(n_odds: nat, k: nat, candidates: Seq<Candidate>, i: int)
    requires
        1 <= n_odds <= u64::MAX,
        0 <= i < candidates.len(),
        candidates[i].n % 2 == 1,
        tracks(candidates[i].n as int, k, candidates[i].state),
    ensures
        ({
            let end = search_from(after_passes(n_odds, k), k + 2, candidates);
            &&& end.factor_rank >= k + 2
            &&& end.candidates.len() == candidates.len()
            &&& end.candidates[i].n == candidates[i].n
            &&& end.factor_rank > end.list.len() ==> end.list == after_passes(
                n_odds,
                (end.factor_rank - 2) as nat,
            ) && tracks(candidates[i].n as int, (end.factor_rank - 2) as nat, end.candidates[i].state)
            &&& end.factor_rank <= end.list.len() ==> pending_count(end.candidates) == 0 && (exists|j: nat|
                tracks(candidates[i].n as int, j, end.candidates[i].state))
        }),
    decreases factors_left(after_passes(n_odds, k), k + 2),
{
    let list = after_passes(n_odds, k);
    let n = candidates[i].n as int;
    if pending_count(candidates) == 0 || k + 2 > list.len() {
    } else {
        let p = k + 1;
        crate::lucky::lemma_after_passes(n_odds, k);
        let f = list[p as int];
        let factor = factor_of(f);
        let next = applied(candidates, factor);
        law_factor_keeps_track(n, n_odds, p, candidates[i].state);
        assert(tracks(n, p, next[i].state));
        if pending_count(next) == 0 {
        } else {
            lemma_pass_by_u64(n_odds, p);
            crate::lists::lemma_strike_no_longer(list, factor as int);
            lemma_search_tracks(n_odds, p, next, i);
        }
    }
}

/// Whether the odd number `n` is left after `k` passes, at place `r`.
pub open spec fn stands_at(n: int, k: nat, r: int) -> bool {
    1 <= r <= after_passes(odd_rank(n), k).len() && after_passes(odd_rank(n), k)[r - 1] == n
}

/// How many passes the factors of a sieve of `n_odds` odd numbers are good for, when `k` are done.
pub open spec fn last_pass(n_odds: nat, k: nat) -> nat
    decreases factors_left(after_passes(n_odds, k), k + 2),
{
    if k + 2 > after_passes(n_odds, k).len() {
        k
    } else {
        proof {
            crate::lists::lemma_strike_no_longer(after_passes(n_odds, k), after_passes(n_odds, k)[k as int + 1]);
        }
        last_pass(n_odds, k + 1)
    }
}

/// A number that every factor of a sieve leaves at a place above its limit is never decided.
proof fn lemma_stays_open(n: int, n_odds: nat, k: nat, rank: u128, r: int)
    requires
        1 <= n <= u64::MAX,
        n % 2 == 1,
        n_odds >= 1,
        stands_at(n, k, rank as int),
        stands_at(n, last_pass(n_odds, k), r),
        r > factor_of(2 * n_odds - 1),
    ensures
        rank >= r,
        verdict_from(after_passes(n_odds, k), k + 2, CandidateState::Pending { rank }) == (CandidateState::Pending {
            rank: r as u128,
        }),
    decreases factors_left(after_passes(n_odds, k), k + 2),
{
    let m = odd_rank(n);
    let list = after_passes(n_odds, k);
    let s = after_passes(m, k);
    crate::lucky::lemma_after_passes(m, k);
    crate::lucky::lemma_after_passes(n_odds, k);
    if k + 2 > list.len() {
        assert(s[rank - 1] == s[r - 1]);
    } else {
        let p = k + 1;
        let f = list[p as int];
        let end = last_pass(n_odds, k);
        crate::lists::lemma_strike_no_longer(list, f);
        lemma_last_pass_after(n_odds, p);
        assert(after_passes(m, end).contains(n)) by {
            assert(after_passes(m, end)[r - 1] == n);
        }
        crate::lucky::lemma_passes_shrink(m, p, end, n);
        crate::lucky::lemma_after_passes(m, end);
        let t = after_passes(m, p);
        let q = choose|q: int| 0 <= q < t.len() && t[q] == n;
        crate::lucky::lemma_pass_by_factor(m, n_odds, p);
        let source = crate::lists::lemma_strike_source(s, f, q);
        assert(source == rank);
        assert(factor_of(f) == f);
        lemma_stays_open(n, n_odds, p, (q + 1) as u128, r);
        assert(state_after(CandidateState::Pending { rank }, factor_of(f)) == (CandidateState::Pending {
            rank: (q + 1) as u128,
        }));
    }
}

/// The last pass is none of those that are done already.
proof fn lemma_last_pass_after(n_odds: nat, k: nat)
    ensures
        last_pass(n_odds, k) >= k,
    decreases factors_left(after_passes(n_odds, k), k + 2),
{
    if k + 2 <= after_passes(n_odds, k).len() {
        crate::lists::lemma_strike_no_longer(after_passes(n_odds, k), after_passes(n_odds, k)[k as int + 1]);
        lemma_last_pass_after(n_odds, k + 1);
    }
}

/// The verdicts of a search with a fresh sieve are true: a candidate that ends lucky is a lucky
/// number, and its place counts the lucky numbers up to it; one that ends composite is not lucky;
/// and one is left open exactly where the place that the sieve's factors leave it at is above the
/// sieve's limit. None is left undecided.
pub proof fn law_search_verdicts(n_odds: nat, candidates: Seq<Candidate>, i: int)
    requires
        1 <= n_odds <= u64::MAX,
        0 <= i < candidates.len(),
        candidates[i].n % 2 == 1,
        candidates[i].state == start_state(candidates[i].n),
    ensures
        ({
            let n = candidates[i].n as int;
            let limit = factor_of(2 * n_odds - 1);
            let verdicts = at_end(search_from(odds(n_odds), 2, candidates).candidates, limit);
            &&& verdicts.len() == candidates.len()
            &&& verdicts[i].n == candidates[i].n
            &&& match verdicts[i].state {
                CandidateState::Lucky { rank, .. } => is_lucky(n) && rank == lucky_count(n),
                CandidateState::Composite { .. } => !is_lucky(n),
                CandidateState::Inconclusive => odd_rank(n) > limit,
                CandidateState::Pending { .. } => false,
            }
            &&& verdicts[i].state is Inconclusive <==> (exists|r: int| #[trigger]
                stands_at(n, last_pass(n_odds, 0), r) && r > limit)
        }),
{
    let n = candidates[i].n as int;
    let limit = factor_of(2 * n_odds - 1);
    let end = search_from(odds(n_odds), 2, candidates);
    law_start_is_tracked(candidates[i].n);
    lemma_search_tracks(n_odds, 0, candidates, i);
    lemma_search_list(n_odds, 0, candidates);
    law_verdict_is_independent(odds(n_odds), 2, candidates, i);
    if exists|r: int| #[trigger] stands_at(n, last_pass(n_odds, 0), r) && r > limit {
        let r = choose|r: int| #[trigger] stands_at(n, last_pass(n_odds, 0), r) && r > limit;
        crate::lucky::lemma_after_passes(odd_rank(n), last_pass(n_odds, 0));
        match candidates[i].state {
            CandidateState::Pending { rank } => {
                lemma_stays_open(n, n_odds, 0, rank, r);
            },
            _ => {},
        }
    }
    match end.candidates[i].state {
        CandidateState::Pending { rank } => {
            if end.factor_rank <= end.list.len() {
                lemma_none_pending(end.candidates, i);
            }
            assert(stands_at(n, last_pass(n_odds, 0), rank as int));
        },
        _ => {},
    }
    if end.factor_rank > end.list.len() {
        law_exhausted_verdict(n, n_odds, (end.factor_rank - 2) as nat, end.candidates[i].state);
    } else {
        lemma_none_pending(end.candidates, i);
        let j = choose|j: nat| tracks(n, j, end.candidates[i].state);
        assert(tracks(n, j, end.candidates[i].state));
    }
}

/// A search that uses up the factors of a fresh sieve leaves exactly the lucky numbers of its
/// range.
pub proof fn law_exhausted_sieve_is_lucky(n_odds: nat, candidates: Seq<Candidate>, n: int)
    requires
        1 <= n_odds <= u64::MAX,
        1 <= n <= 2 * n_odds - 1,
        search_from(odds(n_odds), 2, candidates).factor_rank > search_from(odds(n_odds), 2, candidates).list.len(),
    ensures
        search_from(odds(n_odds), 2, candidates).list.contains(n) <==> is_lucky(n),
{
    let end = search_from(odds(n_odds), 2, candidates);
    lemma_search_list(n_odds, 0, candidates);
    crate::lucky::lemma_exhausted_lists_lucky(n_odds, (end.factor_rank - 2) as nat, n);
}

/// The list of a search is always that of the passes so far.
proof fn lemma_search_list(n_odds: nat, k: nat, candidates: Seq<Candidate>)
    requires
        n_odds <= u64::MAX,
    ensures
        ({
            let end = search_from(after_passes(n_odds, k), k + 2, candidates);
            &&& end.factor_rank >= k + 2
            &&& end.list == after_passes(n_odds, (end.factor_rank - 2) as nat)
            &&& end.factor_rank > end.list.len() ==> end.factor_rank - 2 == last_pass(n_odds, k)
        }),
    decreases factors_left(after_passes(n_odds, k), k + 2),
{
    let list = after_passes(n_odds, k);
    if pending_count(candidates) == 0 || k + 2 > list.len() {
    } else {
        crate::lucky::lemma_after_passes(n_odds, k);
        let f = list[k as int + 1];
        let next = applied(candidates, factor_of(f));
        if pending_count(next) == 0 {
        } else {
            lemma_pass_by_u64(n_odds, k + 1);
            crate::lists::lemma_strike_no_longer(list, factor_of(f) as int);
            lemma_search_list(n_odds, k + 1, next);
        }
    }
}

/// What a family builds up: a number is there exactly where it is odd, within the bounds and a
/// member of the family, and its labels are exactly those of its entries, each once.
pub proof fn law_collected(entries: Seq<Entry>, min: u64, max: u64, n: u64)
    ensures
        collected(entries, min, max).contains_key(n) <==> admitted(n as int, min, max) && (exists|i: int|
            0 <= i < entries.len() && (#[trigger] entries[i]).1 == n),
        collected(entries, min, max).contains_key(n) ==> {
            let labels = collected(entries, min, max)[n];
            &&& labels.no_duplicates()
            &&& forall|l: CandidateLabel| #[trigger]
                labels.contains(l) <==> (exists|i: int| 0 <= i < entries.len() && #[trigger] entries[i] == (l, n as int))
        },
    decreases entries.len(),
{
    if entries.len() > 0 {
        let rest = entries.drop_last();
        let last = entries.last();
        let m = collected(rest, min, max);
        let c = collected(entries, min, max);
        law_collected(rest, min, max, n);
        assert(entries[entries.len() - 1] == last);
        assert forall|i: int| 0 <= i < rest.len() implies rest[i] == entries[i] by {}
        let touches = admitted(last.1, min, max) && last.1 == n;
        let before: Seq<CandidateLabel> = if m.contains_key(n) {
            m[n]
        } else {
            Seq::empty()
        };
        if touches {
            assert(c.contains_key(n));
            if before.contains(last.0) {
                assert(c[n] == before);
            } else {
                assert(c[n] == before.push(last.0));
            }
        } else {
            assert(c.contains_key(n) == m.contains_key(n));
            if m.contains_key(n) {
                assert(c[n] == m[n]);
            }
        }
        if admitted(n as int, min, max) && exists|i: int| 0 <= i < entries.len() && (#[trigger] entries[i]).1 == n {
            let i = choose|i: int| 0 <= i < entries.len() && (#[trigger] entries[i]).1 == n;
            if i < rest.len() {
                assert(rest[i].1 == n);
            }
        }
        if c.contains_key(n) {
            if m.contains_key(n) {
                let i = choose|i: int| 0 <= i < rest.len() && (#[trigger] rest[i]).1 == n;
                assert(entries[i].1 == n);
            }
            let labels = c[n];
            assert forall|l: CandidateLabel| #[trigger]
                labels.contains(l) <==> (exists|i: int|
                    0 <= i < entries.len() && #[trigger] entries[i] == (l, n as int)) by {
                if labels.contains(l) {
                    let k = choose|k: int| 0 <= k < labels.len() && labels[k] == l;
                    if k < before.len() {
                        assert(before[k] == l);
                        assert(before.contains(l));
                        let i = choose|i: int| 0 <= i < rest.len() && #[trigger] rest[i] == (l, n as int);
                        assert(entries[i] == (l, n as int));
                    } else {
                        assert(entries[entries.len() - 1] == (l, n as int));
                    }
                }
                if exists|i: int| 0 <= i < entries.len() && #[trigger] entries[i] == (l, n as int) {
                    let i = choose|i: int| 0 <= i < entries.len() && #[trigger] entries[i] == (l, n as int);
                    if i < rest.len() {
                        assert(rest[i] == (l, n as int));
                        assert(rest[i].1 == n);
                        assert(before.contains(l));
                        let k = choose|k: int| 0 <= k < before.len() && before[k] == l;
                        assert(labels[k] == l);
                    } else {
                        if !before.contains(last.0) {
                            assert(labels[before.len() as int] == l);
                        }
                    }
                }
            }
        }
    }
}

/// A candidate's verdict does not depend on what other candidates the search has.
pub proof fn law_verdict_is_independent(list: Seq<int>, factor_rank: nat, candidates: Seq<Candidate>, i: int)
    requires
        0 <= i < candidates.len(),
    ensures
        search_from(list, factor_rank, candidates).candidates.len() == candidates.len(),
        search_from(list, factor_rank, candidates).candidates[i].state == verdict_from(
            list,
            factor_rank,
            candidates[i].state,
        ),
    decreases factors_left(list, factor_rank),
{
    if pending_count(candidates) == 0 {
        lemma_none_pending(candidates, i);
    } else if factor_rank > list.len() {
    } else {
        let factor = factor_of(list[factor_rank as int - 1]);
        let next = applied(candidates, factor);
        crate::lists::lemma_strike_no_longer(list, factor as int);
        if pending_count(next) == 0 {
            lemma_none_pending(next, i);
            assert(next[i].state == state_after(candidates[i].state, factor));
            reveal_with_fuel(verdict_from, 2);
        } else {
            law_verdict_is_independent(strike(list, factor as int), factor_rank + 1, next, i);
        }
    }
}

/// Words with the same flags are the same.
proof fn lemma_word_flags_injective(a: u64, b: u64)
    requires
        word_flags(a) == word_flags(b),
    ensures
        a == b,
{
    if a != b {
        let x = a ^ b;
        assert(x != 0) by (bit_vector)
            requires
                x == a ^ b,
                a != b,
        ;
        vstd::std_specs::bits::axiom_u64_trailing_zeros(x);
        let t = vstd::std_specs::bits::u64_trailing_zeros(x) as u64;
        assert(((a >> t) & 1 == 1) != ((b >> t) & 1 == 1)) by (bit_vector)
            requires
                x == a ^ b,
                t < 64,
                (x >> t) & 1 == 1,
        ;
        assert(word_flags(a)[t as int] == word_bit(a, t as int));
        assert(word_flags(b)[t as int] == word_bit(b, t as int));
    }
}

/// What is left in a sieve fixes its bits: however the same numbers came to be struck, one by
/// one or by a scan, the bits are the same.
pub proof fn law_survivors_fix_bits(a: Seq<u64>, b: Seq<u64>)
    requires
        a.len() == b.len(),
        survivors(a) == survivors(b),
    ensures
        a == b,
{
    let p = positions(flags(a));
    let q = positions(flags(b));
    assert(survivors(a).len() == p.len() && survivors(b).len() == q.len());
    assert forall|k: int| 0 <= k < p.len() implies #[trigger] p[k] == q[k] by {
        assert(survivors(a)[k] == 2 * p[k] + 1);
        assert(survivors(b)[k] == 2 * q[k] + 1);
    }
    assert(p =~= q);
    crate::lists::lemma_positions(flags(a));
    crate::lists::lemma_positions(flags(b));
    assert forall|i: int| 0 <= i < 64 * a.len() implies #[trigger] flags(a)[i] == flags(b)[i] by {
        if flags(a)[i] {
            assert(q.contains(i));
            let k = choose|k: int| 0 <= k < q.len() && q[k] == i;
            assert(flags(b)[q[k]]);
        }
        if flags(b)[i] {
            assert(p.contains(i));
            let k = choose|k: int| 0 <= k < p.len() && p[k] == i;
            assert(flags(a)[p[k]]);
        }
    }
    assert forall|w: int| 0 <= w < a.len() implies a[w] == b[w] by {
        assert forall|j: int| 0 <= j < 64 implies word_flags(a[w])[j] == word_flags(b[w])[j] by {
            assert(flags(a)[64 * w + j] == flags(b)[64 * w + j]);
            assert((64 * w + j) / 64 == w && (64 * w + j) % 64 == j);
        }
        assert(word_flags(a[w]) =~= word_flags(b[w]));
        lemma_word_flags_injective(a[w], b[w]);
    }
    assert(a =~= b);
}

/// The number that a label stands for.
pub open spec fn label_value(label: CandidateLabel) -> int {
    match label {
        CandidateLabel::Repdigit { digit, len } => repunit(len as nat) * digit,
        CandidateLabel::Mersenne { exponent } => pow2(exponent as nat) - 1,
        CandidateLabel::MersennePrimeExponent { exponent } => pow2(exponent as nat) - 1,
        CandidateLabel::Fibonacci { index } => term(fibonacci_seeds(), index as int),
        CandidateLabel::Lucas { index } => term(lucas_seeds(), index as int),
        CandidateLabel::Tetranacci { index } => term(tetranacci_seeds(), index as int),
        CandidateLabel::ConsecutiveDigits { direction, start, len } => run_value(
            start as int,
            direction,
            len as nat,
        ),
    }
}

/// Whether a family has a member with this label.
pub open spec fn family_has_label(family: CandidateFamily, label: CandidateLabel) -> bool {
    match (family, label) {
        (CandidateFamily::Repdigit, CandidateLabel::Repdigit { digit, len }) => {
            digit % 2 == 1 && digit <= 9 && 1 <= len <= 20
        },
        (CandidateFamily::Mersenne, CandidateLabel::Mersenne { exponent }) => 1 <= exponent <= 64,
        (CandidateFamily::MersennePrimeExponent, CandidateLabel::MersennePrimeExponent { exponent }) => {
            2 <= exponent <= 64 && is_prime(exponent as int)
        },
        (CandidateFamily::Fibonacci, CandidateLabel::Fibonacci { .. }) => true,
        (CandidateFamily::Lucas, CandidateLabel::Lucas { .. }) => true,
        (CandidateFamily::Tetranacci, CandidateLabel::Tetranacci { .. }) => true,
        (CandidateFamily::ConsecutiveDigits, CandidateLabel::ConsecutiveDigits { start, len, .. }) => {
            1 <= start <= 9 && 2 <= len <= 20
        },
        _ => false,
    }
}

/// Whether `entries` are the labels of a family with the numbers they stand for, as far as those
/// fit `u64`.
spec fn family_entries(family: CandidateFamily, entries: Seq<Entry>) -> bool {
    &&& forall|i: int|
        0 <= i < entries.len() ==> family_has_label(family, (#[trigger] entries[i]).0) && entries[i].1
            == label_value(entries[i].0)
    &&& forall|l: CandidateLabel| #[trigger]
        family_has_label(family, l) && label_value(l) <= u64::MAX ==> exists|i: int|
            0 <= i < entries.len() && (#[trigger] entries[i]).0 == l
}

/// Whether one of the candidates is `n`.
pub open spec fn has_number(candidates: Seq<Candidate>, n: u64) -> bool {
    exists|i: int| 0 <= i < candidates.len() && (#[trigger] candidates[i]).n == n
}

/// Candidates built up from the labels of a family are its members.
proof fn lemma_members(
    family: CandidateFamily,
    entries: Seq<Entry>,
    candidates: Seq<Candidate>,
    min: u64,
    max: u64,
)
    requires
        family_entries(family, entries),
        candidates_of(candidates, collected(entries, min, max)),
    ensures
        forall|i: int, l: CandidateLabel|
            0 <= i < candidates.len() ==> (#[trigger] candidates[i].label_seq().contains(l) <==> family_has_label(
                family,
                l,
            ) && label_value(l) == candidates[i].n),
        forall|n: u64| #[trigger]
            has_number(candidates, n) <==> admitted(n as int, min, max) && in_family(family, n as int),
{
    let m = collected(entries, min, max);
    assert forall|i: int, l: CandidateLabel| 0 <= i < candidates.len() implies (#[trigger] candidates[
        i
    ].label_seq().contains(l) <==> family_has_label(family, l) && label_value(l) == candidates[i].n) by {
        let n = candidates[i].n;
        law_collected(entries, min, max, n);
        assert(m.contains_key(candidates[i].n));
        assert(candidates[i].label_seq() == m[n]);
        if m[n].contains(l) {
            let k = choose|k: int| 0 <= k < entries.len() && #[trigger] entries[k] == (l, n as int);
            assert(family_has_label(family, entries[k].0));
        }
        if family_has_label(family, l) && label_value(l) == n {
            let k = choose|k: int| 0 <= k < entries.len() && (#[trigger] entries[k]).0 == l;
            assert(entries[k] == (l, n as int));
        }
    }
    assert forall|n: u64| #[trigger]
        has_number(candidates, n) <==> admitted(n as int, min, max) && in_family(family, n as int) by {
        law_collected(entries, min, max, n);
        if has_number(candidates, n) {
            let i = choose|i: int| 0 <= i < candidates.len() && (#[trigger] candidates[i]).n == n;
            assert(m.contains_key(candidates[i].n));
            let k = choose|k: int| 0 <= k < entries.len() && (#[trigger] entries[k]).1 == n;
            assert(family_has_label(family, entries[k].0) && label_value(entries[k].0) == n);
        }
        if admitted(n as int, min, max) && in_family(family, n as int) {
            let l = choose|l: CandidateLabel| #[trigger] family_has_label(family, l) && label_value(l) == n;
            let k = choose|k: int| 0 <= k < entries.len() && (#[trigger] entries[k]).0 == l;
            assert(entries[k].1 == n);
            assert(m.contains_key(n));
        }
    }
}

/// Whether `n` is a member of a family.
pub open spec fn in_family(family: CandidateFamily, n: int) -> bool {
    exists|l: CandidateLabel| #[trigger] family_has_label(family, l) && label_value(l) == n
}

/// A family's candidates within the bounds are exactly its odd members there, and the labels of
/// each are exactly those of the family that stand for its number.
pub proof fn law_family_members(family: CandidateFamily, candidates: Seq<Candidate>, min: u64, max: u64)
    requires
        lists_family(family, candidates, min, max),
    ensures
        forall|i: int, l: CandidateLabel|
            0 <= i < candidates.len() ==> (#[trigger] candidates[i].label_seq().contains(l) <==> family_has_label(
                family,
                l,
            ) && label_value(l) == candidates[i].n),
        forall|n: u64| #[trigger]
            has_number(candidates, n) <==> admitted(n as int, min, max) && in_family(family, n as int),
{
    match family {
        CandidateFamily::Repdigit => {
            lemma_repdigit_entries();
            lemma_members(family, repdigit_entries(), candidates, min, max);
        },
        CandidateFamily::Mersenne => {
            lemma_mersenne_entries();
            lemma_members(family, mersenne_entries(), candidates, min, max);
        },
        CandidateFamily::MersennePrimeExponent => {
            lemma_mersenne_prime_entries(63);
            lemma_members(family, mersenne_prime_entries(63), candidates, min, max);
        },
        CandidateFamily::Fibonacci => {
            let label = |index: u32| CandidateLabel::Fibonacci { index };
            let count = choose|count: nat| #[trigger]
                terms_fit(fibonacci_seeds(), count) && candidates_of(
                    candidates,
                    collected(recurrence_entries(fibonacci_seeds(), count, label), min, max),
                );
            assert forall|l: CandidateLabel| #[trigger] family_has_label(family, l) implies exists|index: u32|
                l == #[trigger] label(index) by {
                assert(l == label(l->Fibonacci_index));
            }
            lemma_recurrence_entries(family, fibonacci_seeds(), count, label);
            lemma_members(family, recurrence_entries(fibonacci_seeds(), count, label), candidates, min, max);
        },
        CandidateFamily::Lucas => {
            let label = |index: u32| CandidateLabel::Lucas { index };
            let count = choose|count: nat| #[trigger]
                terms_fit(lucas_seeds(), count) && candidates_of(
                    candidates,
                    collected(recurrence_entries(lucas_seeds(), count, label), min, max),
                );
            assert forall|l: CandidateLabel| #[trigger] family_has_label(family, l) implies exists|index: u32|
                l == #[trigger] label(index) by {
                assert(l == label(l->Lucas_index));
            }
            lemma_recurrence_entries(family, lucas_seeds(), count, label);
            lemma_members(family, recurrence_entries(lucas_seeds(), count, label), candidates, min, max);
        },
        CandidateFamily::Tetranacci => {
            let label = |index: u32| CandidateLabel::Tetranacci { index };
            let count = choose|count: nat| #[trigger]
                terms_fit(tetranacci_seeds(), count) && candidates_of(
                    candidates,
                    collected(recurrence_entries(tetranacci_seeds(), count, label), min, max),
                );
            assert forall|l: CandidateLabel| #[trigger] family_has_label(family, l) implies exists|index: u32|
                l == #[trigger] label(index) by {
                assert(l == label(l->Tetranacci_index));
            }
            lemma_recurrence_entries(family, tetranacci_seeds(), count, label);
            lemma_members(family, recurrence_entries(tetranacci_seeds(), count, label), candidates, min, max);
        },
        CandidateFamily::ConsecutiveDigits => {
            lemma_consecutive_entries();
            lemma_members(family, consecutive_entries(), candidates, min, max);
        },
    }
}

proof fn lemma_repdigit_entries()
    ensures
        family_entries(CandidateFamily::Repdigit, repdigit_entries()),
{
    let entries = repdigit_entries();
    assert forall|l: CandidateLabel| #[trigger]
        family_has_label(CandidateFamily::Repdigit, l) && label_value(l) <= u64::MAX implies exists|i: int|
        0 <= i < entries.len() && (#[trigger] entries[i]).0 == l by {
        match l {
            CandidateLabel::Repdigit { digit, len } => {
                let i = 5 * (len - 1) + (digit - 1) / 2;
                assert(i % 5 == (digit - 1) / 2 && i / 5 == len - 1);
                assert(entries[i].0 == l);
            },
            _ => {},
        }
    }
}

proof fn lemma_mersenne_entries()
    ensures
        family_entries(CandidateFamily::Mersenne, mersenne_entries()),
{
    let entries = mersenne_entries();
    assert forall|l: CandidateLabel| #[trigger]
        family_has_label(CandidateFamily::Mersenne, l) && label_value(l) <= u64::MAX implies exists|i: int|
        0 <= i < entries.len() && (#[trigger] entries[i]).0 == l by {
        match l {
            CandidateLabel::Mersenne { exponent } => {
                assert(entries[exponent - 1].0 == l);
            },
            _ => {},
        }
    }
}

proof fn lemma_mersenne_prime_entries(k: nat)
    requires
        k <= 63,
    ensures
        forall|i: int|
            0 <= i < mersenne_prime_entries(k).len() ==> family_has_label(
                CandidateFamily::MersennePrimeExponent,
                (#[trigger] mersenne_prime_entries(k)[i]).0,
            ) && mersenne_prime_entries(k)[i].1 == label_value(mersenne_prime_entries(k)[i].0),
        forall|l: CandidateLabel| #[trigger]
            family_has_label(CandidateFamily::MersennePrimeExponent, l)
                && l->MersennePrimeExponent_exponent <= k + 1 ==> exists|i: int|
                0 <= i < mersenne_prime_entries(k).len() && (#[trigger] mersenne_prime_entries(k)[i]).0 == l,
        k == 63 ==> family_entries(CandidateFamily::MersennePrimeExponent, mersenne_prime_entries(k)),
    decreases k,
{
    if k > 0 {
        lemma_mersenne_prime_entries((k - 1) as nat);
        let rest = mersenne_prime_entries((k - 1) as nat);
        let entries = mersenne_prime_entries(k);
        assert forall|l: CandidateLabel| #[trigger]
            family_has_label(CandidateFamily::MersennePrimeExponent, l)
                && l->MersennePrimeExponent_exponent <= k + 1 implies exists|i: int|
            0 <= i < entries.len() && (#[trigger] entries[i]).0 == l by {
            if l->MersennePrimeExponent_exponent <= k {
                let i = choose|i: int| 0 <= i < rest.len() && (#[trigger] rest[i]).0 == l;
                assert(entries[i].0 == l);
            } else {
                assert(entries[entries.len() - 1].0 == l);
            }
        }
        assert forall|i: int| 0 <= i < entries.len() implies family_has_label(
            CandidateFamily::MersennePrimeExponent,
            (#[trigger] entries[i]).0,
        ) && entries[i].1 == label_value(entries[i].0) by {
            if i < rest.len() {
                assert(entries[i] == rest[i]);
            }
        }
    }
}

proof fn lemma_recurrence_entries(
    family: CandidateFamily,
    seeds: Seq<int>,
    count: nat,
    label: spec_fn(u32) -> CandidateLabel,
)
    requires
        seeds.len() >= 2,
        forall|i: int| 0 <= i < seeds.len() ==> #[trigger] seeds[i] >= 0,
        terms_fit(seeds, count),
        forall|index: u32|
            family_has_label(family, #[trigger] label(index)) && label_value(label(index)) == term(
                seeds,
                index as int,
            ),
        forall|l: CandidateLabel| #[trigger] family_has_label(family, l) ==> exists|index: u32| l == #[trigger] label(index),
    ensures
        family_entries(family, recurrence_entries(seeds, count, label)),
{
    let entries = recurrence_entries(seeds, count, label);
    assert forall|i: int| 0 <= i < entries.len() implies family_has_label(family, (#[trigger] entries[i]).0)
        && entries[i].1 == label_value(entries[i].0) by {
        crate::families::lemma_terms_prefix(seeds, count, i);
        assert(entries[i].0 == label(i as u32));
    }
    assert forall|l: CandidateLabel| #[trigger]
        family_has_label(family, l) && label_value(l) <= u64::MAX implies exists|i: int|
        0 <= i < entries.len() && (#[trigger] entries[i]).0 == l by {
        let index = choose|index: u32| l == #[trigger] label(index);
        if index >= count {
            crate::families::lemma_terms_stay_large(seeds, count, index as int);
        }
        assert(entries[index as int].0 == l);
    }
}

proof fn lemma_consecutive_entries()
    ensures
        family_entries(CandidateFamily::ConsecutiveDigits, consecutive_entries()),
{
    let entries = consecutive_entries();
    assert forall|l: CandidateLabel| #[trigger]
        family_has_label(CandidateFamily::ConsecutiveDigits, l) && label_value(l) <= u64::MAX implies exists|i: int|
        0 <= i < entries.len() && (#[trigger] entries[i]).0 == l by {
        match l {
            CandidateLabel::ConsecutiveDigits { direction, start, len } => {
                crate::families::lemma_consecutive_entry(start as int, direction, len as int);
                let i = 38 * (start - 1) + (if direction == Direction::Desc {
                    0int
                } else {
                    19int
                }) + (len - 2);
                assert(entries[i].0 == l);
            },
            _ => {},
        }
    }
}

/// The labels of `n` in a map, none where `n` is not in it.
pub open spec fn labels_in(m: LabelMap, n: u64) -> Seq<CandidateLabel> {
    if m.contains_key(n) {
        m[n]
    } else {
        Seq::empty()
    }
}

/// Whether one of the candidates is `n` and carries `label`.
pub open spec fn has_labelled(candidates: Seq<Candidate>, n: u64, label: CandidateLabel) -> bool {
    exists|i: int|
        0 <= i < candidates.len() && (#[trigger] candidates[i]).n == n && candidates[i].label_seq().contains(label)
}

/// Noting one label.
proof fn lemma_noted(m: LabelMap, n: u64, label: CandidateLabel, k: u64, l: CandidateLabel)
    requires
        labels_in(m, k).no_duplicates(),
    ensures
        noted(m, n, label).contains_key(k) <==> m.contains_key(k) || k == n,
        labels_in(noted(m, n, label), k).no_duplicates(),
        labels_in(noted(m, n, label), k).contains(l) <==> labels_in(m, k).contains(l) || (k == n && l == label),
{
    let before = labels_in(m, k);
    let after = labels_in(noted(m, n, label), k);
    if k == n {
        if before.contains(label) {
            assert(after == before);
        } else {
            assert(after == before.push(label));
            assert(after[before.len() as int] == label);
            if before.contains(l) {
                let i = choose|i: int| 0 <= i < before.len() && before[i] == l;
                assert(after[i] == l);
            }
            if after.contains(l) {
                let i = choose|i: int| 0 <= i < after.len() && after[i] == l;
                if i < before.len() {
                    assert(before[i] == l);
                }
            }
        }
    } else {
        assert(after == before);
    }
}

/// Noting the labels of one candidate.
proof fn lemma_noted_all(m: LabelMap, n: u64, labels: Seq<CandidateLabel>, k: u64, l: CandidateLabel)
    requires
        labels_in(m, k).no_duplicates(),
    ensures
        noted_all(m, n, labels).contains_key(k) <==> m.contains_key(k) || k == n,
        labels_in(noted_all(m, n, labels), k).no_duplicates(),
        labels_in(noted_all(m, n, labels), k).contains(l) <==> labels_in(m, k).contains(l) || (k == n
            && labels.contains(l)),
    decreases labels.len(),
{
    if labels.len() > 0 {
        let rest = labels.drop_last();
        lemma_noted_all(m, n, rest, k, l);
        lemma_noted(noted_all(m, n, rest), n, labels.last(), k, l);
        if labels.contains(l) {
            let i = choose|i: int| 0 <= i < labels.len() && labels[i] == l;
            if i < rest.len() {
                assert(rest[i] == l);
            }
        }
        if rest.contains(l) {
            let i = choose|i: int| 0 <= i < rest.len() && rest[i] == l;
            assert(labels[i] == l);
        }
        assert(labels[labels.len() - 1] == labels.last());
    } else {
        assert(labels_in(touched(m, n), k) =~= labels_in(m, k));
    }
}

/// Merging one list of candidates.
proof fn lemma_merged(m: LabelMap, candidates: Seq<Candidate>, k: u64, l: CandidateLabel)
    requires
        labels_in(m, k).no_duplicates(),
    ensures
        merged(m, candidates).contains_key(k) <==> m.contains_key(k) || has_number(candidates, k),
        labels_in(merged(m, candidates), k).no_duplicates(),
        labels_in(merged(m, candidates), k).contains(l) <==> labels_in(m, k).contains(l) || has_labelled(
            candidates,
            k,
            l,
        ),
    decreases candidates.len(),
{
    if candidates.len() > 0 {
        let rest = candidates.drop_last();
        let last = candidates.last();
        lemma_merged(m, rest, k, l);
        lemma_noted_all(merged(m, rest), last.n, last.label_seq(), k, l);
        assert(candidates[candidates.len() - 1] == last);
        if has_number(rest, k) {
            let i = choose|i: int| 0 <= i < rest.len() && (#[trigger] rest[i]).n == k;
            assert(candidates[i].n == k);
        }
        if has_number(candidates, k) {
            let i = choose|i: int| 0 <= i < candidates.len() && (#[trigger] candidates[i]).n == k;
            if i < rest.len() {
                assert(rest[i].n == k);
            }
        }
        if has_labelled(rest, k, l) {
            let i = choose|i: int|
                0 <= i < rest.len() && (#[trigger] rest[i]).n == k && rest[i].label_seq().contains(l);
            assert(candidates[i].n == k);
        }
        if has_labelled(candidates, k, l) {
            let i = choose|i: int|
                0 <= i < candidates.len() && (#[trigger] candidates[i]).n == k && candidates[i].label_seq().contains(l);
            if i < rest.len() {
                assert(rest[i].n == k);
            }
        }
    }
}

/// Merging lists of candidates keeps every number of every list, once, with the labels that any
/// of the lists gives it, each once.
pub proof fn law_merged(lists: Seq<Vec<Candidate>>, n: u64, l: CandidateLabel)
    ensures
        merged_all(lists).contains_key(n) <==> (exists|j: int|
            0 <= j < lists.len() && has_number((#[trigger] lists[j])@, n)),
        labels_in(merged_all(lists), n).no_duplicates(),
        labels_in(merged_all(lists), n).contains(l) <==> (exists|j: int|
            0 <= j < lists.len() && has_labelled((#[trigger] lists[j])@, n, l)),
    decreases lists.len(),
{
    if lists.len() > 0 {
        let rest = lists.drop_last();
        law_merged(rest, n, l);
        lemma_merged(merged_all(rest), lists.last()@, n, l);
        assert(lists[lists.len() - 1] == lists.last());
        if exists|j: int| 0 <= j < rest.len() && has_number((#[trigger] rest[j])@, n) {
            let j = choose|j: int| 0 <= j < rest.len() && has_number((#[trigger] rest[j])@, n);
            assert(has_number(lists[j]@, n));
        }
        if exists|j: int| 0 <= j < lists.len() && has_number((#[trigger] lists[j])@, n) {
            let j = choose|j: int| 0 <= j < lists.len() && has_number((#[trigger] lists[j])@, n);
            if j < rest.len() {
                assert(has_number(rest[j]@, n));
            }
        }
        if exists|j: int| 0 <= j < rest.len() && has_labelled((#[trigger] rest[j])@, n, l) {
            let j = choose|j: int| 0 <= j < rest.len() && has_labelled((#[trigger] rest[j])@, n, l);
            assert(has_labelled(lists[j]@, n, l));
        }
        if exists|j: int| 0 <= j < lists.len() && has_labelled((#[trigger] lists[j])@, n, l) {
            let j = choose|j: int| 0 <= j < lists.len() && has_labelled((#[trigger] lists[j])@, n, l);
            if j < rest.len() {
                assert(has_labelled(rest[j]@, n, l));
            }
        }
    }
}

/// What a search strikes and what it leaves in a fresh sieve add up to what the sieve held.
pub proof fn law_deletions_add_up(n_odds: nat, candidates: Seq<Candidate>)
    requires
        n_odds <= u64::MAX,
    ensures
        ({
            let end = search_from(odds(n_odds), 2, candidates);
            end.total_deleted + end.list.len() == n_odds
        }),
{
    lemma_deletions_add_up(n_odds, 0, candidates);
}

/// What the rest of a search strikes and what it leaves add up to what there was.
proof fn lemma_deletions_add_up(n_odds: nat, k: nat, candidates: Seq<Candidate>)
    requires
        n_odds <= u64::MAX,
    ensures
        ({
            let end = search_from(after_passes(n_odds, k), k + 2, candidates);
            end.total_deleted + end.list.len() == after_passes(n_odds, k).len()
        }),
    decreases factors_left(after_passes(n_odds, k), k + 2),
{
    let list = after_passes(n_odds, k);
    if pending_count(candidates) == 0 || k + 2 > list.len() {
    } else {
        crate::lucky::lemma_after_passes(n_odds, k);
        let factor = factor_of(list[k as int + 1]);
        let next = applied(candidates, factor);
        if pending_count(next) == 0 {
        } else {
            lemma_pass_by_u64(n_odds, k + 1);
            crate::lists::lemma_strike_no_longer(list, factor as int);
            crate::lists::lemma_strike_len(list, factor as int);
            lemma_deletions_add_up(n_odds, k + 1, next);
        }
    }
}

/// A factor announces as many candidates as it decides.
pub proof fn lemma_announced_len(candidates: Seq<Candidate>, factor: u64)
    ensures
        announced(candidates, factor).len() + pending_count(applied(candidates, factor)) == pending_count(candidates),
    decreases candidates.len(),
{
    if candidates.len() > 0 {
        lemma_announced_len(candidates.drop_last(), factor);
        assert(applied(candidates, factor).drop_last() =~= applied(candidates.drop_last(), factor));
    } else {
        assert(applied(candidates, factor) =~= Seq::empty());
    }
}

/// The end of the factors announces every candidate that is undecided.
proof fn lemma_announced_at_end_len(candidates: Seq<Candidate>, limit: u64)
    ensures
        announced_at_end(candidates, limit).len() == pending_count(candidates),
    decreases candidates.len(),
{
    if candidates.len() > 0 {
        lemma_announced_at_end_len(candidates.drop_last(), limit);
    }
}

/// A search has as much to say as there are undecided candidates at its start: one thing for
/// each, on the way or at the end.
pub proof fn law_each_candidate_is_announced(list: Seq<int>, factor_rank: nat, candidates: Seq<Candidate>, limit: u64)
    ensures
        ({
            let end = search_from(list, factor_rank, candidates);
            end.announcements.len() + announced_at_end(end.candidates, limit).len() == pending_count(candidates)
        }),
    decreases factors_left(list, factor_rank),
{
    if pending_count(candidates) == 0 || factor_rank > list.len() {
        lemma_announced_at_end_len(candidates, limit);
    } else {
        let factor = factor_of(list[factor_rank as int - 1]);
        let next = applied(candidates, factor);
        lemma_announced_len(candidates, factor);
        crate::lists::lemma_strike_no_longer(list, factor as int);
        if pending_count(next) == 0 {
            lemma_announced_at_end_len(next, limit);
        } else {
            law_each_candidate_is_announced(strike(list, factor as int), factor_rank + 1, next, limit);
        }
    }
}

/// Every candidate is in one of the four states that are counted.
pub proof fn law_tally_adds_up(candidates: Seq<Candidate>)
    ensures
        pending_count(candidates) + state_count(candidates, |s: CandidateState| s is Lucky) + state_count(
            candidates,
            |s: CandidateState| s is Composite,
        ) + state_count(candidates, |s: CandidateState| s is Inconclusive) == candidates.len(),
    decreases candidates.len(),
{
    if candidates.len() > 0 {
        law_tally_adds_up(candidates.drop_last());
    }
}

/// A place that a factor moves down does not fall below the factor: what is lucky by a factor is
/// so before the factor strikes.
pub proof fn law_moved_place_is_not_below(rank: int, factor: int)
    requires
        factor >= 1,
        rank >= factor,
        rank % factor != 0,
    ensures
        rank - rank / factor >= factor,
{
    vstd::arithmetic::div_mod::lemma_fundamental_div_mod(rank, factor);
    let q = rank / factor;
    let r = rank % factor;
    assert(q >= 1) by (nonlinear_arith)
        requires
            rank == factor * q + r,
            rank >= factor,
            0 <= r < factor,
    ;
    assert(factor * q - q >= factor - 1) by (nonlinear_arith)
        requires
            q >= 1,
            factor >= 1,
    ;
}

} // verus!
