//! What a search reports: the factor that settled or struck each candidate, and what is said of
//! it.
use crate::candidates::{start_state, Candidate, CandidateState};
use crate::laws::{last_pass, stands_at};
use crate::lists::strike;
use crate::lucky::{after_passes, is_lucky, lucky_count, odd_rank, odds};
use crate::search::{
    announced, announced_at_end, applied, apply_factor_to_candidates, at_end, count_pending, factor_of, factors_left,
    max_open_rank, max_pending_rank, pending_count, search_from, search_with_sieve, state_after, state_count, tally,
    verdict_from, Announcement, SearchReport, Tally,
};
use crate::sieve::LuckySieve;
use vstd::prelude::*;

verus! {

/// Whether the first `k` factors of a sieve all leave the odd number `n` open: each is at most as
/// large as the place of `n`, which is the last one among the numbers up to `n`.
pub open spec fn open_before(n: int, n_odds: nat, k: nat) -> bool {
    forall|i: nat|
        i < k ==> i + 1 < (#[trigger] after_passes(n_odds, i)).len() && after_passes(n_odds, i)[i as int + 1]
            <= after_passes(odd_rank(n), i).len()
}

/// Whether the factor of pass `j + 1` strikes the odd number `n`, which it finds at place `rank`.
pub open spec fn struck_by(n: int, n_odds: nat, j: nat, rank: int, factor: int) -> bool {
    &&& j + 1 < after_passes(n_odds, j).len()
    &&& factor == after_passes(n_odds, j)[j as int + 1]
    &&& stands_at(n, j, rank)
    &&& rank % factor == 0
    &&& open_before(n, n_odds, j)
}

/// Whether the factor of pass `j + 1` is the first that is above the place of the odd number `n`,
/// which it finds at place `rank`.
pub open spec fn settled_by(n: int, n_odds: nat, j: nat, rank: int, factor: int) -> bool {
    &&& j + 1 < after_passes(n_odds, j).len()
    &&& factor == if after_passes(n_odds, j)[j as int + 1] < u64::MAX {
        after_passes(n_odds, j)[j as int + 1]
    } else {
        u64::MAX - 1
    }
    &&& stands_at(n, j, rank)
    &&& rank < factor
    &&& open_before(n, n_odds, j)
}

/// Whether `factor` is a factor of the sieve that strikes the odd number `n`, at place `rank`.
pub open spec fn is_struck(n: int, n_odds: nat, rank: int, factor: int) -> bool {
    exists|j: nat| #[trigger] struck_by(n, n_odds, j, rank, factor)
}

/// Whether `factor` is the first factor of the sieve above the place `rank` of the odd number `n`.
pub open spec fn is_settled(n: int, n_odds: nat, rank: int, factor: int) -> bool {
    exists|j: nat| #[trigger] settled_by(n, n_odds, j, rank, factor)
}

/// What the factors from one on make of an open number comes from one of them, or from none.
proof fn lemma_reason(n: int, n_odds: nat, k: nat, rank: u128)
    requires
        1 <= n <= u64::MAX,
        n % 2 == 1,
        1 <= n_odds <= u64::MAX,
        stands_at(n, k, rank as int),
        open_before(n, n_odds, k),
    ensures
        match verdict_from(after_passes(n_odds, k), k + 2, CandidateState::Pending { rank }) {
            CandidateState::Lucky { rank: at, proof_factor } => is_settled(
                n,
                n_odds,
                at as int,
                proof_factor as int,
            ),
            CandidateState::Composite { rank: at, deletion_factor } => is_struck(
                n,
                n_odds,
                at as int,
                deletion_factor as int,
            ),
            CandidateState::Pending { rank: at } => stands_at(n, last_pass(n_odds, k), at as int) && open_before(
                n,
                n_odds,
                last_pass(n_odds, k),
            ),
            CandidateState::Inconclusive => false,
        },
    decreases factors_left(after_passes(n_odds, k), k + 2),
{
    let m = odd_rank(n);
    let list = after_passes(n_odds, k);
    let s = after_passes(m, k);
    crate::lucky::lemma_after_passes(m, k);
    crate::lucky::lemma_after_passes(n_odds, k);
    if rank < s.len() {
        assert(s[rank as int - 1] < s[rank as int]);
    }
    assert(rank == s.len());
    if k + 2 > list.len() {
    } else {
        let p = k + 1;
        let f = list[p as int];
        let factor = factor_of(f);
        let state = CandidateState::Pending { rank };
        let after = state_after(state, factor);
        crate::lists::lemma_strike_no_longer(list, factor as int);
        crate::lists::lemma_strike_no_longer(list, f);
        crate::laws::lemma_pass_by_u64(n_odds, p);
        assert(verdict_from(list, k + 2, state) == verdict_from(after_passes(n_odds, p), p + 2, after));
        if !(after is Pending) {
            assert(verdict_from(after_passes(n_odds, p), p + 2, after) == after);
        }
        if rank < factor {
            assert(after == (CandidateState::Lucky { rank, proof_factor: factor }));
            assert(settled_by(n, n_odds, k, rank as int, factor as int));
        } else if rank as int % factor as int == 0 {
            assert(after == (CandidateState::Composite { rank, deletion_factor: factor }));
            assert(struck_by(n, n_odds, k, rank as int, factor as int));
        } else {
            assert(factor == f);
            crate::laws::law_moved_place_is_not_below(rank as int, f);
            crate::lucky::lemma_pass_by_factor(m, n_odds, p);
            crate::lists::lemma_strike_index(s, f, rank as int);
            let moved = (rank as int - rank as int / f) as u128;
            vstd::arithmetic::div_mod::lemma_div_pos_is_pos(rank as int, f);
            assert(state_after(state, factor) == (CandidateState::Pending { rank: moved }));
            assert(stands_at(n, p, moved as int));
            assert(open_before(n, n_odds, p));
            lemma_reason(n, n_odds, p, moved);
            assert(verdict_from(list, k + 2, state) == verdict_from(
                after_passes(n_odds, p),
                p + 2,
                CandidateState::Pending { rank: moved },
            ));
            assert(last_pass(n_odds, k) == last_pass(n_odds, p));
        }
    }
}

/// A search with a fresh sieve says truly what settled each candidate. One that ends composite
/// was struck by the factor it names, at the place it names. One that ends lucky is the number
/// one, or the factor it names is the first that is above its place, or every factor was at or
/// below its place and the limit, which it then names, is not. One that ends open is above the
/// limit after every factor.
pub proof fn law_search_reasons(n_odds: nat, candidates: Seq<Candidate>, i: int)
    requires
        1 <= n_odds <= u64::MAX,
        0 <= i < candidates.len(),
        candidates[i].n % 2 == 1,
        candidates[i].state == start_state(candidates[i].n),
    ensures
        ({
            let n = candidates[i].n as int;
            let limit = if 2 * n_odds <= u64::MAX {
                2 * n_odds - 1
            } else {
                u64::MAX - 1
            };
            let verdicts = at_end(search_from(odds(n_odds), 2, candidates).candidates, limit as u64);
            &&& verdicts[i].n == candidates[i].n
            &&& verdicts[i].labels == candidates[i].labels
            &&& match verdicts[i].state {
                CandidateState::Composite { rank, deletion_factor } => is_struck(
                    n,
                    n_odds,
                    rank as int,
                    deletion_factor as int,
                ),
                CandidateState::Lucky { rank, proof_factor } => {
                    ||| n == 1 && rank == 1 && proof_factor == 0
                    ||| n > 1 && is_settled(n, n_odds, rank as int, proof_factor as int)
                    ||| n > 1 && proof_factor == limit && rank <= limit && stands_at(
                        n,
                        last_pass(n_odds, 0),
                        rank as int,
                    ) && open_before(n, n_odds, last_pass(n_odds, 0))
                },
                CandidateState::Inconclusive => exists|r: int| #[trigger]
                    stands_at(n, last_pass(n_odds, 0), r) && r > limit,
                CandidateState::Pending { .. } => false,
            }
        }),
{
    let n = candidates[i].n as int;
    let end = search_from(odds(n_odds), 2, candidates);
    crate::laws::law_verdict_is_independent(odds(n_odds), 2, candidates, i);
    lemma_same_candidates(odds(n_odds), 2, candidates, i);
    crate::laws::law_start_is_tracked(candidates[i].n);
    match candidates[i].state {
        CandidateState::Pending { rank } => {
            lemma_reason(n, n_odds, 0, rank);
            match end.candidates[i].state {
                CandidateState::Pending { rank: at } => {
                    assert(stands_at(n, last_pass(n_odds, 0), at as int));
                },
                _ => {},
            }
        },
        _ => {},
    }
}

/// A search changes nothing of a candidate but its state.
proof fn lemma_same_candidates(list: Seq<int>, factor_rank: nat, candidates: Seq<Candidate>, i: int)
    requires
        0 <= i < candidates.len(),
    ensures
        search_from(list, factor_rank, candidates).candidates.len() == candidates.len(),
        search_from(list, factor_rank, candidates).candidates[i].n == candidates[i].n,
        search_from(list, factor_rank, candidates).candidates[i].labels == candidates[i].labels,
        !(candidates[i].state is Pending) ==> search_from(list, factor_rank, candidates).candidates[i].state
            == candidates[i].state,
    decreases factors_left(list, factor_rank),
{
    if pending_count(candidates) == 0 || factor_rank > list.len() {
    } else {
        let factor = factor_of(list[factor_rank as int - 1]);
        let next = applied(candidates, factor);
        crate::lists::lemma_strike_no_longer(list, factor as int);
        if pending_count(next) == 0 {
        } else {
            lemma_same_candidates(strike(list, factor as int), factor_rank + 1, next, i);
        }
    }
}

/// What one factor does to one candidate: nothing to a decided one; an undecided one is lucky
/// where its place is below the factor, struck where the factor divides its place, and else moves
/// down by one for each multiple of the factor up to its place.
pub proof fn law_factor_on_candidate(candidates: Seq<Candidate>, factor: u64, i: int)
    requires
        factor >= 1,
        0 <= i < candidates.len(),
    ensures
        ({
            let after = applied(candidates, factor);
            &&& after.len() == candidates.len()
            &&& after[i].n == candidates[i].n
            &&& after[i].labels == candidates[i].labels
            &&& match candidates[i].state {
                CandidateState::Pending { rank } => {
                    &&& rank < factor ==> after[i].state == (CandidateState::Lucky { rank, proof_factor: factor })
                    &&& rank >= factor && rank as int % factor as int == 0 ==> after[i].state == (
                    CandidateState::Composite { rank, deletion_factor: factor })
                    &&& rank >= factor && rank as int % factor as int != 0 ==> exists|moved: u128, q: int|
                        {
                            &&& after[i].state == (#[trigger] pending_at(moved))
                            &&& moved + q == rank
                            &&& #[trigger] (q * factor) < rank < q * factor + factor
                        }
                },
                _ => after[i].state == candidates[i].state,
            }
        }),
{
    match candidates[i].state {
        CandidateState::Pending { rank } => {
            if rank >= factor && rank as int % factor as int != 0 {
                let r = rank as int;
                let f = factor as int;
                crate::laws::law_moved_place_is_not_below(r, f);
                vstd::arithmetic::div_mod::lemma_fundamental_div_mod(r, f);
                vstd::arithmetic::div_mod::lemma_div_nonincreasing(r, f);
                vstd::arithmetic::div_mod::lemma_div_pos_is_pos(r, f);
                let q = r / f;
                assert(q * factor == f * q) by (nonlinear_arith)
                    requires
                        f == factor,
                ;
                assert(applied(candidates, factor)[i].state == pending_at((r - q) as u128));
            }
        },
        _ => {},
    }
}

/// The state of a candidate that stands at a place undecided.
pub open spec fn pending_at(rank: u128) -> CandidateState {
    CandidateState::Pending { rank }
}

/// What the end of the factors does to one candidate: nothing to a decided one; an undecided one
/// is lucky, by the limit, where its place is within the limit, and open elsewhere.
pub proof fn law_end_on_candidate(candidates: Seq<Candidate>, limit: u64, i: int)
    requires
        0 <= i < candidates.len(),
    ensures
        ({
            let after = at_end(candidates, limit);
            &&& after.len() == candidates.len()
            &&& after[i].n == candidates[i].n
            &&& after[i].labels == candidates[i].labels
            &&& match candidates[i].state {
                CandidateState::Pending { rank } => {
                    &&& rank <= limit ==> after[i].state == (CandidateState::Lucky { rank, proof_factor: limit })
                    &&& rank > limit ==> after[i].state is Inconclusive
                },
                _ => after[i].state == candidates[i].state,
            }
        }),
{
}

/// The candidate that an announcement is about.
pub open spec fn about(a: Announcement) -> int {
    match a {
        Announcement::LuckyBefore { index, .. } => index as int,
        Announcement::LuckyAfter { index, .. } => index as int,
        Announcement::Rejected { index, .. } => index as int,
        Announcement::LuckyExhausted { index, .. } => index as int,
        Announcement::Inconclusive { index, .. } => index as int,
    }
}

/// Whether an announcement says what became of its candidate, with the place and the factor.
pub open spec fn tells(a: Announcement, verdicts: Seq<Candidate>) -> bool {
    &&& 0 <= about(a) < verdicts.len()
    &&& match a {
        Announcement::LuckyBefore { rank, factor, .. } => {
            rank < factor && verdicts[about(a)].state == (CandidateState::Lucky { rank, proof_factor: factor })
        },
        Announcement::LuckyAfter { rank, factor, .. } => {
            rank < factor && verdicts[about(a)].state == (CandidateState::Lucky { rank, proof_factor: factor })
        },
        Announcement::Rejected { rank, factor, .. } => {
            verdicts[about(a)].state == (CandidateState::Composite { rank, deletion_factor: factor })
        },
        Announcement::LuckyExhausted { rank, limit, .. } => {
            rank <= limit && verdicts[about(a)].state == (CandidateState::Lucky { rank, proof_factor: limit })
        },
        Announcement::Inconclusive { rank, limit, .. } => rank > limit && verdicts[about(a)].state is Inconclusive,
    }
}

/// Whether announcements are about different candidates, all of them undecided before.
pub open spec fn of_undecided(said: Seq<Announcement>, candidates: Seq<Candidate>) -> bool {
    &&& forall|j: int|
        0 <= j < said.len() ==> 0 <= about(#[trigger] said[j]) < candidates.len() && candidates[about(
            said[j],
        )].state is Pending
    &&& forall|i: int, j: int| 0 <= i < j < said.len() ==> about(#[trigger] said[i]) != about(#[trigger] said[j])
}

/// What a factor announces is what it did.
proof fn lemma_announced_tells(candidates: Seq<Candidate>, factor: u64)
    requires
        candidates.len() <= usize::MAX,
        factor >= 1,
    ensures
        ({
            let said = announced(candidates, factor);
            let after = applied(candidates, factor);
            &&& of_undecided(said, candidates)
            &&& forall|j: int| 0 <= j < said.len() ==> tells(#[trigger] said[j], after)
            &&& forall|j: int| 0 <= j < said.len() ==> !(after[about(#[trigger] said[j])].state is Pending)
        }),
    decreases candidates.len(),
{
    if candidates.len() > 0 {
        let head = candidates.drop_last();
        lemma_announced_tells(head, factor);
        let before = announced(head, factor);
        let said = announced(candidates, factor);
        let after = applied(candidates, factor);
        assert forall|j: int| 0 <= j < before.len() implies tells(#[trigger] before[j], after) && about(before[j])
            < head.len() && candidates[about(before[j])].state is Pending && !(after[about(
            before[j],
        )].state is Pending) by {
            assert(tells(before[j], applied(head, factor)));
            let i = about(before[j]);
            assert(head[i] == candidates[i]);
            assert(applied(head, factor)[i] == after[i]);
        }
        assert forall|j: int| 0 <= j < said.len() implies tells(#[trigger] said[j], after) && candidates[about(
            said[j],
        )].state is Pending && !(after[about(said[j])].state is Pending) && (j < before.len() ==> said[j]
            == before[j]) && (j == before.len() ==> about(said[j]) == candidates.len() - 1) by {
            if j < before.len() {
                assert(said[j] == before[j]);
            }
        }
        assert forall|i: int, j: int| 0 <= i < j < said.len() implies about(#[trigger] said[i]) != about(
            #[trigger] said[j],
        ) by {
            if j < before.len() {
                assert(about(before[i]) != about(before[j]));
            } else {
                assert(about(before[i]) < head.len());
            }
        }
    }
}

/// What the end of the factors announces is what it did.
proof fn lemma_announced_at_end_tells(candidates: Seq<Candidate>, limit: u64)
    requires
        candidates.len() <= usize::MAX,
    ensures
        ({
            let said = announced_at_end(candidates, limit);
            let after = at_end(candidates, limit);
            &&& of_undecided(said, candidates)
            &&& forall|j: int| 0 <= j < said.len() ==> tells(#[trigger] said[j], after)
        }),
    decreases candidates.len(),
{
    if candidates.len() > 0 {
        let head = candidates.drop_last();
        lemma_announced_at_end_tells(head, limit);
        let before = announced_at_end(head, limit);
        let said = announced_at_end(candidates, limit);
        let after = at_end(candidates, limit);
        assert forall|j: int| 0 <= j < before.len() implies tells(#[trigger] before[j], after) && about(before[j])
            < head.len() && candidates[about(before[j])].state is Pending by {
            assert(tells(before[j], at_end(head, limit)));
            let i = about(before[j]);
            assert(head[i] == candidates[i]);
            assert(at_end(head, limit)[i] == after[i]);
        }
        assert forall|j: int| 0 <= j < said.len() implies tells(#[trigger] said[j], after) && candidates[about(
            said[j],
        )].state is Pending && (j < before.len() ==> said[j] == before[j]) && (j == before.len() ==> about(said[j])
            == candidates.len() - 1) by {
            if j < before.len() {
                assert(said[j] == before[j]);
            }
        }
        assert forall|i: int, j: int| 0 <= i < j < said.len() implies about(#[trigger] said[i]) != about(
            #[trigger] said[j],
        ) by {
            if j < before.len() {
                assert(about(before[i]) != about(before[j]));
            } else {
                assert(about(before[i]) < head.len());
            }
        }
    }
}

/// What a search says is true of its end: every announcement names a candidate that was undecided
/// at the start and gives the state it ends in, with the place and the factor or limit, and no
/// two name the same candidate.
pub proof fn law_announcements_are_true(
    list: Seq<int>,
    factor_rank: nat,
    candidates: Seq<Candidate>,
    limit: u64,
)
    requires
        candidates.len() <= usize::MAX,
        factor_rank >= 1,
        forall|i: int| 0 <= i < list.len() ==> #[trigger] list[i] >= 1,
    ensures
        ({
            let end = search_from(list, factor_rank, candidates);
            let said = end.announcements + announced_at_end(end.candidates, limit);
            let verdicts = at_end(end.candidates, limit);
            &&& of_undecided(said, candidates)
            &&& forall|j: int| 0 <= j < said.len() ==> tells(#[trigger] said[j], verdicts)
        }),
    decreases factors_left(list, factor_rank),
{
    let end = search_from(list, factor_rank, candidates);
    let said = end.announcements + announced_at_end(end.candidates, limit);
    let verdicts = at_end(end.candidates, limit);
    if pending_count(candidates) == 0 || factor_rank > list.len() {
        lemma_announced_at_end_tells(candidates, limit);
        assert(said =~= announced_at_end(candidates, limit));
    } else {
        let factor = factor_of(list[factor_rank as int - 1]);
        let next = applied(candidates, factor);
        let first = announced(candidates, factor);
        lemma_announced_tells(candidates, factor);
        crate::lists::lemma_strike_no_longer(list, factor as int);
        let rest = if pending_count(next) == 0 {
            announced_at_end(next, limit)
        } else {
            let later = search_from(strike(list, factor as int), factor_rank + 1, next);
            later.announcements + announced_at_end(later.candidates, limit)
        };
        if pending_count(next) == 0 {
            lemma_announced_at_end_tells(next, limit);
        } else {
            let left = strike(list, factor as int);
            assert forall|i: int| 0 <= i < left.len() implies #[trigger] left[i] >= 1 by {
                let r = crate::lists::lemma_strike_source(list, factor as int, i);
            }
            law_announcements_are_true(left, factor_rank + 1, next, limit);
        }
        assert(said =~= first + rest);
        assert forall|j: int| 0 <= j < first.len() implies tells(#[trigger] first[j], verdicts) && !(next[about(
            first[j],
        )].state is Pending) && candidates[about(first[j])].state is Pending by {
            assert(tells(first[j], next));
            let i = about(first[j]);
            if pending_count(next) != 0 {
                lemma_same_candidates(strike(list, factor as int), factor_rank + 1, next, i);
            }
        }
        assert forall|j: int| 0 <= j < rest.len() implies tells(#[trigger] rest[j], verdicts) && next[about(
            rest[j],
        )].state is Pending && candidates[about(rest[j])].state is Pending by {
            let i = about(rest[j]);
            assert(next[i].state == state_after(candidates[i].state, factor));
        }
        assert forall|j: int| 0 <= j < said.len() implies tells(#[trigger] said[j], verdicts) && candidates[about(
            said[j],
        )].state is Pending by {
            if j < first.len() {
                assert(said[j] == first[j]);
            } else {
                assert(said[j] == rest[j - first.len()]);
            }
        }
        assert forall|i: int, j: int| 0 <= i < j < said.len() implies about(#[trigger] said[i]) != about(
            #[trigger] said[j],
        ) by {
            if j < first.len() {
                assert(said[i] == first[i] && said[j] == first[j]);
            } else if i < first.len() {
                assert(said[i] == first[i] && said[j] == rest[j - first.len()]);
            } else {
                assert(said[i] == rest[i - first.len()] && said[j] == rest[j - first.len()]);
            }
        }
    }
}

/// How far a search with a fresh sieve gets: it applies one factor for each place from the second
/// up to where it stops. It stops at the place after the last number left, or at the factor that
/// decides the last candidate, which it does not strike by.
pub proof fn law_search_progress(n_odds: nat, candidates: Seq<Candidate>)
    requires
        n_odds <= u64::MAX,
    ensures
        ({
            let end = search_from(odds(n_odds), 2, candidates);
            &&& end.factor_rank >= 2
            &&& end.list == after_passes(n_odds, (end.factor_rank - 2) as nat)
            &&& end.processed_factors == if pending_count(candidates) == 0 {
                0
            } else if end.factor_rank > end.list.len() {
                end.factor_rank - 2
            } else {
                end.factor_rank - 1
            }
            &&& pending_count(end.candidates) > 0 ==> end.factor_rank > end.list.len()
            &&& end.factor_rank > 2 ==> end.factor_rank <= n_odds + 1
        }),
{
    lemma_progress(n_odds, 0, candidates);
    crate::lucky::lemma_after_passes(n_odds, 0);
}

/// How far the rest of a search gets.
proof fn lemma_progress(n_odds: nat, k: nat, candidates: Seq<Candidate>)
    requires
        n_odds <= u64::MAX,
    ensures
        ({
            let end = search_from(after_passes(n_odds, k), k + 2, candidates);
            &&& end.factor_rank >= k + 2
            &&& end.list == after_passes(n_odds, (end.factor_rank - 2) as nat)
            &&& end.processed_factors == if pending_count(candidates) == 0 {
                0
            } else if end.factor_rank > end.list.len() {
                end.factor_rank - 2 - k
            } else {
                end.factor_rank - 1 - k
            }
            &&& pending_count(end.candidates) > 0 ==> end.factor_rank > end.list.len()
            &&& end.factor_rank > k + 2 ==> end.factor_rank <= n_odds + 1
        }),
    decreases factors_left(after_passes(n_odds, k), k + 2),
{
    let list = after_passes(n_odds, k);
    if pending_count(candidates) == 0 || k + 2 > list.len() {
    } else {
        crate::lucky::lemma_after_passes(n_odds, k);
        let factor = factor_of(list[k as int + 1]);
        let next = applied(candidates, factor);
        if pending_count(next) == 0 {
        } else {
            crate::laws::lemma_pass_by_u64(n_odds, k + 1);
            crate::lists::lemma_strike_no_longer(list, factor as int);
            lemma_progress(n_odds, k + 1, next);
        }
    }
}

/// The counts of a tally are those of the states, and its rank is the largest of the places of
/// undecided candidates and of the places that announcements leave open, or zero.
pub proof fn law_tally(candidates: &[Candidate], announcements: &[Announcement], r: Tally)
    requires
        call_ensures(tally, (candidates, announcements), r),
    ensures
        r.pending + r.lucky + r.composite + r.inconclusive == candidates@.len(),
        r.pending == candidates@.filter(|c: Candidate| c.state is Pending).len(),
        r.lucky == candidates@.filter(|c: Candidate| c.state is Lucky).len(),
        r.composite == candidates@.filter(|c: Candidate| c.state is Composite).len(),
        r.inconclusive == candidates@.filter(|c: Candidate| c.state is Inconclusive).len(),
        forall|i: int|
            0 <= i < candidates@.len() ==> ((#[trigger] candidates@[i]).state matches CandidateState::Pending { rank }
                ==> rank <= r.max_rank),
        forall|j: int|
            0 <= j < announcements@.len() ==> (#[trigger] announcements@[j] matches Announcement::Inconclusive {
                rank,
                ..
            } ==> rank <= r.max_rank),
        ({
            ||| r.max_rank == 0
            ||| exists|i: int|
                0 <= i < candidates@.len() && (#[trigger] candidates@[i]).state == (CandidateState::Pending {
                    rank: r.max_rank,
                })
            ||| exists|j: int|
                0 <= j < announcements@.len() && (#[trigger] announcements@[j] matches Announcement::Inconclusive {
                    rank,
                    ..
                } && rank == r.max_rank)
        }),
{
    let all = candidates@;
    crate::laws::law_tally_adds_up(all);
    lemma_counted(all);
    lemma_max_pending(all);
    lemma_max_open(announcements@);
}

/// Counting by state is counting what filtering by state leaves.
proof fn lemma_counted(all: Seq<Candidate>)
    ensures
        pending_count(all) == all.filter(|c: Candidate| c.state is Pending).len(),
        state_count(all, |s: CandidateState| s is Lucky) == all.filter(|c: Candidate| c.state is Lucky).len(),
        state_count(all, |s: CandidateState| s is Composite) == all.filter(|c: Candidate| c.state is Composite).len(),
        state_count(all, |s: CandidateState| s is Inconclusive) == all.filter(
            |c: Candidate| c.state is Inconclusive,
        ).len(),
    decreases all.len(),
{
    reveal(Seq::filter);
    if all.len() > 0 {
        lemma_counted(all.drop_last());
    }
}

/// The largest undecided place is one, and none is above it.
proof fn lemma_max_pending(all: Seq<Candidate>)
    ensures
        forall|i: int|
            0 <= i < all.len() ==> ((#[trigger] all[i]).state matches CandidateState::Pending { rank } ==> rank
                <= max_pending_rank(all)),
        max_pending_rank(all) == 0 || exists|i: int|
            0 <= i < all.len() && (#[trigger] all[i]).state == (CandidateState::Pending {
                rank: max_pending_rank(all),
            }),
    decreases all.len(),
{
    if all.len() > 0 {
        let head = all.drop_last();
        lemma_max_pending(head);
        assert forall|i: int| 0 <= i < all.len() implies ((
        #[trigger] all[i]).state matches CandidateState::Pending { rank } ==> rank <= max_pending_rank(all)) by {
            if i < head.len() {
                assert(head[i] == all[i]);
            }
        }
        if max_pending_rank(all) != 0 {
            if max_pending_rank(all) == max_pending_rank(head) {
                let i = choose|i: int|
                    0 <= i < head.len() && (#[trigger] head[i]).state == (CandidateState::Pending {
                        rank: max_pending_rank(head),
                    });
                assert(all[i].state == (CandidateState::Pending { rank: max_pending_rank(all) }));
            } else {
                assert(all[all.len() - 1].state == (CandidateState::Pending { rank: max_pending_rank(all) }));
            }
        }
    }
}

/// The largest place left open is one, and none is above it.
proof fn lemma_max_open(said: Seq<Announcement>)
    ensures
        forall|j: int|
            0 <= j < said.len() ==> (#[trigger] said[j] matches Announcement::Inconclusive { rank, .. } ==> rank
                <= max_open_rank(said)),
        max_open_rank(said) == 0 || exists|j: int|
            0 <= j < said.len() && (#[trigger] said[j] matches Announcement::Inconclusive { rank, .. } && rank
                == max_open_rank(said)),
    decreases said.len(),
{
    if said.len() > 0 {
        let head = said.drop_last();
        lemma_max_open(head);
        assert forall|j: int| 0 <= j < said.len() implies (#[trigger] said[j] matches Announcement::Inconclusive {
            rank,
            ..
        } ==> rank <= max_open_rank(said)) by {
            if j < head.len() {
                assert(head[j] == said[j]);
            }
        }
        if max_open_rank(said) != 0 {
            if max_open_rank(said) == max_open_rank(head) {
                let j = choose|j: int|
                    0 <= j < head.len() && (#[trigger] head[j] matches Announcement::Inconclusive { rank, .. } && rank
                        == max_open_rank(head));
                assert(said[j] == head[j]);
            } else {
                assert(said[said.len() - 1] == said.last());
            }
        }
    }
}

/// The undecided candidates are counted.
pub proof fn law_count_pending(candidates: &[Candidate], r: usize)
    requires
        call_ensures(count_pending, (candidates,), r),
    ensures
        r == candidates@.filter(|c: Candidate| c.state is Pending).len(),
{
    lemma_counted(candidates@);
}

/// A fresh candidate waits at the place that counts the odd numbers up to it; one is lucky at the
/// first place, by no factor.
pub proof fn law_new_unlabeled(n: u64, r: Candidate)
    requires
        call_ensures(Candidate::new_unlabeled, (n,), r),
    ensures
        r.n == n,
        r.labels@.len() == 0,
        n == 1 ==> r.state == (CandidateState::Lucky { rank: 1, proof_factor: 0 }),
        n != 1 ==> (r.state matches CandidateState::Pending { rank } && 2 * rank - 1 <= n < 2 * rank + 1),
{
}

/// One call of the function that applies a factor: what becomes of each candidate, how many were
/// decided, and that what is said is true.
pub proof fn law_apply_factor(
    factor: u64,
    candidates: &mut [Candidate],
    announce: bool,
    r: (usize, Vec<Announcement>),
    i: int,
)
    requires
        factor >= 1,
        old(candidates)@.len() <= usize::MAX,
        call_ensures(apply_factor_to_candidates, (factor, candidates, announce), r),
        0 <= i < old(candidates)@.len(),
    ensures
        ({
            let before = old(candidates)@;
            let after = final(candidates)@;
            &&& after.len() == before.len()
            &&& after[i].n == before[i].n
            &&& after[i].labels == before[i].labels
            &&& match before[i].state {
                CandidateState::Pending { rank } => {
                    &&& rank < factor ==> after[i].state == (CandidateState::Lucky { rank, proof_factor: factor })
                    &&& rank >= factor && rank as int % factor as int == 0 ==> after[i].state == (
                    CandidateState::Composite { rank, deletion_factor: factor })
                    &&& rank >= factor && rank as int % factor as int != 0 ==> exists|moved: u128, q: int|
                        {
                            &&& after[i].state == (#[trigger] pending_at(moved))
                            &&& moved + q == rank
                            &&& #[trigger] (q * factor) < rank < q * factor + factor
                        }
                },
                _ => after[i].state == before[i].state,
            }
            &&& r.0 == before.filter(|c: Candidate| c.state is Pending).len() - after.filter(
                |c: Candidate| c.state is Pending,
            ).len()
            &&& announce ==> r.1@.len() == r.0 && of_undecided(r.1@, before)
            &&& !announce ==> r.1@.len() == 0
            &&& forall|j: int| 0 <= j < r.1@.len() ==> tells(#[trigger] r.1@[j], after)
        }),
{
    let before = old(candidates)@;
    law_factor_on_candidate(before, factor, i);
    lemma_counted(before);
    lemma_counted(final(candidates)@);
    lemma_announced_tells(before, factor);
    crate::laws::lemma_announced_len(before, factor);
}

/// One call of the search with a fresh sieve: a candidate that was fresh ends lucky exactly with
/// the place that counts the lucky numbers up to it and the factor, or the limit, that settled it;
/// composite, with the place and the factor that struck it; or open, above the limit.
pub proof fn law_search(
    sieve: &mut LuckySieve,
    candidates: &mut [Candidate],
    threads: usize,
    scan_threshold: u64,
    announce: bool,
    report: SearchReport,
    i: int,
)
    requires
        call_ensures(search_with_sieve, (sieve, candidates, threads, scan_threshold, announce), report),
        old(sieve).n_odds >= 1,
        old(sieve)@ == odds(old(sieve).n_odds as nat),
        old(candidates)@.len() <= usize::MAX,
        0 <= i < old(candidates)@.len(),
        old(candidates)@[i].n % 2 == 1,
        old(candidates)@[i].state == start_state(old(candidates)@[i].n),
    ensures
        ({
            let n_odds = old(sieve).n_odds as nat;
            let n = old(candidates)@[i].n as int;
            let limit = if 2 * n_odds <= u64::MAX {
                2 * n_odds - 1
            } else {
                u64::MAX - 1
            };
            &&& final(candidates)@.len() == old(candidates)@.len()
            &&& final(candidates)@[i].n == n
            &&& final(candidates)@[i].labels == old(candidates)@[i].labels
            &&& match final(candidates)@[i].state {
                CandidateState::Composite { rank, deletion_factor } => !is_lucky(n) && is_struck(
                    n,
                    n_odds,
                    rank as int,
                    deletion_factor as int,
                ),
                CandidateState::Lucky { rank, proof_factor } => {
                    &&& is_lucky(n)
                    &&& rank == lucky_count(n)
                    &&& {
                        ||| n == 1 && proof_factor == 0
                        ||| n > 1 && is_settled(n, n_odds, rank as int, proof_factor as int)
                        ||| n > 1 && proof_factor == limit && rank <= limit && stands_at(
                            n,
                            last_pass(n_odds, 0),
                            rank as int,
                        ) && open_before(n, n_odds, last_pass(n_odds, 0))
                    }
                },
                CandidateState::Inconclusive => exists|r: int| #[trigger]
                    stands_at(n, last_pass(n_odds, 0), r) && r > limit,
                CandidateState::Pending { .. } => false,
            }
            &&& announce ==> report.announcements@.len() == old(candidates)@.filter(
                |c: Candidate| c.state is Pending,
            ).len() && of_undecided(report.announcements@, old(candidates)@)
            &&& !announce ==> report.announcements@.len() == 0
            &&& forall|j: int|
                0 <= j < report.announcements@.len() ==> tells(
                    #[trigger] report.announcements@[j],
                    final(candidates)@,
                )
            &&& final(sieve)@.len() + report.search.total_deleted == n_odds
            &&& final(sieve)@ == after_passes(n_odds, (report.search.factor_rank - 2) as nat)
        }),
{
    let n_odds = old(sieve).n_odds as nat;
    let before = old(candidates)@;
    let limit = factor_of(2 * n_odds - 1);
    crate::laws::law_search_verdicts(n_odds, before, i);
    law_search_reasons(n_odds, before, i);
    lemma_same_candidates(odds(n_odds), 2, before, i);
    law_announcements_are_true(odds(n_odds), 2, before, limit);
    crate::laws::law_each_candidate_is_announced(odds(n_odds), 2, before, limit);
    crate::laws::law_deletions_add_up(n_odds, before);
    law_search_progress(n_odds, before);
    lemma_counted(before);
}

} // verus!
