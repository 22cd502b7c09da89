//! The search: the sieve's factors, one after another, applied to the candidates.
use crate::candidates::{Candidate, CandidateState};
use crate::lists::strike;
use crate::sieve::LuckySieve;
use vstd::prelude::*;

verus! {

/// What there is to say about a candidate when its state changes. `index` is its place in the
/// list of candidates.
#[derive(Debug, Clone, Copy, PartialEq, Eq)]
pub enum Announcement {
    /// Lucky: its place is below the factor before the factor strikes.
    LuckyBefore { index: usize, rank: u128, factor: u64 },
    /// Lucky: its place is below the factor after the factor has struck.
    LuckyAfter { index: usize, rank: u128, factor: u64 },
    /// Not lucky: its place is a multiple of the factor.
    Rejected { index: usize, rank: u128, factor: u64 },
    /// Lucky: its place is within the limit, and every factor up to the limit has struck.
    LuckyExhausted { index: usize, rank: u128, limit: u64 },
    /// Undecided: its place is above the limit.
    Inconclusive { index: usize, rank: u128, limit: u64 },
}

/// The candidate with another state.
pub open spec fn with_state(c: Candidate, state: CandidateState) -> Candidate {
    Candidate { n: c.n, labels: c.labels, state }
}

/// What a factor does to a state: a place below the factor is final, a multiple of the factor is
/// struck, and any other place moves down by the number of struck places before it.
pub open spec fn state_after(state: CandidateState, factor: u64) -> CandidateState {
    match state {
        CandidateState::Pending { rank } => {
            let moved = rank as int - rank as int / factor as int;
            if rank < factor {
                CandidateState::Lucky { rank, proof_factor: factor }
            } else if rank as int % factor as int == 0 {
                CandidateState::Composite { rank, deletion_factor: factor }
            } else if moved < factor {
                CandidateState::Lucky { rank: moved as u128, proof_factor: factor }
            } else {
                CandidateState::Pending { rank: moved as u128 }
            }
        },
        _ => state,
    }
}

/// What there is to say when a factor changes a state for good.
pub open spec fn announcement_after(state: CandidateState, factor: u64, index: int) -> Option<Announcement> {
    let index = index as usize;
    match (state, state_after(state, factor)) {
        (CandidateState::Pending { rank: old_rank }, CandidateState::Lucky { rank, .. }) => if old_rank < factor {
            Some(Announcement::LuckyBefore { index, rank, factor })
        } else {
            Some(Announcement::LuckyAfter { index, rank, factor })
        },
        (CandidateState::Pending { .. }, CandidateState::Composite { rank, .. }) => Some(
            Announcement::Rejected { index, rank, factor },
        ),
        _ => None,
    }
}

/// The candidates after a factor.
pub open spec fn applied(candidates: Seq<Candidate>, factor: u64) -> Seq<Candidate> {
    Seq::new(candidates.len(), |i: int| with_state(candidates[i], state_after(candidates[i].state, factor)))
}

/// How many candidates are undecided.
pub open spec fn pending_count(candidates: Seq<Candidate>) -> nat
    decreases candidates.len(),
{
    if candidates.len() == 0 {
        0
    } else {
        pending_count(candidates.drop_last()) + if candidates.last().state is Pending {
            1nat
        } else {
            0nat
        }
    }
}

/// No candidate is undecided where the count of undecided ones is zero.
pub proof fn lemma_none_pending(candidates: Seq<Candidate>, i: int)
    requires
        pending_count(candidates) == 0,
        0 <= i < candidates.len(),
    ensures
        !(candidates[i].state is Pending),
    decreases candidates.len(),
{
    if i < candidates.len() - 1 {
        lemma_none_pending(candidates.drop_last(), i);
        assert(candidates.drop_last()[i] == candidates[i]);
    }
}

/// What there is to say after a factor, in the order of the candidates.
pub open spec fn announced(candidates: Seq<Candidate>, factor: u64) -> Seq<Announcement>
    decreases candidates.len(),
{
    if candidates.len() == 0 {
        Seq::empty()
    } else {
        let rest = announced(candidates.drop_last(), factor);
        match announcement_after(candidates.last().state, factor, candidates.len() - 1) {
            Some(a) => rest.push(a),
            None => rest,
        }
    }
}

/// What the end of the factors does to a state: a place within the limit is final, a place above
/// it is left open.
pub open spec fn state_at_end(state: CandidateState, limit: u64) -> CandidateState {
    match state {
        CandidateState::Pending { rank } => if rank <= limit {
            CandidateState::Lucky { rank, proof_factor: limit }
        } else {
            CandidateState::Inconclusive
        },
        _ => state,
    }
}

/// The candidates after the end of the factors.
pub open spec fn at_end(candidates: Seq<Candidate>, limit: u64) -> Seq<Candidate> {
    Seq::new(candidates.len(), |i: int| with_state(candidates[i], state_at_end(candidates[i].state, limit)))
}

/// What there is to say at the end of the factors, in the order of the candidates.
pub open spec fn announced_at_end(candidates: Seq<Candidate>, limit: u64) -> Seq<Announcement>
    decreases candidates.len(),
{
    if candidates.len() == 0 {
        Seq::empty()
    } else {
        let rest = announced_at_end(candidates.drop_last(), limit);
        let index = (candidates.len() - 1) as usize;
        match candidates.last().state {
            CandidateState::Pending { rank } => if rank <= limit {
                rest.push(Announcement::LuckyExhausted { index, rank, limit })
            } else {
                rest.push(Announcement::Inconclusive { index, rank, limit })
            },
            _ => rest,
        }
    }
}

/// A sieved number as a factor: itself, or the largest `u64` less one where it is not below that.
pub open spec fn factor_of(value: int) -> u64 {
    if value < u64::MAX {
        value as u64
    } else {
        (u64::MAX - 1) as u64
    }
}

/// Where a search stands when it stops.
pub ghost struct SearchEnd {
    /// What is left in the sieve.
    pub list: Seq<int>,
    pub candidates: Seq<Candidate>,
    /// The place of the next factor.
    pub factor_rank: nat,
    pub processed_factors: nat,
    pub total_deleted: nat,
    pub announcements: Seq<Announcement>,
}

/// How many places from `factor_rank` on the list has.
pub open spec fn factors_left(list: Seq<int>, factor_rank: nat) -> nat {
    if factor_rank <= list.len() {
        (list.len() + 1 - factor_rank) as nat
    } else {
        0
    }
}

/// The whole course of a search from a sieve's list, the next factor standing at `factor_rank`:
/// each factor is applied to the candidates and then strikes the list, until no candidate is
/// undecided or the list has no next factor.
pub open spec fn search_from(list: Seq<int>, factor_rank: nat, candidates: Seq<Candidate>) -> SearchEnd
    decreases factors_left(list, factor_rank),
{
    if pending_count(candidates) == 0 || factor_rank > list.len() {
        SearchEnd {
            list,
            candidates,
            factor_rank,
            processed_factors: 0,
            total_deleted: 0,
            announcements: Seq::empty(),
        }
    } else {
        let factor = factor_of(list[factor_rank as int - 1]);
        let next = applied(candidates, factor);
        let said = announced(candidates, factor);
        if pending_count(next) == 0 {
            SearchEnd {
                list,
                candidates: next,
                factor_rank,
                processed_factors: 1,
                total_deleted: 0,
                announcements: said,
            }
        } else {
            proof {
                crate::lists::lemma_strike_no_longer(list, factor as int);
            }
            let end = search_from(strike(list, factor as int), factor_rank + 1, next);
            SearchEnd {
                list: end.list,
                candidates: end.candidates,
                factor_rank: end.factor_rank,
                processed_factors: end.processed_factors + 1,
                total_deleted: end.total_deleted + list.len() as nat / factor as nat,
                announcements: said + end.announcements,
            }
        }
    }
}

/// Applies one factor to every undecided candidate. Hands back how many it decided and, where
/// `announce` asks for it, what there is to say.
pub fn apply_factor_to_candidates(factor: u64, candidates: &mut [Candidate], announce: bool) -> (r: (
    usize,
    Vec<Announcement>,
))
    requires
        factor >= 1 || pending_count(old(candidates)@) == 0,
    ensures
        final(candidates)@ == applied(old(candidates)@, factor),
        r.0 == pending_count(old(candidates)@) - pending_count(final(candidates)@),
        r.1@ == if announce {
            announced(old(candidates)@, factor)
        } else {
            Seq::empty()
        },
{
    let factor128: u128 = factor as u128;
    let mut completed: usize = 0;
    let mut said: Vec<Announcement> = Vec::new();
    let len: usize = candidates.len();
    let ghost before = candidates@;
    let ghost after = applied(before, factor);
    proof {
        assert(before.take(0) =~= Seq::empty());
        assert(after.take(0) =~= Seq::empty());
    }
    let mut i: usize = 0;
    while i < len
        invariant
            factor >= 1 || pending_count(before) == 0,
            factor128 == factor,
            i <= len == before.len() == candidates@.len(),
            before == old(candidates)@,
            after == applied(before, factor),
            forall|k: int| 0 <= k < i ==> #[trigger] candidates@[k] == after[k],
            forall|k: int| i <= k < len ==> #[trigger] candidates@[k] == before[k],
            completed <= i,
            completed == pending_count(before.take(i as int)) - pending_count(after.take(i as int)),
            said@ == if announce {
                announced(before.take(i as int), factor)
            } else {
                Seq::empty()
            },
        decreases len - i,
    {
        proof {
            assert(before.take(i + 1).drop_last() =~= before.take(i as int));
            assert(after.take(i + 1).drop_last() =~= after.take(i as int));
            assert(candidates@[i as int] == before[i as int]);
            assert(before.take(i + 1).last() == before[i as int]);
            assert(after.take(i + 1).last() == after[i as int]);
        }
        match candidates[i].state {
            CandidateState::Pending { rank } => {
                proof {
                    if factor == 0 {
                        lemma_none_pending(before, i as int);
                    }
                    vstd::arithmetic::div_mod::lemma_div_nonincreasing(rank as int, factor as int);
                }
                if rank < factor128 {
                    candidates[i].state = CandidateState::Lucky { rank, proof_factor: factor };
                    completed = completed + 1;
                    if announce {
                        said.push(Announcement::LuckyBefore { index: i, rank, factor });
                    }
                } else if rank % factor128 == 0 {
                    candidates[i].state = CandidateState::Composite { rank, deletion_factor: factor };
                    completed = completed + 1;
                    if announce {
                        said.push(Announcement::Rejected { index: i, rank, factor });
                    }
                } else {
                    let new_rank: u128 = rank - rank / factor128;
                    if new_rank < factor128 {
                        candidates[i].state = CandidateState::Lucky { rank: new_rank, proof_factor: factor };
                        completed = completed + 1;
                        if announce {
                            said.push(Announcement::LuckyAfter { index: i, rank: new_rank, factor });
                        }
                    } else {
                        candidates[i].state = CandidateState::Pending { rank: new_rank };
                    }
                }
            },
            _ => {},
        }
        assert(candidates@[i as int] == after[i as int]);
        i = i + 1;
    }
    proof {
        assert(before.take(len as int) =~= before);
        assert(after.take(len as int) =~= after);
        assert(candidates@ =~= after);
    }
    (completed, said)
}

/// How many candidates are undecided.
pub fn count_pending(candidates: &[Candidate]) -> (r: usize)
    ensures
        r == pending_count(candidates@),
{
    let mut count: usize = 0;
    let mut i: usize = 0;
    assert(candidates@.take(0) =~= Seq::empty());
    while i < candidates.len()
        invariant
            i <= candidates@.len(),
            count <= i,
            count == pending_count(candidates@.take(i as int)),
        decreases candidates@.len() - i,
    {
        assert(candidates@.take(i + 1).drop_last() =~= candidates@.take(i as int));
        if candidates[i].is_pending() {
            count = count + 1;
        }
        i = i + 1;
    }
    assert(candidates@.take(i as int) =~= candidates@);
    count
}

/// Settles what is undecided when the factors up to `limit` have all been applied: lucky where
/// the place is within the limit, open where it is not. Where `announce` asks for it, hands back
/// what there is to say.
pub fn finalize_candidates(candidates: &mut [Candidate], limit: u64, announce: bool) -> (said: Vec<Announcement>)
    ensures
        final(candidates)@ == at_end(old(candidates)@, limit),
        said@ == if announce {
            announced_at_end(old(candidates)@, limit)
        } else {
            Seq::empty()
        },
{
    let mut said: Vec<Announcement> = Vec::new();
    let len: usize = candidates.len();
    let ghost before = candidates@;
    let ghost after = at_end(before, limit);
    assert(before.take(0) =~= Seq::empty());
    let mut i: usize = 0;
    while i < len
        invariant
            i <= len == before.len() == candidates@.len(),
            before == old(candidates)@,
            after == at_end(before, limit),
            forall|k: int| 0 <= k < i ==> #[trigger] candidates@[k] == after[k],
            forall|k: int| i <= k < len ==> #[trigger] candidates@[k] == before[k],
            said@ == if announce {
                announced_at_end(before.take(i as int), limit)
            } else {
                Seq::empty()
            },
        decreases len - i,
    {
        proof {
            assert(before.take(i + 1).drop_last() =~= before.take(i as int));
            assert(candidates@[i as int] == before[i as int]);
        }
        match candidates[i].state {
            CandidateState::Pending { rank } => {
                if rank <= limit as u128 {
                    candidates[i].state = CandidateState::Lucky { rank, proof_factor: limit };
                    if announce {
                        said.push(Announcement::LuckyExhausted { index: i, rank, limit });
                    }
                } else {
                    candidates[i].state = CandidateState::Inconclusive;
                    if announce {
                        said.push(Announcement::Inconclusive { index: i, rank, limit });
                    }
                }
            },
            _ => {},
        }
        assert(candidates@[i as int] == after[i as int]);
        i = i + 1;
    }
    proof {
        assert(before.take(len as int) =~= before);
        assert(candidates@ =~= after);
    }
    said
}

/// The largest place among the undecided candidates, zero where there is none.
pub open spec fn max_pending_rank(candidates: Seq<Candidate>) -> u128
    decreases candidates.len(),
{
    if candidates.len() == 0 {
        0
    } else {
        let rest = max_pending_rank(candidates.drop_last());
        match candidates.last().state {
            CandidateState::Pending { rank } => if rank > rest {
                rank
            } else {
                rest
            },
            _ => rest,
        }
    }
}

/// The largest place among those that were left open, zero where there is none.
pub open spec fn max_open_rank(announcements: Seq<Announcement>) -> u128
    decreases announcements.len(),
{
    if announcements.len() == 0 {
        0
    } else {
        let rest = max_open_rank(announcements.drop_last());
        match announcements.last() {
            Announcement::Inconclusive { rank, .. } => if rank > rest {
                rank
            } else {
                rest
            },
            _ => rest,
        }
    }
}

/// How many candidates have a state that `p` picks out.
pub open spec fn state_count(candidates: Seq<Candidate>, p: spec_fn(CandidateState) -> bool) -> nat
    decreases candidates.len(),
{
    if candidates.len() == 0 {
        0
    } else {
        state_count(candidates.drop_last(), p) + if p(candidates.last().state) {
            1nat
        } else {
            0nat
        }
    }
}

/// How many candidates are in which state, and the largest place that is still open.
#[derive(Debug, Clone, Copy)]
pub struct Tally {
    pub pending: usize,
    pub lucky: usize,
    pub composite: usize,
    pub inconclusive: usize,
    pub max_rank: u128,
}

/// Counts the candidates by state. The largest open place is taken over the undecided candidates
/// and over the places that `announcements` leaves open.
pub fn tally(candidates: &[Candidate], announcements: &[Announcement]) -> (r: Tally)
    ensures
        r.pending == pending_count(candidates@),
        r.lucky == state_count(candidates@, |s: CandidateState| s is Lucky),
        r.composite == state_count(candidates@, |s: CandidateState| s is Composite),
        r.inconclusive == state_count(candidates@, |s: CandidateState| s is Inconclusive),
        r.max_rank == if max_pending_rank(candidates@) > max_open_rank(announcements@) {
            max_pending_rank(candidates@)
        } else {
            max_open_rank(announcements@)
        },
{
    let mut r = Tally { pending: 0, lucky: 0, composite: 0, inconclusive: 0, max_rank: 0 };
    let ghost all = candidates@;
    let ghost is_lucky = |s: CandidateState| s is Lucky;
    let ghost is_composite = |s: CandidateState| s is Composite;
    let ghost is_open = |s: CandidateState| s is Inconclusive;
    assert(all.take(0) =~= Seq::empty());
    let mut i: usize = 0;
    while i < candidates.len()
        invariant
            all == candidates@,
            i <= all.len(),
            is_lucky == (|s: CandidateState| s is Lucky),
            is_composite == (|s: CandidateState| s is Composite),
            is_open == (|s: CandidateState| s is Inconclusive),
            r.pending <= i,
            r.lucky <= i,
            r.composite <= i,
            r.inconclusive <= i,
            r.pending == pending_count(all.take(i as int)),
            r.lucky == state_count(all.take(i as int), is_lucky),
            r.composite == state_count(all.take(i as int), is_composite),
            r.inconclusive == state_count(all.take(i as int), is_open),
            r.max_rank == max_pending_rank(all.take(i as int)),
        decreases all.len() - i,
    {
        assert(all.take(i + 1).drop_last() =~= all.take(i as int));
        match &candidates[i].state {
            CandidateState::Pending { rank } => {
                r.pending = r.pending + 1;
                if *rank > r.max_rank {
                    r.max_rank = *rank;
                }
            },
            CandidateState::Lucky { .. } => {
                r.lucky = r.lucky + 1;
            },
            CandidateState::Composite { .. } => {
                r.composite = r.composite + 1;
            },
            CandidateState::Inconclusive => {
                r.inconclusive = r.inconclusive + 1;
            },
        }
        i = i + 1;
    }
    assert(all.take(i as int) =~= all);
    let ghost said = announcements@;
    let mut open: u128 = 0;
    let mut k: usize = 0;
    assert(said.take(0) =~= Seq::empty());
    while k < announcements.len()
        invariant
            said == announcements@,
            k <= said.len(),
            open == max_open_rank(said.take(k as int)),
        decreases said.len() - k,
    {
        assert(said.take(k + 1).drop_last() =~= said.take(k as int));
        match &announcements[k] {
            Announcement::Inconclusive { rank, .. } => {
                if *rank > open {
                    open = *rank;
                }
            },
            _ => {},
        }
        k = k + 1;
    }
    assert(said.take(k as int) =~= said);
    if open >= r.max_rank {
        r.max_rank = open;
    }
    r
}

/// What becomes of one state under the factors of a list, the next of them at `factor_rank`.
pub open spec fn verdict_from(list: Seq<int>, factor_rank: nat, state: CandidateState) -> CandidateState
    decreases factors_left(list, factor_rank),
{
    if !(state is Pending) || factor_rank > list.len() {
        state
    } else {
        let factor = factor_of(list[factor_rank as int - 1]);
        proof {
            crate::lists::lemma_strike_no_longer(list, factor as int);
        }
        verdict_from(strike(list, factor as int), factor_rank + 1, state_after(state, factor))
    }
}

/// Where a running search stands.
#[derive(Debug, Clone, Copy)]
pub struct Search {
    /// The place of the next factor in the sieve.
    pub factor_rank: u64,
    /// How many factors have been applied.
    pub processed_factors: u64,
    /// How many numbers the factors have struck from the sieve.
    pub total_deleted: u64,
    /// How many candidates are undecided.
    pub pending: usize,
}

impl Search {
    /// A search that has applied no factor: the first one stands at the second place.
    pub fn begin(candidates: &[Candidate]) -> (r: Self)
        ensures
            r.factor_rank == 2,
            r.processed_factors == 0,
            r.total_deleted == 0,
            r.pending == pending_count(candidates@),
    {
        Search { factor_rank: 2, processed_factors: 0, total_deleted: 0, pending: count_pending(candidates) }
    }

    /// The next factor, while a candidate is undecided and the sieve has one.
    pub fn next_factor(&self, sieve: &LuckySieve) -> (r: Option<u64>)
        requires
            sieve.wf(),
        ensures
            r is Some <==> self.pending > 0 && 1 <= self.factor_rank <= sieve@.len(),
            r matches Some(factor) ==> factor >= 1 && factor == factor_of(sieve@[self.factor_rank - 1]),
    {
        if self.pending == 0 {
            return None;
        }
        match sieve.select(self.factor_rank) {
            Some(odd_index) => {
                let doubled: u64 = match odd_index.checked_mul(2) {
                    Some(v) => v,
                    None => u64::MAX,
                };
                Some(doubled - 1)
            },
            None => None,
        }
    }

    /// Applies a factor to the candidates and counts it.
    pub fn apply(&mut self, factor: u64, candidates: &mut [Candidate], announce: bool) -> (said: Vec<Announcement>)
        requires
            factor >= 1 || old(self).pending == 0,
            old(self).pending == pending_count(old(candidates)@),
            old(self).processed_factors < u64::MAX,
        ensures
            final(candidates)@ == applied(old(candidates)@, factor),
            final(self).pending == pending_count(final(candidates)@),
            final(self).processed_factors == old(self).processed_factors + 1,
            final(self).factor_rank == old(self).factor_rank,
            final(self).total_deleted == old(self).total_deleted,
            said@ == if announce {
                announced(old(candidates)@, factor)
            } else {
                Seq::empty()
            },
    {
        self.processed_factors = self.processed_factors + 1;
        let (completed, said) = apply_factor_to_candidates(factor, candidates, announce);
        self.pending = self.pending - completed;
        said
    }

    /// Goes on to the next place after a factor has struck `deleted` numbers from the sieve.
    pub fn advance(&mut self, deleted: u64)
        requires
            old(self).factor_rank < u64::MAX,
            old(self).total_deleted + deleted <= u64::MAX,
        ensures
            final(self).factor_rank == old(self).factor_rank + 1,
            final(self).total_deleted == old(self).total_deleted + deleted,
            final(self).processed_factors == old(self).processed_factors,
            final(self).pending == old(self).pending,
    {
        self.total_deleted = self.total_deleted + deleted;
        self.factor_rank = self.factor_rank + 1;
    }
}

/// How a search ended.
pub struct SearchReport {
    pub search: Search,
    /// What there was to say, in order.
    pub announcements: Vec<Announcement>,
}

/// Searches: applies the sieve's factors one after another to the candidates, striking each from
/// the sieve, until every candidate is decided or the factors are used up; then settles what is
/// left by the sieve's limit.
pub fn search_with_sieve(
    sieve: &mut LuckySieve,
    candidates: &mut [Candidate],
    threads: usize,
    scan_threshold: u64,
    announce: bool,
) -> (report: SearchReport)
    requires
        old(sieve).wf(),
    ensures
        final(sieve).wf(),
        final(sieve).n_odds == old(sieve).n_odds,
        ({
            let end = search_from(old(sieve)@, 2, old(candidates)@);
            let limit = factor_of(2 * old(sieve).n_odds - 1);
            &&& final(sieve)@ == end.list
            &&& final(candidates)@ == at_end(end.candidates, limit)
            &&& report.search.factor_rank == end.factor_rank
            &&& report.search.processed_factors == end.processed_factors
            &&& report.search.total_deleted == end.total_deleted
            &&& report.search.pending == pending_count(end.candidates)
            &&& report.announcements@ == if announce {
                end.announcements + announced_at_end(end.candidates, limit)
            } else {
                Seq::empty()
            }
        }),
{
    let mut search = Search::begin(candidates);
    let mut announcements: Vec<Announcement> = Vec::new();
    let ghost end = search_from(sieve@, 2, candidates@);
    proof {
        assert(announcements@ + end.announcements =~= end.announcements);
    }
    loop
        invariant_except_break
            sieve.wf(),
            sieve.n_odds == old(sieve).n_odds,
            2 <= search.factor_rank,
            search.factor_rank > 2 ==> sieve.alive < u64::MAX,
            search.processed_factors == search.factor_rank - 2,
            search.pending == pending_count(candidates@),
            search.total_deleted + sieve.alive <= u64::MAX,
            ({
                let rest = search_from(sieve@, search.factor_rank as nat, candidates@);
                &&& end.list == rest.list
                &&& end.candidates == rest.candidates
                &&& end.factor_rank == rest.factor_rank
                &&& end.processed_factors == search.processed_factors + rest.processed_factors
                &&& end.total_deleted == search.total_deleted + rest.total_deleted
                &&& announce ==> end.announcements == announcements@ + rest.announcements
                &&& !announce ==> announcements@ == Seq::<Announcement>::empty()
            }),
        ensures
            sieve.wf(),
            sieve.n_odds == old(sieve).n_odds,
            search.pending == pending_count(candidates@),
            end.list == sieve@,
            end.candidates == candidates@,
            end.factor_rank == search.factor_rank,
            end.processed_factors == search.processed_factors,
            end.total_deleted == search.total_deleted,
            announce ==> end.announcements == announcements@,
            !announce ==> announcements@ == Seq::<Announcement>::empty(),
        decreases factors_left(sieve@, search.factor_rank as nat),
    {
        let ghost list = sieve@;
        let ghost before = candidates@;
        let factor: u64 = match search.next_factor(sieve) {
            Some(factor) => factor,
            None => {
                proof {
                    assert(announcements@ + Seq::<Announcement>::empty() =~= announcements@);
                }
                break;
            },
        };
        proof {
            sieve.lemma_view();
            crate::lists::lemma_strike_no_longer(list, factor as int);
        }
        let mut said: Vec<Announcement> = search.apply(factor, candidates, announce);
        let ghost earlier = announcements@;
        let ghost new_words = said@;
        announcements.append(&mut said);
        if search.pending == 0 {
            proof {
                assert(announcements@ =~= earlier + new_words);
            }
            break;
        }
        proof {
            if factor <= list.len() {
                vstd::arithmetic::div_mod::lemma_div_non_zero(list.len() as int, factor as int);
            }
        }
        let deleted: u64 = if factor <= sieve.alive {
            sieve.delete_every_with_scan(factor, threads, scan_threshold)
        } else {
            proof {
                crate::lists::lemma_strike_short(list, factor as int);
                crate::lists::lemma_quotient(list.len() as int, factor as int, 0, list.len() as int);
            }
            0
        };
        search.advance(deleted);
        proof {
            let rest = search_from(sieve@, search.factor_rank as nat, candidates@);
            if announce {
                assert(announcements@ + rest.announcements =~= earlier + (new_words + rest.announcements));
            }
        }
    }
    let limit: u64 = sieve.value_limit();
    let mut said: Vec<Announcement> = finalize_candidates(candidates, limit, announce);
    announcements.append(&mut said);
    proof {
        assert(limit == factor_of(2 * sieve.n_odds - 1));
    }
    SearchReport { search, announcements }
}

} // verus!
