//! The program's check of itself on small cases.
use crate::candidates::{
    admitted, candidates_of, family_candidates, lists_families, lists_family, merged_all, start_state,
    Candidate, CandidateLabel, CandidateState, Direction,
};
use crate::config::CandidateFamily;
use crate::families::{fibonacci_seeds, repunit, run_value, terms, tetranacci_seeds, total};
use crate::laws::{
    family_has_label, has_labelled, has_number, in_family, label_value, law_family_members, law_merged, tracks,
};
use crate::lists::strike;
use crate::lucky::{after_passes, is_lucky, odds};
use crate::search::{apply_factor_to_candidates, factor_of, factors_left, state_after, verdict_from};
use crate::sieve::{words_for, LuckySieve, SieveError};
use crate::sizing::attempted;
use crate::text::same_text;
use vstd::prelude::*;
use vstd::string::*;

verus! {

/// What the check found.
#[derive(Debug)]
pub enum SelfTestError {
    /// A sieve could not be made.
    Sieve { cause: SieveError },
    /// The small sieve has too few factors to decide `n`.
    TooSmall { n: u64 },
    /// A lucky number was not found lucky.
    ExpectedLucky { n: u64 },
    /// A number that is not lucky was found lucky.
    ExpectedNotLucky { n: u64 },
    /// The sieve has no factor where it should have one.
    NoFactor,
    /// The scan deleted another number of numbers.
    Deletions { factor: u64, got: u64, expected: u64 },
    /// The scan left other bits.
    State { factor: u64 },
    /// The rebuilt tree finds another number.
    Select { factor: u64, rank: u64 },
    /// There are not fifteen repdigits up to a thousand.
    RepdigitCount { count: usize },
    /// A candidate lacks a label.
    MissingLabel { n: u64, label: String },
}

/// The number of odd numbers in the sieve that decides small numbers.
pub const SMALL_SIEVE_ODDS: u64 = 512;

/// Whether `cause` says that there is no memory for a sieve of `n_odds` odd numbers.
pub open spec fn refused(cause: SieveError, n_odds: int) -> bool {
    match cause {
        SieveError::Bitset { words, .. } => words == words_for(n_odds),
        SieveError::Tree { words, .. } => words == words_for(n_odds) + 1,
        _ => false,
    }
}

/// Whether `n` is lucky, by a sieve of the odd numbers up to 1023.
pub fn prove_small(n: u64) -> (r: Result<bool, SelfTestError>)
    ensures
        n % 2 == 0 ==> r is Ok,
        match r {
            Ok(lucky) => lucky == is_lucky(n as int),
            Err(SelfTestError::Sieve { cause }) => n > 1 && refused(cause, SMALL_SIEVE_ODDS as int),
            Err(SelfTestError::TooSmall { n: m }) => {
                &&& m == n
                &&& n > 1023
                &&& verdict_from(odds(SMALL_SIEVE_ODDS as nat), 2, start_state(n)) is Pending
            },
            Err(_) => false,
        },
        r is Ok && n % 2 == 1 ==> !(verdict_from(odds(SMALL_SIEVE_ODDS as nat), 2, start_state(n)) is Pending),
        n > 1 && n % 2 == 1 ==> exists|attempt: Result<LuckySieve, SieveError>| #[trigger]
            attempted(512, attempt) && match attempt {
                Err(cause) => r == Err::<bool, SelfTestError>(SelfTestError::Sieve { cause }),
                Ok(_) => !(r is Err && r->Err_0 is Sieve),
            },
{
    if n == 1 {
        proof {
            crate::laws::law_one_is_lucky();
        }
        return Ok(true);
    }
    if n % 2 == 0 {
        return Ok(false);
    }
    let attempt: Result<LuckySieve, SieveError> = LuckySieve::new(SMALL_SIEVE_ODDS);
    assert(attempted(512, attempt));
    decide_small(n, attempt)
}

/// Whether the odd number `n` above one is lucky, by an attempt to make the sieve for small
/// numbers. Where the sieve could not be made, says so; where its factors leave `n` undecided, which
/// is only above 1023, says that; and answers everywhere else.
pub fn decide_small(n: u64, attempt: Result<LuckySieve, SieveError>) -> (r: Result<bool, SelfTestError>)
    requires
        n > 1,
        n % 2 == 1,
        attempt matches Ok(sieve) ==> sieve.wf() && sieve.n_odds == SMALL_SIEVE_ODDS && sieve@ == odds(
            SMALL_SIEVE_ODDS as nat,
        ),
    ensures
        match attempt {
            Err(cause) => r == Err::<bool, SelfTestError>(SelfTestError::Sieve { cause }),
            Ok(_) => if verdict_from(odds(SMALL_SIEVE_ODDS as nat), 2, start_state(n)) is Pending {
                n > 1023 && r == Err::<bool, SelfTestError>(SelfTestError::TooSmall { n })
            } else {
                r == Ok::<bool, SelfTestError>(is_lucky(n as int))
            },
        },
{
    let mut candidate: Vec<Candidate> = vec![Candidate::new_unlabeled(n)];
    let mut sieve: LuckySieve = match attempt {
        Ok(sieve) => sieve,
        Err(cause) => {
            return Err(SelfTestError::Sieve { cause });
        },
    };
    let mut factor_rank: u64 = 2;
    let ghost size = SMALL_SIEVE_ODDS as nat;
    let ghost verdict = verdict_from(odds(size), 2, start_state(n));
    proof {
        crate::laws::law_start_is_tracked(n);
    }
    loop
        invariant
            attempt is Ok,
            n > 1,
            n % 2 == 1,
            size == SMALL_SIEVE_ODDS,
            sieve.wf(),
            sieve.n_odds == SMALL_SIEVE_ODDS,
            2 <= factor_rank <= 600,
            sieve@ == after_passes(size, (factor_rank - 2) as nat),
            candidate@.len() == 1,
            candidate@[0].state is Pending,
            tracks(n as int, (factor_rank - 2) as nat, candidate@[0].state),
            verdict == verdict_from(odds(size), 2, start_state(n)),
            verdict == verdict_from(sieve@, factor_rank as nat, candidate@[0].state),
        decreases factors_left(sieve@, factor_rank as nat),
    {
        let ghost k = (factor_rank - 1) as nat;
        let ghost list = sieve@;
        let ghost state = candidate@[0].state;
        proof {
            sieve.lemma_view();
        }
        let odd_index: u64 = match sieve.select(factor_rank) {
            Some(odd_index) => odd_index,
            None => {
                proof {
                    if n <= 1023 {
                        crate::laws::law_own_range_is_decided(n as int, size, (k - 1) as nat, state);
                    }
                }
                return Err(SelfTestError::TooSmall { n });
            },
        };
        let factor: u64 = odd_index * 2 - 1;
        proof {
            assert(factor == factor_of(list[factor_rank - 1]));
            crate::laws::law_factor_keeps_track(n as int, size, k, state);
            crate::lists::lemma_strike_no_longer(list, factor as int);
            crate::lucky::lemma_after_passes(size, (k - 1) as nat);
        }
        let _said = apply_factor_to_candidates(factor, candidate.as_mut_slice(), false);
        assert(candidate@[0].state == state_after(state, factor));
        assert(verdict == verdict_from(strike(list, factor as int), factor_rank as nat + 1, candidate@[0].state));
        match &candidate[0].state {
            CandidateState::Lucky { .. } => {
                return Ok(true);
            },
            CandidateState::Composite { .. } => {
                return Ok(false);
            },
            _ => {},
        }
        if factor <= sieve.alive {
            let _deleted: u64 = sieve.delete_every(factor);
        } else {
            proof {
                crate::lists::lemma_strike_short(list, factor as int);
            }
        }
        factor_rank = factor_rank + 1;
    }
}

/// Whether two runs of words are the same.
fn same_words(a: &Vec<u64>, b: &Vec<u64>) -> (r: bool)
    ensures
        r == (a@ == b@),
{
    if a.len() != b.len() {
        return false;
    }
    let mut i: usize = 0;
    while i < a.len()
        invariant
            i <= a@.len() == b@.len(),
            forall|k: int| 0 <= k < i ==> a@[k] == b@[k],
        decreases a@.len() - i,
    {
        if a[i] != b[i] {
            assert(a@[i as int] != b@[i as int]);
            return false;
        }
        i = i + 1;
    }
    assert(a@ =~= b@);
    true
}

/// The number at a place of a list, where the list has the place.
pub open spec fn selected(list: Seq<int>, rank: int) -> Option<int> {
    if 1 <= rank <= list.len() {
        Some(list[rank - 1])
    } else {
        None
    }
}

/// Whether two sieves find the same number at a place.
fn same_selection(a: &LuckySieve, b: &LuckySieve, rank: u64) -> (r: bool)
    requires
        a.wf(),
        b.wf(),
    ensures
        r == (selected(a@, rank as int) == selected(b@, rank as int)),
{
    match (a.select(rank), b.select(rank)) {
        (Some(x), Some(y)) => x == y,
        (None, None) => true,
        _ => false,
    }
}

/// Compares what a scan left with what deleting number by number left: the counts, the bits, and
/// what the trees find at a few places. Sieves with the same bits agree in all of these.
pub fn compare_after_factor(
    scanned: &LuckySieve,
    reference: &LuckySieve,
    factor: u64,
    factor_rank: u64,
) -> (r: Result<(), SelfTestError>)
    requires
        scanned.wf(),
        reference.wf(),
    ensures
        r == if scanned.bits@ == reference.bits@ {
            Ok::<(), SelfTestError>(())
        } else {
            Err(SelfTestError::State { factor })
        },
{
    if scanned.alive != reference.alive || !same_words(&scanned.bits, &reference.bits) {
        return Err(SelfTestError::State { factor });
    }
    let ranks: [u64; 4] = [1, factor_rank, scanned.alive / 2, scanned.alive];
    let mut j: usize = 0;
    while j < 4
        invariant
            j <= 4,
            reference.wf(),
            scanned.wf(),
            reference@ == scanned@,
        decreases 4 - j,
    {
        let rank: u64 = ranks[j];
        if rank > 0 && !same_selection(scanned, reference, rank) {
            return Err(SelfTestError::Select { factor, rank });
        }
        j = j + 1;
    }
    Ok(())
}

/// Deletes by scans and number by number, side by side, and compares. Nothing but a lack of
/// memory makes this fail.
pub fn scan_delete_self_test() -> (r: Result<(), SelfTestError>)
    ensures
        r matches Err(error) ==> error matches SelfTestError::Sieve { cause } && refused(cause, 1_000_000),
        exists|reference: Result<LuckySieve, SieveError>, scanned: Result<LuckySieve, SieveError>|
            #![trigger attempted(1_000_000, reference), attempted(1_000_000, scanned)]
            attempted(1_000_000, reference) && attempted(1_000_000, scanned) && r == match (reference, scanned) {
                (Err(cause), _) => Err::<(), SelfTestError>(SelfTestError::Sieve { cause }),
                (Ok(_), Err(cause)) => Err(SelfTestError::Sieve { cause }),
                (Ok(_), Ok(_)) => Ok(()),
            },
{
    let reference: Result<LuckySieve, SieveError> = LuckySieve::new(1_000_000);
    let scanned: Result<LuckySieve, SieveError> = LuckySieve::new(1_000_000);
    assert(attempted(1_000_000, reference) && attempted(1_000_000, scanned));
    scan_delete_check(reference, scanned)
}

/// Whether an attempt to make a sieve of a million odd numbers gave one, if it gave any.
pub open spec fn fresh_million(attempt: Result<LuckySieve, SieveError>) -> bool {
    attempt matches Ok(sieve) ==> {
        &&& sieve.wf()
        &&& sieve.n_odds == 1_000_000
        &&& sieve@ == odds(1_000_000)
    }
}

/// Deletes by scans from one fresh sieve and number by number from another, and compares. Where
/// one of them could not be made, says so; where both are there, they agree.
pub fn scan_delete_check(
    reference: Result<LuckySieve, SieveError>,
    scanned: Result<LuckySieve, SieveError>,
) -> (r: Result<(), SelfTestError>)
    requires
        fresh_million(reference),
        fresh_million(scanned),
    ensures
        r == match (reference, scanned) {
            (Err(cause), _) => Err::<(), SelfTestError>(SelfTestError::Sieve { cause }),
            (Ok(_), Err(cause)) => Err(SelfTestError::Sieve { cause }),
            (Ok(_), Ok(_)) => Ok(()),
        },
{
    let mut reference: LuckySieve = match reference {
        Ok(sieve) => sieve,
        Err(cause) => {
            return Err(SelfTestError::Sieve { cause });
        },
    };
    let mut scanned: LuckySieve = match scanned {
        Ok(sieve) => sieve,
        Err(cause) => {
            return Err(SelfTestError::Sieve { cause });
        },
    };
    let mut factor_rank: u64 = 2;
    let mut round: u64 = 0;
    while round < 14
        invariant
            round <= 14,
            factor_rank == round + 2,
            reference.wf(),
            scanned.wf(),
            reference.n_odds == 1_000_000,
            scanned.n_odds == 1_000_000,
            reference@ == scanned@,
            reference@ == after_passes(1_000_000, round as nat),
        decreases 14 - round,
    {
        let ghost list = reference@;
        proof {
            lemma_small_factor(round as nat);
            crate::lucky::lemma_after_passes(1_000_000, round as nat);
            reference.lemma_view();
        }
        let factor: u64 = match reference.select(factor_rank) {
            Some(odd_index) => odd_index * 2 - 1,
            None => {
                return Err(SelfTestError::NoFactor);
            },
        };
        proof {
            crate::lists::lemma_strike_len(list, factor as int);
            crate::lists::lemma_strike_no_longer(list, factor as int);
        }
        let expected: u64 = reference.delete_every(factor);
        let got: u64 = if factor == 3 && scanned.alive == scanned.n_odds {
            scanned.delete_initial_every_three()
        } else {
            scanned.delete_every_by_u16_scan(factor, 2)
        };
        if got != expected {
            return Err(SelfTestError::Deletions { factor, got, expected });
        }
        scanned.finish_scan(got);
        proof {
            crate::laws::law_survivors_fix_bits(scanned.bits@, reference.bits@);
        }
        compare_after_factor(&scanned, &reference, factor, factor_rank)?;
        factor_rank = factor_rank + 1;
        round = round + 1;
    }
    Ok(())
}

/// At least how many of the first 1024 odd numbers are left after `k` passes.
spec fn left_of_1024(k: nat) -> int {
    if k == 0 {
        1024
    } else if k == 1 {
        683
    } else if k == 2 {
        456
    } else if k == 3 {
        304
    } else if k == 4 {
        203
    } else if k == 5 {
        136
    } else if k == 6 {
        91
    } else {
        61 - 3 * (k - 7)
    }
}

/// The first thirteen passes leave plenty of the first 1024 odd numbers.
proof fn lemma_left_of_1024(k: nat)
    requires
        k <= 13,
    ensures
        after_passes(1024, k).len() >= left_of_1024(k),
    decreases k,
{
    if k > 0 {
        let p = (k - 1) as nat;
        let s = after_passes(1024, p);
        lemma_left_of_1024(p);
        crate::lucky::lemma_after_passes(1024, p);
        let f = s[k as int];
        let len = s.len() as int;
        crate::lists::lemma_strike_len(s, f);
        vstd::arithmetic::div_mod::lemma_div_is_ordered_by_denominator(len, 3, f);
        if k >= 8 {
            vstd::arithmetic::div_mod::lemma_div_is_ordered_by_denominator(len, 17, f);
        }
    }
}

/// The factors of the first fourteen passes are within the reach of the table of actions.
proof fn lemma_small_factor(round: nat)
    requires
        round <= 13,
    ensures
        after_passes(1_000_000, round).len() > round + 1,
        3 <= after_passes(1_000_000, round)[round as int + 1] <= 2047,
{
    let s = after_passes(1024, round);
    let t = after_passes(1_000_000, round);
    lemma_left_of_1024(round);
    crate::lucky::lemma_after_passes(1024, round);
    crate::lucky::lemma_prefix(1024, 1_000_000, round);
    assert(t.take(s.len() as int)[round as int + 1] == t[round as int + 1]);
}

/// Whether one of the candidates is `n` and has a label of this text.
pub open spec fn has_label_text(candidates: Seq<Candidate>, n: u64, text: Seq<char>) -> bool {
    exists|i: int, j: int|
        0 <= i < candidates.len() && 0 <= j < candidates[i].label_seq().len() && candidates[i].n == n && (
        #[trigger] candidates[i].label_seq()[j]).text_spec() == text
}

/// Whether one of the candidates is `n` and has a label of this text.
pub fn candidate_has_label(candidates: &[Candidate], n: u64, label: &str) -> (r: bool)
    ensures
        r == has_label_text(candidates@, n, label@),
{
    let mut i: usize = 0;
    while i < candidates.len()
        invariant
            i <= candidates@.len(),
            forall|a: int, b: int|
                0 <= a < i && 0 <= b < candidates@[a].label_seq().len() && candidates@[a].n == n ==> (
                #[trigger] candidates@[a].label_seq()[b]).text_spec() != label@,
        decreases candidates@.len() - i,
    {
        let candidate: &Candidate = &candidates[i];
        if candidate.n == n {
            let labels: &[CandidateLabel] = candidate.labels();
            let mut j: usize = 0;
            while j < labels.len()
                invariant
                    i < candidates@.len(),
                    candidates@[i as int].n == n,
                    labels@ == candidates@[i as int].label_seq(),
                    j <= labels@.len(),
                    forall|b: int|
                        0 <= b < j ==> (#[trigger] candidates@[i as int].label_seq()[b]).text_spec() != label@,
                decreases labels@.len() - j,
            {
                let text: String = labels[j].text();
                if same_text(text.as_str(), label) {
                    assert(candidates@[i as int].label_seq()[j as int].text_spec() == label@);
                    return true;
                }
                j = j + 1;
            }
        }
        i = i + 1;
    }
    false
}

/// A label of a candidate is found by its text.
proof fn lemma_label_found(candidates: Seq<Candidate>, n: u64, label: CandidateLabel)
    requires
        has_labelled(candidates, n, label),
    ensures
        has_label_text(candidates, n, label.text_spec()),
{
    let i = choose|i: int|
        0 <= i < candidates.len() && (#[trigger] candidates[i]).n == n && candidates[i].label_seq().contains(label);
    let j = choose|j: int|
        0 <= j < candidates[i].label_seq().len() && candidates[i].label_seq()[j] == label;
    assert(candidates[i].label_seq()[j].text_spec() == label.text_spec());
}

/// A member of a family stands in its list, with its label.
proof fn lemma_member_labelled(
    family: CandidateFamily,
    candidates: Seq<Candidate>,
    min: u64,
    max: u64,
    n: u64,
    label: CandidateLabel,
)
    requires
        lists_family(family, candidates, min, max),
        family_has_label(family, label),
        label_value(label) == n,
        admitted(n as int, min, max),
    ensures
        has_labelled(candidates, n, label),
{
    law_family_members(family, candidates, min, max);
    assert(in_family(family, n as int));
    assert(has_number(candidates, n));
    let i = choose|i: int| 0 <= i < candidates.len() && (#[trigger] candidates[i]).n == n;
    assert(candidates[i].label_seq().contains(label));
}

/// A member of one of several families stands in their merged list, with its label.
proof fn lemma_merged_labelled(
    families: Seq<CandidateFamily>,
    candidates: Seq<Candidate>,
    max: u64,
    j: int,
    n: u64,
    label: CandidateLabel,
)
    requires
        exists|lists: Seq<Vec<Candidate>>| #[trigger]
            lists_families(families, 0, max, lists) && candidates_of(candidates, merged_all(lists)),
        0 <= j < families.len(),
        family_has_label(families[j], label),
        label_value(label) == n,
        admitted(n as int, 0, max),
    ensures
        has_label_text(candidates, n, label.text_spec()),
{
    let lists = choose|lists: Seq<Vec<Candidate>>| #[trigger]
        lists_families(families, 0, max, lists) && candidates_of(candidates, merged_all(lists));
    let m = merged_all(lists);
    lemma_member_labelled(families[j], lists[j]@, 0, max, n, label);
    law_merged(lists, n, label);
    assert(has_labelled(lists[j]@, n, label));
    assert(m.contains_key(n));
    let i = choose|i: int| 0 <= i < candidates.len() && (#[trigger] candidates[i]).n == n;
    assert(candidates[i].label_seq() == m[n]);
    lemma_label_found(candidates, n, label);
}

/// Lists of numbers in ascending order that hold the same numbers are equally long.
proof fn lemma_same_numbers(candidates: Seq<Candidate>, numbers: Seq<u64>)
    requires
        forall|i: int, j: int| 0 <= i < j < candidates.len() ==> candidates[i].n < candidates[j].n,
        forall|i: int, j: int| 0 <= i < j < numbers.len() ==> numbers[i] < numbers[j],
        forall|n: u64| #[trigger] has_number(candidates, n) <==> numbers.contains(n),
    ensures
        candidates.len() == numbers.len(),
{
    let held = candidates.map_values(|c: Candidate| c.n);
    assert(held.to_set() =~= numbers.to_set()) by {
        assert forall|n: u64| held.contains(n) <==> numbers.contains(n) by {
            if held.contains(n) {
                let i = choose|i: int| 0 <= i < held.len() && held[i] == n;
                assert(candidates[i].n == n);
                assert(has_number(candidates, n));
            }
            if numbers.contains(n) {
                assert(has_number(candidates, n));
                let i = choose|i: int| 0 <= i < candidates.len() && (#[trigger] candidates[i]).n == n;
                assert(held[i] == n);
            }
        }
    }
    held.unique_seq_to_set();
    numbers.unique_seq_to_set();
}

/// The repdigits of odd digits up to a thousand.
spec fn repdigits_to_1000() -> Seq<u64> {
    seq![1, 3, 5, 7, 9, 11, 33, 55, 77, 99, 111, 333, 555, 777, 999]
}

/// A number of four ones or more is above a thousand.
proof fn lemma_long_repunit(len: nat)
    requires
        len >= 4,
    ensures
        repunit(len) > 1000,
    decreases len,
{
    reveal_with_fuel(repunit, 5);
    if len > 4 {
        lemma_long_repunit((len - 1) as nat);
    }
}

/// What a repdigit label of up to three digits stands for.
proof fn lemma_short_repdigit(digit: u8, len: u8)
    requires
        1 <= len <= 3,
    ensures
        label_value(CandidateLabel::Repdigit { digit, len }) == if len == 1 {
            digit as int
        } else if len == 2 {
            11 * digit
        } else {
            111 * digit
        },
{
    reveal_with_fuel(repunit, 4);
    let ones = repunit(len as nat);
    assert(ones == 1 || ones == 11 || ones == 111);
    assert(ones == 1 ==> ones * digit == digit) by (nonlinear_arith);
    assert(ones == 11 ==> ones * digit == 11 * digit) by (nonlinear_arith);
    assert(ones == 111 ==> ones * digit == 111 * digit) by (nonlinear_arith);
}

/// Which members the family of repdigits has up to a thousand.
proof fn lemma_repdigits_to_1000(n: u64)
    ensures
        admitted(n as int, 0, 1000) && in_family(CandidateFamily::Repdigit, n as int)
            <==> repdigits_to_1000().contains(n),
{
    let family = CandidateFamily::Repdigit;
    let numbers = repdigits_to_1000();
    if admitted(n as int, 0, 1000) && in_family(family, n as int) {
        let l = choose|l: CandidateLabel| #[trigger] family_has_label(family, l) && label_value(l) == n;
        let digit = l->Repdigit_digit;
        let len = l->Repdigit_len;
        if len >= 4 {
            lemma_long_repunit(len as nat);
            assert(repunit(len as nat) * digit >= repunit(len as nat)) by (nonlinear_arith)
                requires
                    repunit(len as nat) > 0,
                    digit >= 1,
            ;
        }
        let i = 5 * (len - 1) + (digit - 1) / 2;
        lemma_short_repdigit(digit, len);
        assert(digit == 1 || digit == 3 || digit == 5 || digit == 7 || digit == 9);
        assert(numbers[i] == n);
    }
    if numbers.contains(n) {
        let l = if n < 10 {
            CandidateLabel::Repdigit { digit: n as u8, len: 1 }
        } else if n < 100 {
            CandidateLabel::Repdigit { digit: (n / 11) as u8, len: 2 }
        } else {
            CandidateLabel::Repdigit { digit: (n / 111) as u8, len: 3 }
        };
        lemma_short_repdigit(l->Repdigit_digit, l->Repdigit_len);
        assert(family_has_label(family, l));
        assert(label_value(l) == n);
    }
}

/// The label of 333.
proof fn lemma_label_of_333()
    ensures
        label_value(CandidateLabel::Repdigit { digit: 3, len: 3 }) == 333,
        (CandidateLabel::Repdigit { digit: 3, len: 3 }).text_spec() == "repdigit(d=3,len=3)"@,
{
    reveal_with_fuel(repunit, 4);
    reveal_strlit("repdigit(d=");
    reveal_strlit(",len=");
    reveal_strlit(")");
    reveal_strlit("repdigit(d=3,len=3)");
    assert((CandidateLabel::Repdigit { digit: 3, len: 3 }).text_spec() =~= "repdigit(d=3,len=3)"@);
}

/// The label of 13 among the Fibonacci numbers.
proof fn lemma_label_of_13()
    ensures
        label_value(CandidateLabel::Fibonacci { index: 7 }) == 13,
        (CandidateLabel::Fibonacci { index: 7 }).text_spec() == "fibonacci(k=7)"@,
{
    let s = fibonacci_seeds();
    assert(terms(s, 2) =~= seq![0int, 1]);
    lemma_next_of_two(s, 2);
    lemma_next_of_two(s, 3);
    lemma_next_of_two(s, 4);
    lemma_next_of_two(s, 5);
    lemma_next_of_two(s, 6);
    lemma_next_of_two(s, 7);
    reveal_strlit("fibonacci(k=");
    reveal_strlit(")");
    reveal_strlit("fibonacci(k=7)");
    assert((CandidateLabel::Fibonacci { index: 7 }).text_spec() =~= "fibonacci(k=7)"@);
}

/// The label of 15 among the tetranacci numbers.
proof fn lemma_label_of_15()
    ensures
        label_value(CandidateLabel::Tetranacci { index: 8 }) == 15,
        (CandidateLabel::Tetranacci { index: 8 }).text_spec() == "tetranacci(k=8)"@,
{
    let s = tetranacci_seeds();
    assert(terms(s, 4) =~= seq![0int, 0, 0, 1]);
    lemma_next_of_four(s, 4);
    lemma_next_of_four(s, 5);
    lemma_next_of_four(s, 6);
    lemma_next_of_four(s, 7);
    lemma_next_of_four(s, 8);
    reveal_strlit("tetranacci(k=");
    reveal_strlit(")");
    reveal_strlit("tetranacci(k=8)");
    assert((CandidateLabel::Tetranacci { index: 8 }).text_spec() =~= "tetranacci(k=8)"@);
}

/// The label of 31 among the numbers one below a power of two with a prime exponent.
proof fn lemma_label_of_31()
    ensures
        family_has_label(
            CandidateFamily::MersennePrimeExponent,
            CandidateLabel::MersennePrimeExponent { exponent: 5 },
        ),
        label_value(CandidateLabel::MersennePrimeExponent { exponent: 5 }) == 31,
        (CandidateLabel::MersennePrimeExponent { exponent: 5 }).text_spec() == "mersenne-prime-exp(p=5)"@,
{
    vstd::arithmetic::power2::lemma2_to64();
    assert forall|d: int| 2 <= d < 5 implies #[trigger] (5int % d) != 0 by {
        assert(d == 2 || d == 3 || d == 4);
    }
    reveal_strlit("mersenne-prime-exp(p=");
    reveal_strlit(")");
    reveal_strlit("mersenne-prime-exp(p=5)");
    assert((CandidateLabel::MersennePrimeExponent { exponent: 5 }).text_spec() =~= "mersenne-prime-exp(p=5)"@);
}

/// The label of 321.
proof fn lemma_label_of_321()
    ensures
        label_value(CandidateLabel::ConsecutiveDigits { direction: Direction::Desc, start: 3, len: 3 }) == 321,
        (CandidateLabel::ConsecutiveDigits { direction: Direction::Desc, start: 3, len: 3 }).text_spec()
            == "consecutive-digits(desc,start=3,len=3)"@,
{
    reveal_with_fuel(run_value, 4);
    reveal_strlit("consecutive-digits(");
    reveal_strlit("desc");
    reveal_strlit(",start=");
    reveal_strlit(",len=");
    reveal_strlit(")");
    reveal_strlit("consecutive-digits(desc,start=3,len=3)");
    assert((CandidateLabel::ConsecutiveDigits { direction: Direction::Desc, start: 3, len: 3 }).text_spec()
        =~= "consecutive-digits(desc,start=3,len=3)"@);
}

/// A term of a sequence that adds the last two.
proof fn lemma_next_of_two(seeds: Seq<int>, n: nat)
    requires
        seeds.len() == 2,
        n >= 2,
    ensures
        terms(seeds, n).len() == n,
        terms(seeds, n + 1) == terms(seeds, n).push(terms(seeds, n)[n - 2] + terms(seeds, n)[n - 1]),
    decreases n,
{
    if n > 2 {
        lemma_next_of_two(seeds, (n - 1) as nat);
    }
    let s = terms(seeds, n);
    let last = s.skip(s.len() - 2);
    reveal_with_fuel(total, 3);
    assert(last.drop_last().drop_last() =~= Seq::<int>::empty());
}

/// A term of a sequence that adds the last four.
proof fn lemma_next_of_four(seeds: Seq<int>, n: nat)
    requires
        seeds.len() == 4,
        n >= 4,
    ensures
        terms(seeds, n).len() == n,
        terms(seeds, n + 1) == terms(seeds, n).push(
            terms(seeds, n)[n - 4] + terms(seeds, n)[n - 3] + terms(seeds, n)[n - 2] + terms(seeds, n)[n - 1],
        ),
    decreases n,
{
    if n > 4 {
        lemma_next_of_four(seeds, (n - 1) as nat);
    }
    let s = terms(seeds, n);
    reveal_with_fuel(total, 5);
}

/// The labels that the candidates of all families must have, with their numbers.
pub open spec fn expected_labels() -> Seq<(u64, Seq<char>)> {
    seq![
        (13, "fibonacci(k=7)"@),
        (15, "tetranacci(k=8)"@),
        (31, "mersenne-prime-exp(p=5)"@),
        (321, "consecutive-digits(desc,start=3,len=3)"@),
    ]
}

/// Whether one of the candidates is an expected number with its label.
pub open spec fn has_expected(all: Seq<Candidate>, k: int) -> bool {
    has_label_text(all, expected_labels()[k].0, expected_labels()[k].1)
}

/// Looks among the repdigits up to a thousand, and among the candidates of all families, for what
/// must be there, and names the first thing that is not.
pub fn check_generated(repdigits: &[Candidate], all: &[Candidate]) -> (r: Result<(), SelfTestError>)
    ensures
        match r {
            Ok(_) => {
                &&& repdigits@.len() == 15
                &&& has_label_text(repdigits@, 333, "repdigit(d=3,len=3)"@)
                &&& forall|k: int| 0 <= k < 4 ==> #[trigger] has_expected(all@, k)
            },
            Err(SelfTestError::RepdigitCount { count }) => count == repdigits@.len() && count != 15,
            Err(SelfTestError::MissingLabel { n, label }) => {
                &&& repdigits@.len() == 15
                &&& if has_label_text(repdigits@, 333, "repdigit(d=3,len=3)"@) {
                    exists|k: int|
                        0 <= k < 4 && !(#[trigger] has_expected(all@, k)) && (n, label@) == expected_labels()[k] && (
                        forall|j: int| 0 <= j < k ==> #[trigger] has_expected(all@, j))
                } else {
                    n == 333 && label@ == "repdigit(d=3,len=3)"@
                }
            },
            Err(_) => false,
        },
{
    if repdigits.len() != 15 {
        return Err(SelfTestError::RepdigitCount { count: repdigits.len() });
    }
    if !candidate_has_label(repdigits, 333, "repdigit(d=3,len=3)") {
        return Err(SelfTestError::MissingLabel { n: 333, label: "repdigit(d=3,len=3)".to_owned() });
    }
    let expected: [(u64, &str); 4] = [
        (13, "fibonacci(k=7)"),
        (15, "tetranacci(k=8)"),
        (31, "mersenne-prime-exp(p=5)"),
        (321, "consecutive-digits(desc,start=3,len=3)"),
    ];
    let mut i: usize = 0;
    while i < 4
        invariant
            i <= 4,
            repdigits@.len() == 15,
            has_label_text(repdigits@, 333, "repdigit(d=3,len=3)"@),
            forall|k: int|
                0 <= k < 4 ==> (#[trigger] expected@[k]).0 == expected_labels()[k].0 && expected@[k].1@
                    == expected_labels()[k].1,
            forall|k: int| 0 <= k < i ==> #[trigger] has_expected(all@, k),
        decreases 4 - i,
    {
        let (n, label) = expected[i];
        assert(n == expected@[i as int].0 && label@ == expected@[i as int].1@);
        if !candidate_has_label(all, n, label) {
            assert(!has_expected(all@, i as int));
            return Err(SelfTestError::MissingLabel { n, label: label.to_owned() });
        }
        assert(has_expected(all@, i as int));
        i = i + 1;
    }
    Ok(())
}

/// Generates candidates and looks for some that must be there. This does not fail.
pub fn candidate_generation_self_test() -> (r: Result<(), SelfTestError>)
    ensures
        r is Ok,
{
    let repdigit: [CandidateFamily; 1] = [CandidateFamily::Repdigit];
    let repdigits: Vec<Candidate> = family_candidates(0, 1_000, repdigit.as_slice());
    let families: Vec<CandidateFamily> = CandidateFamily::all();
    let all: Vec<Candidate> = family_candidates(0, 1_000, families.as_slice());
    proof {
        lemma_repdigit_list(repdigit@, repdigits@);
        lemma_label_of_333();
        lemma_merged_labelled(repdigit@, repdigits@, 1_000, 0, 333, CandidateLabel::Repdigit { digit: 3, len: 3 });
        lemma_label_of_13();
        lemma_merged_labelled(families@, all@, 1_000, 3, 13, CandidateLabel::Fibonacci { index: 7 });
        lemma_label_of_15();
        lemma_merged_labelled(families@, all@, 1_000, 5, 15, CandidateLabel::Tetranacci { index: 8 });
        lemma_label_of_31();
        lemma_merged_labelled(families@, all@, 1_000, 2, 31, CandidateLabel::MersennePrimeExponent { exponent: 5 });
        lemma_label_of_321();
        lemma_merged_labelled(
            families@,
            all@,
            1_000,
            6,
            321,
            CandidateLabel::ConsecutiveDigits { direction: Direction::Desc, start: 3, len: 3 },
        );
        assert forall|k: int| 0 <= k < 4 implies #[trigger] has_expected(all@, k) by {
            assert(k == 0 || k == 1 || k == 2 || k == 3);
        }
    }
    check_generated(repdigits.as_slice(), all.as_slice())
}

/// The repdigits of odd digits up to a thousand are fifteen.
proof fn lemma_repdigit_list(families: Seq<CandidateFamily>, candidates: Seq<Candidate>)
    requires
        families.len() == 1,
        families[0] == CandidateFamily::Repdigit,
        exists|lists: Seq<Vec<Candidate>>| #[trigger]
            lists_families(families, 0, 1000, lists) && candidates_of(candidates, merged_all(lists)),
    ensures
        candidates.len() == 15,
{
    let lists = choose|lists: Seq<Vec<Candidate>>| #[trigger]
        lists_families(families, 0, 1000, lists) && candidates_of(candidates, merged_all(lists));
    let numbers = repdigits_to_1000();
    let m = merged_all(lists);
    law_family_members(CandidateFamily::Repdigit, lists[0]@, 0, 1000);
    assert forall|n: u64| #[trigger] has_number(candidates, n) <==> numbers.contains(n) by {
        law_merged(lists, n, CandidateLabel::Repdigit { digit: 1, len: 1 });
        lemma_repdigits_to_1000(n);
        assert(has_number(candidates, n) <==> m.contains_key(n)) by {
            if has_number(candidates, n) {
                let i = choose|i: int| 0 <= i < candidates.len() && (#[trigger] candidates[i]).n == n;
                assert(m.contains_key(candidates[i].n));
            }
        }
        assert(has_number(lists[0]@, n) <==> numbers.contains(n));
        if m.contains_key(n) {
            let j = choose|j: int| 0 <= j < lists.len() && has_number((#[trigger] lists[j])@, n);
            assert(j == 0);
        }
    }
    lemma_same_numbers(candidates, numbers);
}

/// An element of the sieve that a pass leaves.
proof fn lemma_moved(p: nat, f: int, r: int)
    requires
        p <= 12,
        f == after_passes(1024, p)[p as int + 1],
        1 <= r <= 40,
        r % f != 0,
    ensures
        after_passes(1024, p + 1)[r - r / f - 1] == after_passes(1024, p)[r - 1],
{
    lemma_left_of_1024(p);
    crate::lucky::lemma_after_passes(1024, p);
    crate::lists::lemma_strike_index(after_passes(1024, p), f, r);
}

/// The factors of the first six passes.
proof fn lemma_first_factors()
    ensures
        after_passes(1024, 0)[1] == 3,
        after_passes(1024, 1)[2] == 7,
        after_passes(1024, 2)[3] == 9,
        after_passes(1024, 3)[4] == 13,
        after_passes(1024, 4)[5] == 15,
        after_passes(1024, 5)[6] == 21,
{
    lemma_moved(0, 3, 4);
    lemma_moved(0, 3, 5);
    lemma_moved(0, 3, 7);
    lemma_moved(0, 3, 8);
    lemma_moved(0, 3, 11);
    lemma_moved(1, 7, 4);
    lemma_moved(1, 7, 5);
    lemma_moved(1, 7, 6);
    lemma_moved(1, 7, 8);
    lemma_moved(2, 9, 5);
    lemma_moved(2, 9, 6);
    lemma_moved(2, 9, 7);
    lemma_moved(3, 13, 6);
    lemma_moved(3, 13, 7);
    lemma_moved(4, 15, 7);
}

/// What the factors of the first six passes make of a number.
spec fn after_six(n: u64) -> CandidateState {
    let state = state_after(state_after(state_after(start_state(n), 3), 7), 9);
    state_after(state_after(state_after(state, 13), 15), 21)
}

/// What the first six factors decide is right.
proof fn lemma_after_six(n: u64)
    requires
        n % 2 == 1,
    ensures
        after_six(n) is Lucky ==> is_lucky(n as int),
        after_six(n) is Composite ==> !is_lucky(n as int),
{
    let s0 = start_state(n);
    let s1 = state_after(s0, 3);
    let s2 = state_after(s1, 7);
    let s3 = state_after(s2, 9);
    let s4 = state_after(s3, 13);
    let s5 = state_after(s4, 15);
    lemma_first_factors();
    lemma_left_of_1024(0);
    lemma_left_of_1024(1);
    lemma_left_of_1024(2);
    lemma_left_of_1024(3);
    lemma_left_of_1024(4);
    lemma_left_of_1024(5);
    crate::laws::law_start_is_tracked(n);
    crate::laws::law_factor_keeps_track(n as int, 1024, 1, s0);
    crate::laws::law_factor_keeps_track(n as int, 1024, 2, s1);
    crate::laws::law_factor_keeps_track(n as int, 1024, 3, s2);
    crate::laws::law_factor_keeps_track(n as int, 1024, 4, s3);
    crate::laws::law_factor_keeps_track(n as int, 1024, 5, s4);
    crate::laws::law_factor_keeps_track(n as int, 1024, 6, s5);
}

/// The check's examples of lucky numbers.
pub open spec fn known_lucky() -> Seq<u64> {
    seq![1, 3, 7, 9, 13, 15, 21, 25, 31, 33, 37, 43, 49, 51, 63, 67, 69, 73, 75, 79]
}

/// The check's examples of odd numbers that are not lucky.
pub open spec fn known_not_lucky() -> Seq<u64> {
    seq![5, 11, 17, 19, 23, 27, 29, 35, 39, 41, 45, 47, 53, 55, 57, 59]
}

/// The examples of lucky numbers are.
pub proof fn lemma_known_lucky(i: int)
    requires
        0 <= i < 20,
    ensures
        is_lucky(known_lucky()[i] as int),
{
    let n = known_lucky()[i];
    lemma_after_six(n);
    assert(after_six(n) is Lucky);
}

/// The examples of numbers that are not lucky are not.
pub proof fn lemma_known_not_lucky(i: int)
    requires
        0 <= i < 16,
    ensures
        !is_lucky(known_not_lucky()[i] as int),
{
    let n = known_not_lucky()[i];
    lemma_after_six(n);
    assert(after_six(n) is Composite);
}

/// Holds what was found of `n` against what is known: whether it is lucky.
pub fn check_verdict(n: u64, lucky: bool, found: Result<bool, SelfTestError>) -> (r: Result<(), SelfTestError>)
    ensures
        r == match found {
            Err(error) => Err::<(), SelfTestError>(error),
            Ok(verdict) => if verdict == lucky {
                Ok(())
            } else if lucky {
                Err(SelfTestError::ExpectedLucky { n })
            } else {
                Err(SelfTestError::ExpectedNotLucky { n })
            },
        },
{
    match found {
        Err(error) => Err(error),
        Ok(verdict) => if verdict == lucky {
            Ok(())
        } else if lucky {
            Err(SelfTestError::ExpectedLucky { n })
        } else {
            Err(SelfTestError::ExpectedNotLucky { n })
        },
    }
}

/// Checks the sieve, the scans and the candidates on small cases. Nothing but a lack of memory
/// for one of the two sizes of sieve makes this fail.
pub fn self_test() -> (r: Result<(), SelfTestError>)
    ensures
        r matches Err(error) ==> error matches SelfTestError::Sieve { cause } && (refused(
            cause,
            SMALL_SIEVE_ODDS as int,
        ) || refused(cause, 1_000_000)),
        r is Err ==> exists|size: u64, cause: SieveError|
            (size == 512 || size == 1_000_000) && #[trigger] attempted(size, Err(cause)) && r->Err_0 == (
            SelfTestError::Sieve { cause }),
        r is Ok ==> exists|sieve: LuckySieve| #[trigger] attempted(512, Ok(sieve)),
        r is Ok ==> exists|sieve: LuckySieve| #[trigger] attempted(1_000_000, Ok(sieve)),
{
    let lucky: [u64; 20] = [1, 3, 7, 9, 13, 15, 21, 25, 31, 33, 37, 43, 49, 51, 63, 67, 69, 73, 75, 79];
    let not_lucky: [u64; 16] = [5, 11, 17, 19, 23, 27, 29, 35, 39, 41, 45, 47, 53, 55, 57, 59];
    let mut i: usize = 0;
    while i < 20
        invariant
            i <= 20,
            lucky@ == known_lucky(),
        decreases 20 - i,
    {
        let n: u64 = lucky[i];
        proof {
            lemma_known_lucky(i as int);
        }
        check_verdict(n, true, prove_small(n))?;
        i = i + 1;
    }
    let mut j: usize = 0;
    while j < 16
        invariant
            j <= 16,
            not_lucky@ == known_not_lucky(),
            j > 0 ==> exists|sieve: LuckySieve| #[trigger] attempted(512, Ok(sieve)),
        decreases 16 - j,
    {
        let n: u64 = not_lucky[j];
        proof {
            lemma_known_not_lucky(j as int);
        }
        let found: Result<bool, SelfTestError> = prove_small(n);
        proof {
            if found is Ok {
                let attempt = choose|attempt: Result<LuckySieve, SieveError>| #[trigger]
                    attempted(512, attempt) && !(attempt is Err);
                assert(attempt == Ok::<LuckySieve, SieveError>(attempt->Ok_0));
            }
        }
        check_verdict(n, false, found)?;
        j = j + 1;
    }
    scan_delete_self_test()?;
    candidate_generation_self_test()
}

} // verus!
