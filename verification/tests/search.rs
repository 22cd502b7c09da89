use pozzo::candidates::{family_candidates, repdigits, Candidate, CandidateState};
use pozzo::config::CandidateFamily;
use pozzo::scan::SCAN_THRESHOLD;
use pozzo::search::{
    apply_factor_to_candidates, count_pending, finalize_candidates, search_with_sieve, tally, Announcement, Search,
};
use pozzo::selftest::{
    candidate_generation_self_test, candidate_has_label, check_generated, check_verdict, compare_after_factor,
    decide_small, prove_small, scan_delete_check, scan_delete_self_test, self_test, SelfTestError,
};
use pozzo::sieve::{LuckySieve, SieveError};

fn fresh(numbers: &[u64]) -> Vec<Candidate> {
    numbers.iter().map(|n| Candidate::new_unlabeled(*n)).collect()
}

fn sieved(limit: usize) -> Vec<u64> {
    let mut list: Vec<u64> = (0..limit as u64).map(|i| 2 * i + 1).collect();
    let mut k = 1;
    while k < list.len() {
        let step = list[k] as usize;
        list = list
            .iter()
            .enumerate()
            .filter(|(i, _)| (i + 1) % step != 0)
            .map(|(_, n)| *n)
            .collect();
        k += 1;
    }
    list
}

#[test]
fn a_factor_moves_a_place_down() {
    let mut candidates = fresh(&[79]);
    let (decided, said) = apply_factor_to_candidates(3, &mut candidates, true);
    assert_eq!(decided, 0);
    assert!(said.is_empty());
    assert!(matches!(candidates[0].state, CandidateState::Pending { rank: 27 }));
    apply_factor_to_candidates(7, &mut candidates, true);
    assert!(matches!(candidates[0].state, CandidateState::Pending { rank: 24 }));
}

#[test]
fn a_factor_decides_in_three_ways() {
    let mut candidates = fresh(&[3, 5, 7, 1, 79]);
    let (decided, said) = apply_factor_to_candidates(3, &mut candidates, true);
    assert_eq!(decided, 2);
    assert_eq!(
        said,
        vec![
            Announcement::LuckyBefore { index: 0, rank: 2, factor: 3 },
            Announcement::Rejected { index: 1, rank: 3, factor: 3 },
        ]
    );
    assert!(matches!(candidates[0].state, CandidateState::Lucky { rank: 2, proof_factor: 3 }));
    assert!(matches!(candidates[1].state, CandidateState::Composite { rank: 3, deletion_factor: 3 }));
    assert!(matches!(candidates[2].state, CandidateState::Pending { rank: 3 }));
    assert!(matches!(candidates[3].state, CandidateState::Lucky { rank: 1, proof_factor: 0 }));
    assert_eq!(count_pending(&candidates), 2);
}

#[test]
fn a_place_that_moves_stays_in_reach_of_the_factor() {
    let mut candidates = fresh(&[15]);
    apply_factor_to_candidates(7, &mut candidates, true);
    assert!(matches!(candidates[0].state, CandidateState::Pending { rank: 7 }));
    let (decided, said) = apply_factor_to_candidates(7, &mut candidates, true);
    assert_eq!(decided, 1);
    assert_eq!(said, vec![Announcement::Rejected { index: 0, rank: 7, factor: 7 }]);
}

#[test]
fn the_limit_decides_what_is_left() {
    let mut candidates = fresh(&[19, 21, 1, 5]);
    candidates[3].state = CandidateState::Composite { rank: 3, deletion_factor: 3 };
    let said = finalize_candidates(&mut candidates, 10, true);
    assert_eq!(
        said,
        vec![
            Announcement::LuckyExhausted { index: 0, rank: 10, limit: 10 },
            Announcement::Inconclusive { index: 1, rank: 11, limit: 10 },
        ]
    );
    assert!(matches!(candidates[0].state, CandidateState::Lucky { rank: 10, proof_factor: 10 }));
    assert!(matches!(candidates[1].state, CandidateState::Inconclusive));
    assert!(matches!(candidates[2].state, CandidateState::Lucky { rank: 1, proof_factor: 0 }));
    assert!(matches!(candidates[3].state, CandidateState::Composite { rank: 3, deletion_factor: 3 }));
    let tally = tally(&candidates, &said);
    assert_eq!((tally.pending, tally.lucky, tally.composite, tally.inconclusive), (0, 2, 1, 1));
    assert_eq!(tally.max_rank, 11);
}

#[test]
fn a_tally_of_nothing_is_zero() {
    let tally = tally(&[], &[]);
    assert_eq!((tally.pending, tally.lucky, tally.composite, tally.inconclusive), (0, 0, 0, 0));
    assert_eq!(tally.max_rank, 0);
}

#[test]
fn verdicts_are_those_of_the_sieve() {
    let lucky = sieved(500);
    let odd: Vec<u64> = (0..500).map(|i| 2 * i + 1).collect();
    let mut candidates = fresh(&odd);
    let mut sieve = LuckySieve::new(500).unwrap();
    search_with_sieve(&mut sieve, &mut candidates, 2, SCAN_THRESHOLD, false);
    for candidate in &candidates {
        let expected = lucky.contains(&candidate.n);
        assert_eq!(matches!(candidate.state, CandidateState::Lucky { .. }), expected, "{}", candidate.n);
        assert_eq!(matches!(candidate.state, CandidateState::Composite { .. }), !expected, "{}", candidate.n);
    }
}

#[test]
fn a_lucky_rank_counts_the_lucky_numbers() {
    let lucky = sieved(2_000);
    let odd: Vec<u64> = (0..2_000).map(|i| 2 * i + 1).collect();
    for n_odds in [30_u64, 100, 2_000] {
        let mut candidates = fresh(&odd);
        let mut sieve = LuckySieve::new(n_odds).unwrap();
        search_with_sieve(&mut sieve, &mut candidates, 1, SCAN_THRESHOLD, false);
        for candidate in &candidates {
            if let CandidateState::Lucky { rank, .. } = candidate.state {
                let count = lucky.iter().filter(|n| **n <= candidate.n).count();
                assert_eq!(rank, count as u128, "{}", candidate.n);
            }
        }
    }
}

#[test]
fn a_candidate_is_open_exactly_above_the_limit() {
    // Ten odd numbers have the factors 3, 7, 9, 13, 15 and the limit 19.
    let place = |n: u64| {
        let mut r = (n + 1) / 2;
        for f in [3, 7, 9, 13, 15] {
            if r < f {
                return Some(r);
            }
            if r % f == 0 {
                return None;
            }
            r -= r / f;
        }
        Some(r)
    };
    let odd: Vec<u64> = (0..500).map(|i| 2 * i + 1).collect();
    let mut candidates = fresh(&odd);
    let mut sieve = LuckySieve::new(10).unwrap();
    search_with_sieve(&mut sieve, &mut candidates, 1, SCAN_THRESHOLD, false);
    for candidate in &candidates {
        let open = matches!(candidate.state, CandidateState::Inconclusive);
        assert_eq!(open, place(candidate.n).map_or(false, |r| r > 19), "{}", candidate.n);
    }
}

#[test]
fn used_up_factors_leave_the_lucky_numbers() {
    let mut candidates = fresh(&[u64::MAX]);
    let mut sieve = LuckySieve::new(500).unwrap();
    let report = search_with_sieve(&mut sieve, &mut candidates, 2, SCAN_THRESHOLD, true);
    let left: Vec<u64> = (1..=sieve.alive).map(|rank| sieve.select(rank).unwrap() * 2 - 1).collect();
    assert_eq!(left, sieved(500));
    assert!(matches!(candidates[0].state, CandidateState::Inconclusive | CandidateState::Composite { .. }));
    assert_eq!(report.search.total_deleted, 500 - sieve.alive);
}

#[test]
fn a_small_sieve_decides_larger_numbers() {
    // The sieve ends at 99, and the numbers go on to 9999.
    let lucky = sieved(5_000);
    let odd: Vec<u64> = (0..5_000).map(|i| 2 * i + 1).collect();
    let mut candidates = fresh(&odd);
    let mut sieve = LuckySieve::new(50).unwrap();
    search_with_sieve(&mut sieve, &mut candidates, 1, SCAN_THRESHOLD, false);
    let mut open = 0;
    for candidate in &candidates {
        match candidate.state {
            CandidateState::Lucky { .. } => assert!(lucky.contains(&candidate.n)),
            CandidateState::Composite { .. } => assert!(!lucky.contains(&candidate.n)),
            CandidateState::Inconclusive => {
                assert!((candidate.n + 1) / 2 > 99);
                open += 1;
            }
            CandidateState::Pending { .. } => panic!("undecided"),
        }
    }
    assert!(open > 0);
}

#[test]
fn a_verdict_does_not_depend_on_the_company() {
    let together = [777, 99, 1001, 4095, 5];
    let mut candidates = fresh(&together);
    let mut sieve = LuckySieve::new(200).unwrap();
    search_with_sieve(&mut sieve, &mut candidates, 1, SCAN_THRESHOLD, false);
    for (i, n) in together.iter().enumerate() {
        let mut alone = fresh(&[*n]);
        let mut sieve = LuckySieve::new(200).unwrap();
        search_with_sieve(&mut sieve, &mut alone, 1, SCAN_THRESHOLD, false);
        assert_eq!(format!("{:?}", alone[0].state), format!("{:?}", candidates[i].state));
    }
}

#[test]
fn a_search_says_what_it_decides() {
    let mut candidates = repdigits(0, 10);
    let mut sieve = LuckySieve::new(100).unwrap();
    let report = search_with_sieve(&mut sieve, &mut candidates, 1, SCAN_THRESHOLD, true);
    assert_eq!(
        report.announcements,
        vec![
            Announcement::LuckyBefore { index: 1, rank: 2, factor: 3 },
            Announcement::Rejected { index: 2, rank: 3, factor: 3 },
            Announcement::LuckyBefore { index: 3, rank: 3, factor: 7 },
            Announcement::LuckyBefore { index: 4, rank: 4, factor: 7 },
        ]
    );
    assert_eq!(report.search.processed_factors, 2);
    assert_eq!(report.search.factor_rank, 3);
    assert_eq!(report.search.total_deleted, 33);
    assert_eq!(report.search.pending, 0);
    assert_eq!(sieve.alive, 67);
}

#[test]
fn a_sieve_of_one_number_has_no_factor() {
    let mut candidates = fresh(&[1, 3]);
    let mut sieve = LuckySieve::new(1).unwrap();
    let report = search_with_sieve(&mut sieve, &mut candidates, 1, SCAN_THRESHOLD, true);
    assert_eq!(report.announcements, vec![Announcement::Inconclusive { index: 1, rank: 2, limit: 1 }]);
    assert_eq!(report.search.processed_factors, 0);
    assert!(matches!(candidates[1].state, CandidateState::Inconclusive));
}

#[test]
fn a_search_in_steps_is_a_search() {
    let mut stepped = repdigits(0, 100_000);
    let mut sieve = LuckySieve::new(300).unwrap();
    let mut search = Search::begin(&stepped);
    let mut said = Vec::new();
    while let Some(factor) = search.next_factor(&sieve) {
        said.extend(search.apply(factor, &mut stepped, true));
        if search.pending == 0 {
            break;
        }
        let deleted = if factor <= sieve.alive { sieve.delete_every(factor) } else { 0 };
        search.advance(deleted);
    }
    said.extend(finalize_candidates(&mut stepped, sieve.value_limit(), true));

    let mut whole = repdigits(0, 100_000);
    let mut other = LuckySieve::new(300).unwrap();
    let report = search_with_sieve(&mut other, &mut whole, 3, SCAN_THRESHOLD, true);
    assert_eq!(report.announcements, said);
    assert_eq!(report.search.factor_rank, search.factor_rank);
    assert_eq!(report.search.total_deleted, search.total_deleted);
    assert_eq!(other.bits, sieve.bits);
    assert_eq!(format!("{:?}", whole), format!("{:?}", stepped));
}

#[test]
fn each_candidate_is_announced_once() {
    let mut candidates = repdigits(0, 1_000_000_000);
    let undecided = count_pending(&candidates);
    let mut sieve = LuckySieve::new(40).unwrap();
    let report = search_with_sieve(&mut sieve, &mut candidates, 1, SCAN_THRESHOLD, true);
    let mut announced: Vec<usize> = report
        .announcements
        .iter()
        .map(|announcement| match *announcement {
            Announcement::LuckyBefore { index, .. }
            | Announcement::LuckyAfter { index, .. }
            | Announcement::Rejected { index, .. }
            | Announcement::LuckyExhausted { index, .. }
            | Announcement::Inconclusive { index, .. } => index,
        })
        .collect();
    announced.sort();
    assert_eq!(announced.len(), undecided);
    assert_eq!(announced, (1..candidates.len()).collect::<Vec<usize>>());
    assert!(!report.announcements.iter().any(|said| matches!(said, Announcement::LuckyAfter { .. })));
    let tally = tally(&candidates, &report.announcements);
    assert_eq!(tally.pending + tally.lucky + tally.composite + tally.inconclusive, candidates.len());
    assert_eq!(report.search.total_deleted + sieve.alive, 40);
}

#[test]
fn no_candidates_need_no_factor() {
    let mut sieve = LuckySieve::new(10).unwrap();
    let report = search_with_sieve(&mut sieve, &mut [], 1, SCAN_THRESHOLD, true);
    assert!(report.announcements.is_empty());
    assert_eq!(report.search.factor_rank, 2);
    assert_eq!(sieve.alive, 10);
}

#[test]
fn small_numbers_are_decided() {
    let lucky = sieved(512);
    for n in 0..=1023 {
        assert_eq!(prove_small(n).unwrap(), lucky.contains(&n), "{n}");
    }
    assert!(matches!(prove_small(2_000_001), Ok(_) | Err(SelfTestError::TooSmall { n: 2_000_001 })));
    let undecided = (0..1000).map(|i| 1_000_000_000_001 + 2 * i).find(|n| prove_small(*n).is_err());
    let n = undecided.unwrap();
    assert!(matches!(prove_small(n), Err(SelfTestError::TooSmall { n: m }) if m == n));
}

#[test]
fn a_small_number_is_decided_by_the_sieve_that_was_made() {
    for n in [3, 7, 9, 13, 15, 21, 25, 31, 33, 37, 43, 49, 51, 63, 67, 69, 73, 75, 79] {
        assert!(matches!(decide_small(n, LuckySieve::new(512)), Ok(true)), "{n}");
    }
    for n in [5, 11, 17, 19, 23, 27, 29, 35, 39, 41, 45, 47, 53, 55, 57, 59] {
        assert!(matches!(decide_small(n, LuckySieve::new(512)), Ok(false)), "{n}");
    }
    assert!(matches!(
        decide_small(7, Err(SieveError::TooManyWords { needed: 8 })),
        Err(SelfTestError::Sieve { cause: SieveError::TooManyWords { needed: 8 } })
    ));
    let open = (0..1000).map(|i| 1_000_000_000_001 + 2 * i).find(|n| decide_small(*n, LuckySieve::new(512)).is_err());
    let n = open.unwrap();
    assert!(matches!(decide_small(n, LuckySieve::new(512)), Err(SelfTestError::TooSmall { n: m }) if m == n));
}

#[test]
fn no_factor_at_all_leaves_decided_candidates_alone() {
    let mut candidates = fresh(&[1]);
    assert_eq!(apply_factor_to_candidates(0, &mut candidates, true), (0, vec![]));
    assert!(matches!(candidates[0].state, CandidateState::Lucky { rank: 1, proof_factor: 0 }));
}

#[test]
fn labels_are_found_by_their_text() {
    let candidates = repdigits(0, 1_000);
    assert!(candidate_has_label(&candidates, 333, "repdigit(d=3,len=3)"));
    assert!(!candidate_has_label(&candidates, 333, "repdigit(d=3,len=2)"));
    assert!(!candidate_has_label(&candidates, 33, "repdigit(d=3,len=3)"));
    assert!(!candidate_has_label(&[], 33, ""));
}

#[test]
fn the_candidate_check_names_what_is_missing() {
    let fifteen = repdigits(0, 1_000);
    let all = family_candidates(0, 1_000, &CandidateFamily::all());
    assert!(check_generated(&fifteen, &all).is_ok());
    assert!(matches!(check_generated(&fifteen[1..], &all), Err(SelfTestError::RepdigitCount { count: 14 })));
    let missing = |repdigits: &[Candidate], all: &[Candidate]| match check_generated(repdigits, all) {
        Err(SelfTestError::MissingLabel { n, label }) => (n, label),
        other => panic!("{other:?}"),
    };
    assert_eq!(missing(&all[..15], &all), (333, "repdigit(d=3,len=3)".to_string()));
    assert_eq!(missing(&fifteen, &[]), (13, "fibonacci(k=7)".to_string()));
    let without = |n: u64| all.iter().filter(|c| c.n != n).cloned().collect::<Vec<Candidate>>();
    assert_eq!(missing(&fifteen, &without(15)), (15, "tetranacci(k=8)".to_string()));
    assert_eq!(missing(&fifteen, &without(31)), (31, "mersenne-prime-exp(p=5)".to_string()));
    assert_eq!(
        missing(&fifteen, &without(321)),
        (321, "consecutive-digits(desc,start=3,len=3)".to_string())
    );
}

#[test]
fn the_verdict_check_tells_the_two_mistakes_apart() {
    assert!(check_verdict(7, true, Ok(true)).is_ok());
    assert!(check_verdict(5, false, Ok(false)).is_ok());
    assert!(matches!(check_verdict(7, true, Ok(false)), Err(SelfTestError::ExpectedLucky { n: 7 })));
    assert!(matches!(check_verdict(5, false, Ok(true)), Err(SelfTestError::ExpectedNotLucky { n: 5 })));
    assert!(matches!(
        check_verdict(7, true, Err(SelfTestError::TooSmall { n: 7 })),
        Err(SelfTestError::TooSmall { n: 7 })
    ));
}

#[test]
fn sieves_with_other_bits_are_told_apart() {
    let reference = LuckySieve::new(200).unwrap();
    let mut scanned = LuckySieve::new(200).unwrap();
    assert!(compare_after_factor(&scanned, &reference, 3, 2).is_ok());
    scanned.clear(150);
    assert!(matches!(
        compare_after_factor(&scanned, &reference, 3, 2),
        Err(SelfTestError::State { factor: 3 })
    ));
    let mut other = LuckySieve::new(200).unwrap();
    other.clear(151);
    assert!(matches!(compare_after_factor(&scanned, &other, 7, 3), Err(SelfTestError::State { factor: 7 })));
}

#[test]
fn the_scan_check_reports_a_lack_of_memory() {
    let refusal = || Err(SieveError::TooManyWords { needed: 9 });
    let reported = |r| matches!(r, Err(SelfTestError::Sieve { cause: SieveError::TooManyWords { needed: 9 } }));
    assert!(reported(scan_delete_check(refusal(), LuckySieve::new(1_000_000))));
    assert!(reported(scan_delete_check(LuckySieve::new(1_000_000), refusal())));
}

#[test]
fn the_candidate_check_passes() {
    assert!(candidate_generation_self_test().is_ok());
}

#[test]
fn the_scan_check_passes() {
    assert!(scan_delete_self_test().is_ok());
}

#[test]
fn the_whole_check_passes() {
    assert!(self_test().is_ok());
}
