use pozzo::candidates::{
    consecutive_digits, family_candidates, family_members, fibonacci, generate_candidates, lucas,
    mersenne_prime_exponents, mersennes, repdigits, tetranacci, Candidate, CandidateLabel, CandidateState, Direction,
};
use pozzo::config::CandidateFamily;
use pozzo::families::{is_prime_u32, next_digit_mod_10};

fn numbers(candidates: &[Candidate]) -> Vec<u64> {
    candidates.iter().map(|candidate| candidate.n).collect()
}

fn texts(candidates: &[Candidate]) -> Vec<String> {
    candidates.iter().map(|candidate| candidate.labels_text()).collect()
}

#[test]
fn labels_in_words() {
    let cases = [
        (CandidateLabel::Repdigit { digit: 7, len: 20 }, "repdigit", "repdigit(d=7,len=20)"),
        (CandidateLabel::Mersenne { exponent: 42 }, "mersenne", "mersenne(k=42)"),
        (CandidateLabel::MersennePrimeExponent { exponent: 61 }, "mersenne-prime-exp", "mersenne-prime-exp(p=61)"),
        (CandidateLabel::Fibonacci { index: 0 }, "fibonacci", "fibonacci(k=0)"),
        (CandidateLabel::Lucas { index: 91 }, "lucas", "lucas(k=91)"),
        (CandidateLabel::Tetranacci { index: 4294967295 }, "tetranacci", "tetranacci(k=4294967295)"),
        (
            CandidateLabel::ConsecutiveDigits { direction: Direction::Asc, start: 9, len: 10 },
            "consecutive-digits",
            "consecutive-digits(asc,start=9,len=10)",
        ),
        (
            CandidateLabel::ConsecutiveDigits { direction: Direction::Desc, start: 3, len: 3 },
            "consecutive-digits",
            "consecutive-digits(desc,start=3,len=3)",
        ),
    ];
    for (label, shape, text) in cases {
        assert_eq!(label.shape(), shape);
        assert_eq!(label.text(), text);
    }
    assert_eq!(Direction::Asc.text(), "asc");
    assert_eq!(Direction::Desc.text(), "desc");
}

#[test]
fn a_fresh_candidate_waits_at_its_place() {
    let candidate = Candidate::new_unlabeled(333);
    assert_eq!(candidate.n, 333);
    assert!(candidate.labels().is_empty());
    assert_eq!(candidate.labels_text(), "unlabeled");
    assert!(candidate.is_pending());
    assert!(matches!(candidate.state, CandidateState::Pending { rank: 167 }));
    assert_eq!(candidate.current_rank(), Some(167));
    assert_eq!(Candidate::new_unlabeled(u64::MAX).current_rank(), Some(1 << 63));
    assert_eq!(Candidate::new_unlabeled(0).current_rank(), Some(0));
}

#[test]
fn one_is_lucky_from_the_start() {
    let candidate = Candidate::new_unlabeled(1);
    assert!(!candidate.is_pending());
    assert!(matches!(candidate.state, CandidateState::Lucky { rank: 1, proof_factor: 0 }));
    assert_eq!(candidate.current_rank(), Some(1));
}

#[test]
fn an_open_candidate_has_no_place() {
    let mut candidate = Candidate::new_unlabeled(5);
    candidate.state = CandidateState::Composite { rank: 3, deletion_factor: 3 };
    assert_eq!(candidate.current_rank(), Some(3));
    candidate.state = CandidateState::Inconclusive;
    assert_eq!(candidate.current_rank(), None);
    assert!(!candidate.is_pending());
}

#[test]
fn repdigits_of_odd_digits() {
    let all = repdigits(0, 1_000);
    assert_eq!(numbers(&all), vec![1, 3, 5, 7, 9, 11, 33, 55, 77, 99, 111, 333, 555, 777, 999]);
    assert_eq!(all[11].labels(), &[CandidateLabel::Repdigit { digit: 3, len: 3 }]);
    assert_eq!(numbers(&repdigits(12, 55)), vec![33, 55]);
    let every = repdigits(0, u64::MAX);
    assert_eq!(every.len(), 96);
    assert_eq!(every[95].n, 11_111_111_111_111_111_111);
    assert!(repdigits(1, 0).is_empty());
}

#[test]
fn numbers_below_powers_of_two() {
    assert_eq!(numbers(&mersennes(0, 1_000)), vec![1, 3, 7, 15, 31, 63, 127, 255, 511]);
    let every = mersennes(0, u64::MAX);
    assert_eq!(every.len(), 64);
    assert_eq!(every[63].n, u64::MAX);
    assert_eq!(every[63].labels_text(), "mersenne(k=64)");
    let primes = mersenne_prime_exponents(0, u64::MAX);
    assert_eq!(primes.len(), 18);
    assert_eq!(numbers(&primes)[..5], [3, 7, 31, 127, 2047]);
    assert_eq!(primes[17].labels_text(), "mersenne-prime-exp(p=61)");
}

#[test]
fn recurrences_keep_their_odd_terms() {
    assert_eq!(numbers(&fibonacci(0, 100)), vec![1, 3, 5, 13, 21, 55, 89]);
    assert_eq!(texts(&fibonacci(0, 3)), vec!["fibonacci(k=1);fibonacci(k=2)", "fibonacci(k=4)"]);
    assert_eq!(numbers(&lucas(0, 100)), vec![1, 3, 7, 11, 29, 47]);
    assert_eq!(lucas(0, 1)[0].labels_text(), "lucas(k=1)");
    assert_eq!(numbers(&tetranacci(0, 1_000)), vec![1, 15, 29, 401, 773]);
    assert_eq!(tetranacci(0, 1)[0].labels_text(), "tetranacci(k=3);tetranacci(k=4)");
}

#[test]
fn recurrences_go_on_to_the_end_of_u64() {
    // The last term that fits, with index 93, is even.
    assert!(fibonacci(10_000_000_000_000_000_000, u64::MAX).is_empty());
    let odd = fibonacci(7_000_000_000_000_000_000, u64::MAX);
    assert_eq!(texts(&odd), vec!["fibonacci(k=92)"]);
    assert_eq!(odd[0].n, 7_540_113_804_746_346_429);
}

#[test]
fn runs_of_consecutive_digits() {
    let all = consecutive_digits(0, 100);
    assert_eq!(numbers(&all), vec![21, 23, 43, 45, 65, 67, 87, 89]);
    assert_eq!(all[0].labels_text(), "consecutive-digits(desc,start=2,len=2)");
    let round = consecutive_digits(8_900, 8_901);
    assert_eq!(texts(&round), vec!["consecutive-digits(asc,start=8,len=4)"]);
    let down = consecutive_digits(2_109, 2_109);
    assert_eq!(texts(&down), vec!["consecutive-digits(desc,start=2,len=4)"]);
}

#[test]
fn digits_go_round() {
    assert_eq!(next_digit_mod_10(9, 1), 0);
    assert_eq!(next_digit_mod_10(0, -1), 9);
    assert_eq!(next_digit_mod_10(4, 1), 5);
    assert_eq!(next_digit_mod_10(4, -128), 6);
}

#[test]
fn primes() {
    let small: Vec<u32> = (0..60).filter(|n| is_prime_u32(*n)).collect();
    assert_eq!(small, vec![2, 3, 5, 7, 11, 13, 17, 19, 23, 29, 31, 37, 41, 43, 47, 53, 59]);
    assert!(!is_prime_u32(961));
    assert!(is_prime_u32(4_294_967_291));
    assert!(!is_prime_u32(u32::MAX));
}

#[test]
fn merging_keeps_every_label_once() {
    let generators: [fn(u64, u64) -> Vec<Candidate>; 3] = [mersennes, repdigits, mersennes];
    let merged = generate_candidates(0, 10, &generators);
    assert_eq!(numbers(&merged), vec![1, 3, 5, 7, 9]);
    assert_eq!(
        texts(&merged),
        vec![
            "mersenne(k=1);repdigit(d=1,len=1)",
            "mersenne(k=2);repdigit(d=3,len=1)",
            "repdigit(d=5,len=1)",
            "mersenne(k=3);repdigit(d=7,len=1)",
            "repdigit(d=9,len=1)",
        ]
    );
    let none: [fn(u64, u64) -> Vec<Candidate>; 0] = [];
    assert!(generate_candidates(0, 10, &none).is_empty());
}

#[test]
fn a_repeated_generator_changes_nothing() {
    let once: [fn(u64, u64) -> Vec<Candidate>; 3] = [fibonacci, lucas, repdigits];
    let again: [fn(u64, u64) -> Vec<Candidate>; 5] = [fibonacci, lucas, fibonacci, repdigits, lucas];
    let merged = generate_candidates(0, 1_000, &once);
    let repeated = generate_candidates(0, 1_000, &again);
    assert_eq!(format!("{merged:?}"), format!("{repeated:?}"));
    assert_eq!(merged[1].labels_text(), "fibonacci(k=4);lucas(k=2);repdigit(d=3,len=1)");
    let other: [fn(u64, u64) -> Vec<Candidate>; 2] = [lucas, fibonacci];
    assert_eq!(generate_candidates(3, 3, &other)[0].labels_text(), "lucas(k=2);fibonacci(k=4)");
}

#[test]
fn bounds_only_filter() {
    for family in CandidateFamily::all() {
        let whole = family_members(family, 0, u64::MAX);
        for (min, max) in [(0, 0), (3, 3), (10, 1_000), (7, u64::MAX), (5, 4)] {
            let kept: Vec<Candidate> = whole.iter().filter(|c| min <= c.n && c.n <= max).cloned().collect();
            assert_eq!(format!("{:?}", family_members(family, min, max)), format!("{kept:?}"));
        }
    }
    let families = CandidateFamily::all();
    let whole = family_candidates(0, u64::MAX, &families);
    let kept: Vec<Candidate> = whole.iter().filter(|c| 20 <= c.n && c.n <= 4_000).cloned().collect();
    assert_eq!(format!("{:?}", family_candidates(20, 4_000, &families)), format!("{kept:?}"));
}

#[test]
fn families_by_name_are_the_generators() {
    let generators: [fn(u64, u64) -> Vec<Candidate>; 7] = [
        repdigits,
        mersennes,
        mersenne_prime_exponents,
        fibonacci,
        lucas,
        tetranacci,
        consecutive_digits,
    ];
    let families = CandidateFamily::all();
    for (family, generate) in families.iter().zip(generators) {
        assert_eq!(texts(&family_members(*family, 3, 99_999)), texts(&generate(3, 99_999)));
    }
    let merged = family_candidates(0, 100_000, &families);
    let generated = generate_candidates(0, 100_000, &generators);
    assert_eq!(numbers(&merged), numbers(&generated));
    assert_eq!(texts(&merged), texts(&generated));
    assert_eq!(
        merged[1].labels_text(),
        "repdigit(d=3,len=1);mersenne(k=2);mersenne-prime-exp(p=2);fibonacci(k=4);lucas(k=2)"
    );
}
