use pozzo::args::{parse_args, parse_u64, Config, ParsedArgs};
use pozzo::config::{
    available_family_names, dedup_families, family_names, parse_family_list, ArgsError, CandidateFamily, DEFAULT_MIN,
    DEFAULT_PROGRESS_SECS, DEFAULT_RESERVE_MIB,
};
use pozzo::sieve::{LuckySieve, SieveError};
use pozzo::sizing::{
    after_try, allocate_sieve_with_backoff, choose_sieve_size, mem_available_bytes, mem_available_kib, reduced_size,
    NextTry, SizeError,
};
use pozzo::text::{
    chars_of, human_duration, is_space_char, parse_number, push_decimal, push_two_digits, same_text, skip_space,
    trim_bounds, NumberError,
};

fn words(args: &[&str]) -> Vec<String> {
    args.iter().map(|arg| arg.to_string()).collect()
}

fn config(args: &[&str]) -> Config {
    match parse_args(&words(args), 6) {
        Ok(ParsedArgs::Run { config }) => config,
        other => panic!("{other:?}"),
    }
}

fn message(args: &[&str]) -> String {
    match parse_args(&words(args), 6) {
        Err(error) => error.message(),
        other => panic!("{other:?}"),
    }
}

#[test]
fn no_arguments_give_the_defaults() {
    let config = config(&[]);
    assert_eq!(config.min, DEFAULT_MIN);
    assert_eq!(config.max, u64::MAX);
    assert_eq!(config.families, vec![CandidateFamily::Repdigit]);
    assert_eq!(config.sieve_limit, None);
    assert_eq!(config.memory_mib, None);
    assert_eq!(config.reserve_mib, DEFAULT_RESERVE_MIB);
    assert_eq!(config.progress_secs, DEFAULT_PROGRESS_SECS);
    assert_eq!(config.threads, 6);
    assert_eq!(config.scan_threshold, 511);
    assert!(!config.self_test);
    assert_eq!((DEFAULT_MIN, DEFAULT_RESERVE_MIB, DEFAULT_PROGRESS_SECS), (0, 1024, 5));
}

#[test]
fn arguments_set_numbers() {
    let config = config(&[
        "--min", "1_000", "--max", "+2000", "--limit", "99", "--memory-mib", "114688", "--reserve-mib", "7", "--threads",
        "3", "--scan-threshold", "2048", "--progress-seconds", "60", "--self-test",
    ]);
    assert_eq!((config.min, config.max), (1000, 2000));
    assert_eq!(config.sieve_limit, Some(99));
    assert_eq!(config.memory_mib, Some(114_688));
    assert_eq!(config.reserve_mib, 7);
    assert_eq!(config.threads, 3);
    assert_eq!(config.scan_threshold, 2048);
    assert_eq!(config.progress_secs, 60);
    assert!(config.self_test);
}

#[test]
fn the_last_number_counts() {
    assert_eq!(config(&["--min", "1", "--min", "2"]).min, 2);
}

#[test]
fn families_add_up_and_replace_the_default() {
    let config = config(&["--family", "fib, lucas", "--kind", "fibonacci,,mersenne", "--families", ""]);
    assert_eq!(
        config.families,
        vec![CandidateFamily::Fibonacci, CandidateFamily::Lucas, CandidateFamily::Mersenne]
    );
}

#[test]
fn every_family_at_once() {
    assert_eq!(config(&["--family", "all"]).families, CandidateFamily::all());
    assert_eq!(config(&["--family", "lucas,all"]).families[..3], [
        CandidateFamily::Lucas,
        CandidateFamily::Repdigit,
        CandidateFamily::Mersenne,
    ]);
}

#[test]
fn help_comes_before_what_follows_it() {
    assert!(matches!(parse_args(&words(&["--help", "--nonsense"]), 1), Ok(ParsedArgs::Help)));
    assert!(matches!(parse_args(&words(&["--min", "5", "-h"]), 1), Ok(ParsedArgs::Help)));
    assert!(matches!(parse_args(&words(&["--nonsense", "--help"]), 1), Err(ArgsError::UnknownArgument { .. })));
}

#[test]
fn errors_in_words() {
    assert_eq!(message(&["--min"]), "--min needs a value");
    assert_eq!(message(&["--kind"]), "--kind needs a value");
    assert_eq!(message(&["--max", ""]), "cannot parse integer from empty string");
    assert_eq!(message(&["--max", "1x"]), "invalid digit found in string");
    assert_eq!(message(&["--max", "18446744073709551616"]), "number too large to fit in target type");
    assert_eq!(message(&["--threads", "0"]), "--threads must be at least 1");
    assert_eq!(message(&["--wrong"]), "unknown argument --wrong; run with --help");
    assert_eq!(message(&["--min", "3", "--max", "2"]), "--min 3 is greater than --max 2");
    assert_eq!(message(&["--family", ","]), "at least one --family value is required");
    assert_eq!(
        message(&["--family", "lucas, primes"]),
        "unknown family primes; expected one of repdigit, mersenne, mersenne-prime-exp, fibonacci, lucas, tetranacci, \
         consecutive-digits or all"
    );
    assert_eq!(
        ArgsError::TooManyThreads { threads: u64::MAX }.message(),
        "--threads value 18446744073709551615 does not fit usize"
    );
}

#[test]
fn errors_by_variant() {
    assert!(matches!(parse_args(&words(&["--limit"]), 1), Err(ArgsError::MissingValue { flag }) if flag == "--limit"));
    assert!(matches!(
        parse_args(&words(&["--limit", "-1"]), 1),
        Err(ArgsError::Number { cause: NumberError::InvalidDigit })
    ));
    assert!(matches!(parse_args(&words(&["--threads", "0"]), 1), Err(ArgsError::ZeroThreads)));
    assert!(matches!(
        parse_args(&words(&["--min", "9", "--max", "8"]), 1),
        Err(ArgsError::MinAboveMax { min: 9, max: 8 })
    ));
    assert!(matches!(parse_args(&words(&["--kind", " "]), 1), Err(ArgsError::NoFamily)));
    assert!(matches!(parse_family_list("x"), Err(ArgsError::UnknownFamily { name }) if name == "x"));
}

#[test]
fn numbers_with_underscores() {
    assert_eq!(parse_u64("1_000_000"), Ok(1_000_000));
    assert_eq!(parse_u64("18_446_744_073_709_551_615"), Ok(u64::MAX));
    assert_eq!(parse_u64("_"), Err(NumberError::Empty));
    assert_eq!(parse_u64("+"), Err(NumberError::InvalidDigit));
    assert_eq!(parse_u64("+_7"), Ok(7));
    assert_eq!(parse_u64(" 7"), Err(NumberError::InvalidDigit));
    assert_eq!(parse_u64("99999999999999999999"), Err(NumberError::TooLarge));
    assert_eq!(parse_u64("99999999999999999999x"), Err(NumberError::TooLarge));
}

#[test]
fn numbers_as_the_standard_library_reads_them() {
    for text in ["", "+", "-", "0", "+0", "-0", "007", "255", "256", "1e3", "12é", "++1", "18446744073709551615"] {
        let chars = chars_of(text);
        let ours = parse_number(&chars, 0, chars.len(), u64::MAX as u128).map_err(|e| e.message().to_string());
        let theirs = text.parse::<u64>().map(|v| v as u128).map_err(|e| e.to_string());
        assert_eq!(ours, theirs, "{text}");
    }
}

#[test]
fn names_of_families() {
    assert_eq!(
        available_family_names(),
        "repdigit, mersenne, mersenne-prime-exp, fibonacci, lucas, tetranacci, consecutive-digits"
    );
    assert_eq!(family_names(&[CandidateFamily::Lucas, CandidateFamily::Repdigit]), "lucas,repdigit");
    assert_eq!(family_names(&[]), "");
    for family in CandidateFamily::all() {
        assert_eq!(CandidateFamily::parse(family.name()), Some(family));
    }
    for (name, family) in [
        ("repdigits", CandidateFamily::Repdigit),
        ("mersennes", CandidateFamily::Mersenne),
        ("mersenne-prime-exponent", CandidateFamily::MersennePrimeExponent),
        ("prime-mersenne", CandidateFamily::MersennePrimeExponent),
        ("fib", CandidateFamily::Fibonacci),
        ("digit-run", CandidateFamily::ConsecutiveDigits),
        ("digit-runs", CandidateFamily::ConsecutiveDigits),
    ] {
        assert_eq!(CandidateFamily::parse(name), Some(family));
    }
    assert_eq!(CandidateFamily::parse("all"), None);
    assert_eq!(CandidateFamily::parse("Lucas"), None);
}

#[test]
fn equal_families_count_once() {
    let mut families = vec![
        CandidateFamily::Lucas,
        CandidateFamily::Fibonacci,
        CandidateFamily::Lucas,
        CandidateFamily::Fibonacci,
    ];
    dedup_families(&mut families);
    assert_eq!(families, vec![CandidateFamily::Lucas, CandidateFamily::Fibonacci]);
}

#[test]
fn lists_of_families() {
    assert_eq!(parse_family_list("").unwrap(), vec![]);
    assert_eq!(
        parse_family_list(" lucas ,\tdigit-run,\u{3000}fib").unwrap(),
        vec![CandidateFamily::Lucas, CandidateFamily::ConsecutiveDigits, CandidateFamily::Fibonacci]
    );
    assert_eq!(parse_family_list("all,all").unwrap().len(), 14);
}

#[test]
fn sizes_from_memory() {
    let mut config = Config::with_threads(1);
    assert_eq!(choose_sieve_size(&config, None), Err(SizeError::UnknownMemory));
    assert_eq!(choose_sieve_size(&config, Some(1 << 30)), Err(SizeError::EmptySieve));
    assert_eq!(choose_sieve_size(&config, Some(100)), Err(SizeError::EmptySieve));
    assert_eq!(choose_sieve_size(&config, Some((1 << 30) + 23)), Err(SizeError::EmptySieve));
    assert_eq!(choose_sieve_size(&config, Some((1 << 30) + 24)), Ok(64));
    assert_eq!(choose_sieve_size(&config, Some((1 << 30) + 40)), Ok(128));
    assert_eq!(choose_sieve_size(&config, Some(u128::MAX)), Ok(1 << 63));
    config.memory_mib = Some(1);
    assert_eq!(choose_sieve_size(&config, None), Ok(65_535 * 64));
    config.sieve_limit = Some(1_000);
    assert_eq!(choose_sieve_size(&config, None), Ok(500));
    config.sieve_limit = Some(u64::MAX);
    assert_eq!(choose_sieve_size(&config, None), Ok(65_535 * 64));
    config.memory_mib = Some(u64::MAX);
    assert_eq!(choose_sieve_size(&config, None), Ok(1 << 63));
    config.memory_mib = Some(0);
    assert_eq!(choose_sieve_size(&config, None), Err(SizeError::EmptySieve));
    assert_eq!(
        SizeError::UnknownMemory.message(),
        "could not read MemAvailable; pass --memory-mib or --limit"
    );
    assert_eq!(SizeError::EmptySieve.message(), "sieve memory budget is too small to hold any words");
}

#[test]
fn sizes_after_a_failure() {
    assert_eq!(reduced_size(1000), Some(900));
    assert_eq!(reduced_size(19), Some(9));
    assert_eq!(reduced_size(9), None);
    assert_eq!(reduced_size(0), None);
}

#[test]
fn failures_are_followed_by_smaller_tries() {
    assert!(matches!(after_try(1000, Err(SieveError::EmptySieve)), NextTry::Retry {
        n_odds: 900,
        error: SieveError::EmptySieve,
    }));
    assert!(matches!(
        after_try(9, Err(SieveError::TooManyWords { needed: 1 })),
        NextTry::Stop { outcome: Err(SieveError::TooManyWords { needed: 1 }) }
    ));
    assert!(matches!(after_try(1000, LuckySieve::new(7)), NextTry::Stop { outcome: Ok(sieve) } if sieve.n_odds == 7));
}

#[test]
fn a_chosen_size_fits_its_budget() {
    let mut config = Config::with_threads(1);
    for mib in [1_u64, 2, 3, 17] {
        for limit in [None, Some(1), Some(2), Some(999_999), Some(u64::MAX)] {
            config.memory_mib = Some(mib);
            config.sieve_limit = limit;
            let n_odds = choose_sieve_size(&config, None).unwrap();
            let sieve = LuckySieve::new(n_odds).unwrap();
            assert!(sieve.memory_bytes() <= mib as u128 * 1024 * 1024);
            if let Some(limit) = limit {
                assert!(sieve.value_limit() <= limit);
            }
        }
    }
}

#[test]
fn allocation_backs_off() {
    let (failed, sieve) = allocate_sieve_with_backoff(100);
    assert!(failed.is_empty());
    assert_eq!(sieve.unwrap().n_odds, 100);
    let (failed, sieve) = allocate_sieve_with_backoff(0);
    assert!(failed.is_empty());
    assert!(matches!(sieve, Err(SieveError::EmptySieve)));
    // More than any machine can address: the first try fails, and the next is for nine tenths.
    let huge = 1_u64 << 63;
    assert!(matches!(
        after_try(huge, LuckySieve::new(huge)),
        NextTry::Retry { n_odds: 8_301_034_833_169_298_220, error: SieveError::Bitset { words: 0x200_0000_0000_0000, .. } }
    ));
}

#[test]
fn memory_listings() {
    let listing = "MemTotal:       131072 kB\nMemFree:  7 kB\nMemAvailable:   65536 kB\nMemAvailable: 1 kB\n";
    assert_eq!(mem_available_kib(listing), Some(65_536));
    assert_eq!(mem_available_bytes(listing), Some(67_108_864));
    assert_eq!(mem_available_kib(""), None);
    assert_eq!(mem_available_kib("MemFree: 7 kB"), None);
    assert_eq!(mem_available_kib("MemAvailable:"), None);
    assert_eq!(mem_available_kib("MemAvailable: \nMemAvailable: 5"), None);
    assert_eq!(mem_available_kib("MemAvailable: many kB\nMemAvailable: 5"), None);
    assert_eq!(mem_available_kib("MemAvailable:\t12\r\n"), Some(12));
    assert_eq!(mem_available_kib(" MemAvailable: 5"), None);
    assert_eq!(mem_available_bytes("MemAvailable:3"), Some(3072));
}

#[test]
fn durations() {
    assert_eq!(human_duration(0), "0s");
    assert_eq!(human_duration(59), "59s");
    assert_eq!(human_duration(60), "1m00s");
    assert_eq!(human_duration(3599), "59m59s");
    assert_eq!(human_duration(3600), "1h00m00s");
    assert_eq!(human_duration(43_445), "12h04m05s");
    assert_eq!(human_duration(u64::MAX), "5124095576030431h00m15s");
}

#[test]
fn decimal_texts() {
    let mut out = String::from("n=");
    push_decimal(&mut out, 0);
    push_decimal(&mut out, 9876543210);
    assert_eq!(out, "n=09876543210");
    let mut largest = String::new();
    push_decimal(&mut largest, u128::MAX);
    assert_eq!(largest, u128::MAX.to_string());
    let mut padded = String::new();
    push_two_digits(&mut padded, 5);
    push_two_digits(&mut padded, 50);
    assert_eq!(padded, "0550");
}

#[test]
fn white_space() {
    for code in 0..=0x10FFFF_u32 {
        if let Some(c) = char::from_u32(code) {
            assert_eq!(is_space_char(c), c.is_whitespace(), "{code:x}");
        }
    }
    let chars = chars_of(" \ta b\u{a0} ");
    assert_eq!(trim_bounds(&chars, 0, chars.len()), (2, 5));
    assert_eq!(skip_space(&chars, 0, 1), 1);
    assert_eq!(skip_space(&chars, 2, 5), 2);
    assert_eq!(trim_bounds(&chars, 0, 2), (2, 2));
    assert!(same_text("é", "é"));
    assert!(!same_text("a", "aa"));
}
