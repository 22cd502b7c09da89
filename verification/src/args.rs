//! Reading the arguments of a run.
use crate::config::{
    dedup_families, deduped, families_in, parse_family_list, ArgsError, ArgsErrorView, CandidateFamily, DEFAULT_MIN,
    DEFAULT_PROGRESS_SECS, DEFAULT_RESERVE_MIB,
};
use crate::scan::SCAN_THRESHOLD;
use crate::text::{chars_of, parse_number, read_number, same_text, split_on, NumberError};
use vstd::prelude::*;
use vstd::string::*;

verus! {

/// What a run is asked to do.
#[derive(Debug)]
pub struct Config {
    /// The smallest candidate.
    pub min: u64,
    /// The largest candidate.
    pub max: u64,
    pub families: Vec<CandidateFamily>,
    /// The largest factor to sieve for.
    pub sieve_limit: Option<u64>,
    /// The memory for the sieve.
    pub memory_mib: Option<u64>,
    /// The memory to leave free where no memory for the sieve is given.
    pub reserve_mib: u64,
    /// The seconds between progress lines.
    pub progress_secs: u64,
    /// The workers of a scan.
    pub threads: usize,
    /// The highest factor that is deleted by a scan.
    pub scan_threshold: u64,
    /// Whether to check the program instead of searching.
    pub self_test: bool,
}

/// What a [`Config`] holds, with the families as a sequence.
pub ghost struct ConfigView {
    pub min: u64,
    pub max: u64,
    pub families: Seq<CandidateFamily>,
    pub sieve_limit: Option<u64>,
    pub memory_mib: Option<u64>,
    pub reserve_mib: u64,
    pub progress_secs: u64,
    pub threads: usize,
    pub scan_threshold: u64,
    pub self_test: bool,
}

impl View for Config {
    type V = ConfigView;

    open spec fn view(&self) -> ConfigView {
        ConfigView {
            min: self.min,
            max: self.max,
            families: self.families@,
            sieve_limit: self.sieve_limit,
            memory_mib: self.memory_mib,
            reserve_mib: self.reserve_mib,
            progress_secs: self.progress_secs,
            threads: self.threads,
            scan_threshold: self.scan_threshold,
            self_test: self.self_test,
        }
    }
}

/// The configuration that the arguments start from, on a machine with `threads` workers.
pub open spec fn default_config(threads: usize) -> ConfigView {
    ConfigView {
        min: DEFAULT_MIN,
        max: u64::MAX,
        families: seq![CandidateFamily::Repdigit],
        sieve_limit: None,
        memory_mib: None,
        reserve_mib: DEFAULT_RESERVE_MIB,
        progress_secs: DEFAULT_PROGRESS_SECS,
        threads,
        scan_threshold: SCAN_THRESHOLD,
        self_test: false,
    }
}

impl Config {
    /// The configuration that the arguments start from, on a machine with `threads` workers.
    pub fn with_threads(threads: usize) -> (r: Self)
        ensures
            r@ == default_config(threads),
    {
        let families: Vec<CandidateFamily> = vec![CandidateFamily::Repdigit];
        assert(families@ =~= seq![CandidateFamily::Repdigit]);
        Config {
            min: DEFAULT_MIN,
            max: u64::MAX,
            families,
            sieve_limit: None,
            memory_mib: None,
            reserve_mib: DEFAULT_RESERVE_MIB,
            progress_secs: DEFAULT_PROGRESS_SECS,
            threads,
            scan_threshold: SCAN_THRESHOLD,
            self_test: false,
        }
    }
}

/// What the arguments ask for.
#[derive(Debug)]
pub enum ParsedArgs {
    /// To print the help and stop.
    Help,
    /// To run.
    Run { config: Config },
}

/// What becomes of a list of arguments.
pub ghost enum ArgsOutcome {
    Help,
    Run { config: ConfigView },
    Fail { error: ArgsErrorView },
}

/// Whether an argument names the families.
pub open spec fn is_family_flag(arg: Seq<char>) -> bool {
    arg == "--family"@ || arg == "--families"@ || arg == "--kind"@
}

/// Whether an argument is followed by a number.
pub open spec fn is_number_flag(arg: Seq<char>) -> bool {
    ||| arg == "--min"@
    ||| arg == "--max"@
    ||| arg == "--limit"@
    ||| arg == "--memory-mib"@
    ||| arg == "--reserve-mib"@
    ||| arg == "--threads"@
    ||| arg == "--scan-threshold"@
    ||| arg == "--progress-seconds"@
}

/// The value of a numeric argument; underscores in it do not count.
pub open spec fn argument_number(value: Seq<char>) -> Result<nat, NumberError> {
    read_number(value.filter(|c: char| c != '_'), u64::MAX as nat)
}

/// The configuration with a number set.
pub open spec fn number_set(config: ConfigView, arg: Seq<char>, v: u64) -> Result<ConfigView, ArgsErrorView> {
    if arg == "--min"@ {
        Ok(ConfigView { min: v, ..config })
    } else if arg == "--max"@ {
        Ok(ConfigView { max: v, ..config })
    } else if arg == "--limit"@ {
        Ok(ConfigView { sieve_limit: Some(v), ..config })
    } else if arg == "--memory-mib"@ {
        Ok(ConfigView { memory_mib: Some(v), ..config })
    } else if arg == "--reserve-mib"@ {
        Ok(ConfigView { reserve_mib: v, ..config })
    } else if arg == "--threads"@ {
        if v == 0 {
            Err(ArgsErrorView::ZeroThreads)
        } else if v > usize::MAX {
            Err(ArgsErrorView::TooManyThreads { threads: v })
        } else {
            Ok(ConfigView { threads: v as usize, ..config })
        }
    } else if arg == "--scan-threshold"@ {
        Ok(ConfigView { scan_threshold: v, ..config })
    } else {
        Ok(ConfigView { progress_secs: v, ..config })
    }
}

/// What becomes of the configuration at the end of the arguments: the bounds must be in order,
/// and of equal families the first counts.
pub open spec fn finished(config: ConfigView) -> ArgsOutcome {
    if config.min > config.max {
        ArgsOutcome::Fail { error: ArgsErrorView::MinAboveMax { min: config.min, max: config.max } }
    } else if deduped(config.families).len() == 0 {
        ArgsOutcome::Fail { error: ArgsErrorView::NoFamily }
    } else {
        ArgsOutcome::Run { config: ConfigView { families: deduped(config.families), ..config } }
    }
}

/// What becomes of the arguments from a configuration on; `saw_family` says whether families
/// have been named already, so that the first naming replaces those of the start.
pub open spec fn parse_from(args: Seq<Seq<char>>, config: ConfigView, saw_family: bool) -> ArgsOutcome
    decreases args.len(),
{
    if args.len() == 0 {
        finished(config)
    } else {
        let arg = args[0];
        if arg == "--help"@ || arg == "-h"@ {
            ArgsOutcome::Help
        } else if arg == "--self-test"@ {
            parse_from(args.skip(1), ConfigView { self_test: true, ..config }, saw_family)
        } else if !is_family_flag(arg) && !is_number_flag(arg) {
            ArgsOutcome::Fail { error: ArgsErrorView::UnknownArgument { arg } }
        } else if args.len() == 1 {
            ArgsOutcome::Fail { error: ArgsErrorView::MissingValue { flag: arg } }
        } else if is_family_flag(arg) {
            match families_in(split_on(args[1], ',')) {
                Err(name) => ArgsOutcome::Fail { error: ArgsErrorView::UnknownFamily { name } },
                Ok(named) => {
                    let before = if saw_family {
                        config.families
                    } else {
                        Seq::empty()
                    };
                    parse_from(args.skip(2), ConfigView { families: before + named, ..config }, true)
                },
            }
        } else {
            match argument_number(args[1]) {
                Err(cause) => ArgsOutcome::Fail { error: ArgsErrorView::Number { cause } },
                Ok(v) => match number_set(config, arg, v as u64) {
                    Err(error) => ArgsOutcome::Fail { error },
                    Ok(next) => parse_from(args.skip(2), next, saw_family),
                },
            }
        }
    }
}

/// The texts of a list of arguments.
pub open spec fn texts(args: Seq<String>) -> Seq<Seq<char>> {
    Seq::new(args.len(), |i: int| args[i]@)
}

/// Reads the value of a numeric argument; underscores in it do not count.
pub fn parse_u64(value: &str) -> (r: Result<u64, NumberError>)
    ensures
        match (r, argument_number(value@)) {
            (Ok(v), Ok(w)) => v == w,
            (Err(e), Err(f)) => e == f,
            _ => false,
        },
{
    let chars: Vec<char> = chars_of(value);
    let mut kept: Vec<char> = Vec::new();
    let mut i: usize = 0;
    let ghost keep = |c: char| c != '_';
    proof {
        assert(chars@.take(0) =~= Seq::empty());
        reveal(Seq::filter);
    }
    while i < chars.len()
        invariant
            i <= chars@.len(),
            keep == (|c: char| c != '_'),
            kept@ == chars@.take(i as int).filter(keep),
        decreases chars@.len() - i,
    {
        proof {
            reveal(Seq::filter);
            assert(chars@.take(i + 1).drop_last() =~= chars@.take(i as int));
        }
        if chars[i] != '_' {
            kept.push(chars[i]);
        }
        i = i + 1;
    }
    proof {
        assert(chars@.take(i as int) =~= chars@);
        assert(kept@.subrange(0, kept@.len() as int) =~= kept@);
    }
    let len: usize = kept.len();
    match parse_number(&kept, 0, len, u64::MAX as u128) {
        Ok(v) => {
            assert(v <= u64::MAX) by {
                lemma_number_range(kept@, u64::MAX as nat);
            }
            Ok(v as u64)
        },
        Err(e) => Err(e),
    }
}

/// A number that is read is within its bound.
proof fn lemma_number_range(s: Seq<char>, max: nat)
    ensures
        read_number(s, max) matches Ok(v) ==> v <= max,
{
    lemma_digits_range(s, max);
    lemma_digits_range(s.skip(1), max);
}

proof fn lemma_digits_range(s: Seq<char>, max: nat)
    ensures
        crate::text::read_digits(s, max) matches Ok(v) ==> v <= max,
{
}

/// Whether an argument is followed by a number.
fn takes_number(arg: &str) -> (r: bool)
    ensures
        r == is_number_flag(arg@),
{
    same_text(arg, "--min") || same_text(arg, "--max") || same_text(arg, "--limit") || same_text(arg, "--memory-mib")
        || same_text(arg, "--reserve-mib") || same_text(arg, "--threads") || same_text(arg, "--scan-threshold")
        || same_text(arg, "--progress-seconds")
}

/// Sets a number of the configuration.
fn set_number(config: &mut Config, arg: &str, v: u64) -> (r: Result<(), ArgsError>)
    requires
        is_number_flag(arg@),
    ensures
        match number_set(old(config)@, arg@, v) {
            Ok(next) => r is Ok && final(config)@ == next,
            Err(error) => r is Err && r->Err_0@ == error,
        },
{
    if same_text(arg, "--min") {
        config.min = v;
    } else if same_text(arg, "--max") {
        config.max = v;
    } else if same_text(arg, "--limit") {
        config.sieve_limit = Some(v);
    } else if same_text(arg, "--memory-mib") {
        config.memory_mib = Some(v);
    } else if same_text(arg, "--reserve-mib") {
        config.reserve_mib = v;
    } else if same_text(arg, "--threads") {
        if v == 0 {
            return Err(ArgsError::ZeroThreads);
        }
        if v > usize::MAX as u64 {
            return Err(ArgsError::TooManyThreads { threads: v });
        }
        config.threads = v as usize;
    } else if same_text(arg, "--scan-threshold") {
        config.scan_threshold = v;
    } else {
        config.progress_secs = v;
    }
    Ok(())
}

/// Reads the arguments of a run, on a machine with `threads` workers.
pub fn parse_args(args: &Vec<String>, threads: usize) -> (r: Result<ParsedArgs, ArgsError>)
    ensures
        match parse_from(texts(args@), default_config(threads), false) {
            ArgsOutcome::Help => r is Ok && r->Ok_0 is Help,
            ArgsOutcome::Run { config } => r is Ok && r->Ok_0 is Run && r->Ok_0->config@ == config,
            ArgsOutcome::Fail { error } => r is Err && r->Err_0@ == error,
        },
{
    let mut config = Config::with_threads(threads);
    let mut saw_family: bool = false;
    let mut i: usize = 0;
    let ghost all = texts(args@);
    let ghost outcome = parse_from(all, default_config(threads), false);
    assert(all.skip(0) =~= all);
    while i < args.len()
        invariant
            i <= args@.len(),
            all == texts(args@),
            outcome == parse_from(all.skip(i as int), config@, saw_family),
            outcome == parse_from(texts(args@), default_config(threads), false),
        decreases args@.len() - i,
    {
        let arg: &str = args[i].as_str();
        let ghost here = all.skip(i as int);
        proof {
            assert(here[0] == arg@);
            assert(here.skip(1) =~= all.skip(i + 1));
            if i + 1 < all.len() {
                assert(here[1] == args@[i + 1]@);
                assert(here.skip(2) =~= all.skip(i + 2));
            }
        }
        if same_text(arg, "--help") || same_text(arg, "-h") {
            return Ok(ParsedArgs::Help);
        }
        if same_text(arg, "--self-test") {
            config.self_test = true;
            i = i + 1;
            continue;
        }
        let family: bool = same_text(arg, "--family") || same_text(arg, "--families") || same_text(arg, "--kind");
        if !family && !takes_number(arg) {
            return Err(ArgsError::UnknownArgument { arg: arg.to_owned() });
        }
        if i + 1 == args.len() {
            return Err(ArgsError::MissingValue { flag: arg.to_owned() });
        }
        let value: &str = args[i + 1].as_str();
        if family {
            let mut named: Vec<CandidateFamily> = match parse_family_list(value) {
                Ok(named) => named,
                Err(error) => {
                    return Err(error);
                },
            };
            if !saw_family {
                config.families = Vec::new();
                saw_family = true;
            }
            config.families.append(&mut named);
        } else {
            let v: u64 = match parse_u64(value) {
                Ok(v) => v,
                Err(cause) => {
                    return Err(ArgsError::Number { cause });
                },
            };
            match set_number(&mut config, arg, v) {
                Ok(_) => {},
                Err(error) => {
                    return Err(error);
                },
            }
        }
        i = i + 2;
    }
    assert(all.skip(i as int) =~= Seq::empty());
    if config.min > config.max {
        return Err(ArgsError::MinAboveMax { min: config.min, max: config.max });
    }
    dedup_families(&mut config.families);
    if config.families.is_empty() {
        return Err(ArgsError::NoFamily);
    }
    Ok(ParsedArgs::Run { config })
}

} // verus!
