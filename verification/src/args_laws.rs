//! What the arguments of a run do, wherever they stand among the others.
use crate::args::{
    argument_number, default_config, is_family_flag, is_number_flag, number_set, parse_args, parse_from, texts,
    ArgsOutcome, ConfigView, ParsedArgs,
};
use crate::config::{deduped, families_in, ArgsError, ArgsErrorView, CandidateFamily};
use crate::text::split_on;
use crate::text_laws::{lemma_read_number, misread, spells, unsigned, without_underscores};
use vstd::prelude::*;

verus! {

/// Whether an argument names the families, in the argument behind it.
pub open spec fn names_families(arg: Seq<char>) -> bool {
    ||| arg == "--kind"@
    ||| arg == "--family"@
    ||| arg == "--families"@
}

/// Whether an argument sets a number, to the argument behind it.
pub open spec fn sets_number(arg: Seq<char>) -> bool {
    ||| arg == "--min"@
    ||| arg == "--max"@
    ||| arg == "--limit"@
    ||| arg == "--threads"@
    ||| arg == "--memory-mib"@
    ||| arg == "--reserve-mib"@
    ||| arg == "--scan-threshold"@
    ||| arg == "--progress-seconds"@
}

/// Whether an argument takes the one behind it as its value.
pub open spec fn takes_value(arg: Seq<char>) -> bool {
    names_families(arg) || sets_number(arg)
}

/// Whether an argument asks for the help.
pub open spec fn asks_help(arg: Seq<char>) -> bool {
    arg == "-h"@ || arg == "--help"@
}

/// Whether what stands at place `p` is an argument of its own and not the value of the one before.
pub open spec fn is_head(args: Seq<Seq<char>>, p: int) -> bool
    decreases p,
{
    p <= 0 || !(is_head(args, p - 1) && takes_value(args[p - 1]))
}

/// Whether the text behind place `p` is the number `v`.
pub open spec fn number_behind(args: Seq<Seq<char>>, p: int, v: int) -> bool {
    p + 1 < args.len() && v <= u64::MAX && spells(unsigned(without_underscores(args[p + 1])), v)
}

/// Whether the text behind place `p` lists the families `named`.
pub open spec fn families_behind(args: Seq<Seq<char>>, p: int, named: Seq<CandidateFamily>) -> bool {
    p + 1 < args.len() && families_in(split_on(args[p + 1], ',')) == Ok::<Seq<CandidateFamily>, Seq<char>>(named)
}

/// Whether the argument at place `p` can be followed.
pub open spec fn is_sound(args: Seq<Seq<char>>, p: int) -> bool {
    ||| args[p] == "--self-test"@
    ||| names_families(args[p]) && exists|named: Seq<CandidateFamily>| #[trigger] families_behind(args, p, named)
    ||| sets_number(args[p]) && exists|v: int|
        #[trigger] number_behind(args, p, v) && (args[p] == "--threads"@ ==> 1 <= v <= usize::MAX)
}

/// Whether all arguments before place `p` can be followed.
pub open spec fn sound_before(args: Seq<Seq<char>>, p: int) -> bool {
    forall|q: int| 0 <= q < p && #[trigger] is_head(args, q) ==> is_sound(args, q)
}

/// Whether `error` says what is wrong with the argument at place `p`.
pub open spec fn is_fault(args: Seq<Seq<char>>, p: int, error: ArgsErrorView) -> bool {
    match error {
        ArgsErrorView::UnknownArgument { arg } => {
            arg == args[p] && !takes_value(arg) && !asks_help(arg) && arg != "--self-test"@
        },
        ArgsErrorView::MissingValue { flag } => flag == args[p] && takes_value(flag) && p + 1 == args.len(),
        ArgsErrorView::UnknownFamily { name } => {
            names_families(args[p]) && p + 1 < args.len() && families_in(split_on(args[p + 1], ',')) == Err::<
                Seq<CandidateFamily>,
                Seq<char>,
            >(name)
        },
        ArgsErrorView::Number { cause } => {
            sets_number(args[p]) && p + 1 < args.len() && misread(
                without_underscores(args[p + 1]),
                u64::MAX as int,
                cause,
            )
        },
        ArgsErrorView::ZeroThreads => args[p] == "--threads"@ && number_behind(args, p, 0),
        ArgsErrorView::TooManyThreads { threads } => {
            args[p] == "--threads"@ && number_behind(args, p, threads as int) && threads > usize::MAX
        },
        _ => false,
    }
}

/// Whether the argument at place `p` is the last before place `end` that is `flag`.
pub open spec fn is_last(args: Seq<Seq<char>>, flag: Seq<char>, p: int, end: int) -> bool {
    &&& 0 <= p < end
    &&& is_head(args, p)
    &&& args[p] == flag
    &&& forall|q: int| p < q < end && #[trigger] is_head(args, q) ==> args[q] != flag
}

/// Whether `flag` stands before place `end` as an argument.
pub open spec fn is_given(args: Seq<Seq<char>>, flag: Seq<char>, end: int) -> bool {
    exists|p: int| 0 <= p < end && #[trigger] is_head(args, p) && args[p] == flag
}

/// Whether `value` is the number behind the last `flag` before place `end`, or `start` where there
/// is none.
pub open spec fn is_set(args: Seq<Seq<char>>, flag: Seq<char>, end: int, start: Option<int>, value: Option<int>) -> bool {
    if is_given(args, flag, end) {
        value is Some && exists|p: int| #[trigger] is_last(args, flag, p, end) && number_behind(args, p, value->0)
    } else {
        value == start
    }
}

/// The families that the arguments before place `end` name, in order.
pub open spec fn named_before(args: Seq<Seq<char>>, end: int) -> Seq<CandidateFamily>
    decreases end,
{
    if end <= 0 {
        Seq::empty()
    } else if is_head(args, end - 1) && names_families(args[end - 1]) {
        named_before(args, end - 1) + families_in(split_on(args[end], ','))->Ok_0
    } else {
        named_before(args, end - 1)
    }
}

/// Whether an argument before place `end` names the families.
pub open spec fn is_named(args: Seq<Seq<char>>, end: int) -> bool {
    is_given(args, "--family"@, end) || is_given(args, "--families"@, end) || is_given(args, "--kind"@, end)
}

/// The number as a value that may be missing.
pub open spec fn widened(v: Option<u64>) -> Option<int> {
    match v {
        None => None,
        Some(v) => Some(v as int),
    }
}

/// Whether the fields of `config` other than the families are what the arguments before place
/// `end` set them to, on a machine with `threads` workers: each number is the one behind the last
/// argument that sets it, wherever that stands, and what it starts as where there is none.
pub open spec fn fields_follow(args: Seq<Seq<char>>, end: int, threads: usize, config: ConfigView) -> bool {
    &&& is_set(args, "--min"@, end, Some(0), Some(config.min as int))
    &&& is_set(args, "--max"@, end, Some(0xFFFF_FFFF_FFFF_FFFF), Some(config.max as int))
    &&& is_set(args, "--limit"@, end, None, widened(config.sieve_limit))
    &&& is_set(args, "--memory-mib"@, end, None, widened(config.memory_mib))
    &&& is_set(args, "--reserve-mib"@, end, Some(1024), Some(config.reserve_mib as int))
    &&& is_set(args, "--progress-seconds"@, end, Some(5), Some(config.progress_secs as int))
    &&& is_set(args, "--threads"@, end, Some(threads as int), Some(config.threads as int))
    &&& is_set(args, "--scan-threshold"@, end, Some(511), Some(config.scan_threshold as int))
    &&& config.self_test <==> is_given(args, "--self-test"@, end)
}

/// Whether `families` are what the arguments before place `end` name, or the repdigits where none
/// does.
pub open spec fn families_follow(args: Seq<Seq<char>>, end: int, families: Seq<CandidateFamily>) -> bool {
    if is_named(args, end) {
        families == named_before(args, end)
    } else {
        families == seq![CandidateFamily::Repdigit]
    }
}

/// The arguments are all different.
proof fn lemma_flags()
    ensures
        "-h"@.len() == 2,
        "--min"@.len() == 5,
        "--max"@.len() == 5,
        "--min"@[3] == 'i',
        "--max"@[3] == 'a',
        "--kind"@.len() == 6,
        "--help"@.len() == 6,
        "--kind"@[2] == 'k',
        "--help"@[2] == 'h',
        "--limit"@.len() == 7,
        "--family"@.len() == 8,
        "--threads"@.len() == 9,
        "--families"@.len() == 10,
        "--self-test"@.len() == 11,
        "--memory-mib"@.len() == 12,
        "--reserve-mib"@.len() == 13,
        "--scan-threshold"@.len() == 16,
        "--progress-seconds"@.len() == 18,
{
    reveal_strlit("-h");
    reveal_strlit("--min");
    reveal_strlit("--max");
    reveal_strlit("--kind");
    reveal_strlit("--help");
    reveal_strlit("--limit");
    reveal_strlit("--family");
    reveal_strlit("--threads");
    reveal_strlit("--families");
    reveal_strlit("--self-test");
    reveal_strlit("--memory-mib");
    reveal_strlit("--reserve-mib");
    reveal_strlit("--scan-threshold");
    reveal_strlit("--progress-seconds");
}

/// What follows from one more argument at place `p` that is `arg` for the arguments that are
/// `flag`; `next` is the place behind it and its value.
proof fn lemma_given_step(args: Seq<Seq<char>>, flag: Seq<char>, p: int, next: int)
    requires
        0 <= p < args.len(),
        is_head(args, p),
        next == if takes_value(args[p]) {
            p + 2
        } else {
            p + 1
        },
    ensures
        is_head(args, next),
        is_given(args, flag, next) <==> is_given(args, flag, p) || args[p] == flag,
        args[p] == flag ==> is_last(args, flag, p, next),
        args[p] != flag ==> forall|q: int| #[trigger] is_last(args, flag, q, p) ==> is_last(args, flag, q, next),
        sound_before(args, p) && is_sound(args, p) ==> sound_before(args, next),
{
    assert forall|q: int| p < q < next implies !#[trigger] is_head(args, q) by {
        assert(q == p + 1);
    }
    if is_given(args, flag, next) {
        let q = choose|q: int| 0 <= q < next && #[trigger] is_head(args, q) && args[q] == flag;
        assert(q <= p);
    }
    if takes_value(args[p]) {
        assert(!is_head(args, p + 1));
    }
}

/// A number that is not set again stays.
proof fn lemma_set_kept(args: Seq<Seq<char>>, flag: Seq<char>, p: int, next: int, start: Option<int>, value: Option<int>)
    requires
        0 <= p < args.len(),
        is_head(args, p),
        next == if takes_value(args[p]) {
            p + 2
        } else {
            p + 1
        },
        args[p] != flag,
        is_set(args, flag, p, start, value),
    ensures
        is_set(args, flag, next, start, value),
{
    lemma_given_step(args, flag, p, next);
    if is_given(args, flag, p) {
        let q = choose|q: int| #[trigger] is_last(args, flag, q, p) && number_behind(args, q, value->0);
        assert(is_last(args, flag, q, next) && number_behind(args, q, value->0));
    }
}

/// A number that is set is the one behind.
proof fn lemma_set_anew(args: Seq<Seq<char>>, flag: Seq<char>, p: int, next: int, start: Option<int>, v: int)
    requires
        0 <= p < args.len(),
        is_head(args, p),
        next == if takes_value(args[p]) {
            p + 2
        } else {
            p + 1
        },
        args[p] == flag,
        number_behind(args, p, v),
    ensures
        is_set(args, flag, next, start, Some(v)),
{
    lemma_given_step(args, flag, p, next);
    assert(is_last(args, flag, p, next) && number_behind(args, p, v));
}

/// An argument that sets no number leaves the numbers as they are.
proof fn lemma_fields_kept(args: Seq<Seq<char>>, p: int, next: int, threads: usize, config: ConfigView, then: ConfigView)
    requires
        0 <= p < args.len(),
        is_head(args, p),
        next == if takes_value(args[p]) {
            p + 2
        } else {
            p + 1
        },
        !sets_number(args[p]),
        fields_follow(args, p, threads, config),
        then == (ConfigView { families: then.families, self_test: then.self_test, ..config }),
        then.self_test <==> config.self_test || args[p] == "--self-test"@,
    ensures
        fields_follow(args, next, threads, then),
{
    lemma_set_kept(args, "--min"@, p, next, Some(0), Some(config.min as int));
    lemma_set_kept(args, "--max"@, p, next, Some(0xFFFF_FFFF_FFFF_FFFF), Some(config.max as int));
    lemma_set_kept(args, "--limit"@, p, next, None, widened(config.sieve_limit));
    lemma_set_kept(args, "--memory-mib"@, p, next, None, widened(config.memory_mib));
    lemma_set_kept(args, "--reserve-mib"@, p, next, Some(1024), Some(config.reserve_mib as int));
    lemma_set_kept(args, "--progress-seconds"@, p, next, Some(5), Some(config.progress_secs as int));
    lemma_set_kept(args, "--threads"@, p, next, Some(threads as int), Some(config.threads as int));
    lemma_set_kept(args, "--scan-threshold"@, p, next, Some(511), Some(config.scan_threshold as int));
    lemma_given_step(args, "--self-test"@, p, next);
}

/// An argument that sets a number sets that one and leaves the others as they are.
proof fn lemma_fields_set(args: Seq<Seq<char>>, p: int, threads: usize, config: ConfigView, v: u64)
    requires
        0 <= p < args.len(),
        is_head(args, p),
        sets_number(args[p]),
        number_behind(args, p, v as int),
        fields_follow(args, p, threads, config),
        number_set(config, args[p], v) is Ok,
    ensures
        fields_follow(args, p + 2, threads, number_set(config, args[p], v)->Ok_0),
        number_set(config, args[p], v)->Ok_0.families == config.families,
{
    lemma_flags();
    let next = p + 2;
    let arg = args[p];
    if arg == "--min"@ {
        lemma_set_anew(args, "--min"@, p, next, Some(0), v as int);
    } else {
        lemma_set_kept(args, "--min"@, p, next, Some(0), Some(config.min as int));
    }
    if arg == "--max"@ {
        lemma_set_anew(args, "--max"@, p, next, Some(0xFFFF_FFFF_FFFF_FFFF), v as int);
    } else {
        lemma_set_kept(args, "--max"@, p, next, Some(0xFFFF_FFFF_FFFF_FFFF), Some(config.max as int));
    }
    if arg == "--limit"@ {
        lemma_set_anew(args, "--limit"@, p, next, None, v as int);
    } else {
        lemma_set_kept(args, "--limit"@, p, next, None, widened(config.sieve_limit));
    }
    if arg == "--memory-mib"@ {
        lemma_set_anew(args, "--memory-mib"@, p, next, None, v as int);
    } else {
        lemma_set_kept(args, "--memory-mib"@, p, next, None, widened(config.memory_mib));
    }
    if arg == "--reserve-mib"@ {
        lemma_set_anew(args, "--reserve-mib"@, p, next, Some(1024), v as int);
    } else {
        lemma_set_kept(args, "--reserve-mib"@, p, next, Some(1024), Some(config.reserve_mib as int));
    }
    if arg == "--progress-seconds"@ {
        lemma_set_anew(args, "--progress-seconds"@, p, next, Some(5), v as int);
    } else {
        lemma_set_kept(args, "--progress-seconds"@, p, next, Some(5), Some(config.progress_secs as int));
    }
    if arg == "--threads"@ {
        lemma_set_anew(args, "--threads"@, p, next, Some(threads as int), v as int);
    } else {
        lemma_set_kept(args, "--threads"@, p, next, Some(threads as int), Some(config.threads as int));
    }
    if arg == "--scan-threshold"@ {
        lemma_set_anew(args, "--scan-threshold"@, p, next, Some(511), v as int);
    } else {
        lemma_set_kept(args, "--scan-threshold"@, p, next, Some(511), Some(config.scan_threshold as int));
    }
    lemma_given_step(args, "--self-test"@, p, next);
}

/// The families after one more argument and its value.
proof fn lemma_named_step(args: Seq<Seq<char>>, p: int, next: int)
    requires
        0 <= p < args.len(),
        is_head(args, p),
        next == if takes_value(args[p]) {
            p + 2
        } else {
            p + 1
        },
    ensures
        is_named(args, next) <==> is_named(args, p) || names_families(args[p]),
        named_before(args, next) == if names_families(args[p]) {
            named_before(args, p) + families_in(split_on(args[p + 1], ','))->Ok_0
        } else {
            named_before(args, p)
        },
{
    lemma_given_step(args, "--family"@, p, next);
    lemma_given_step(args, "--families"@, p, next);
    lemma_given_step(args, "--kind"@, p, next);
    if takes_value(args[p]) {
        assert(!is_head(args, p + 1));
        assert(named_before(args, next) == named_before(args, p + 1));
    }
}

/// No family is named before the first argument that names some.
proof fn lemma_none_named(args: Seq<Seq<char>>, end: int)
    requires
        !is_named(args, end),
    ensures
        named_before(args, end) == Seq::<CandidateFamily>::empty(),
    decreases end,
{
    if end > 0 {
        let p = end - 1;
        if is_head(args, p) && names_families(args[p]) {
            assert(is_given(args, args[p], end));
        }
        assert(!is_named(args, p)) by {
            if is_given(args, "--family"@, p) {
                assert(is_given(args, "--family"@, end));
            }
            if is_given(args, "--families"@, p) {
                assert(is_given(args, "--families"@, end));
            }
            if is_given(args, "--kind"@, p) {
                assert(is_given(args, "--kind"@, end));
            }
        }
        lemma_none_named(args, p);
    }
}

/// Whether the argument at place `p` is the first that is not followed, and is a fault.
pub open spec fn fails_at(args: Seq<Seq<char>>, p: int, error: ArgsErrorView) -> bool {
    0 <= p < args.len() && is_head(args, p) && sound_before(args, p) && is_fault(args, p, error)
}

/// Whether the argument at place `p` is the first that is not followed, and asks for the help.
pub open spec fn helps_at(args: Seq<Seq<char>>, p: int) -> bool {
    0 <= p < args.len() && is_head(args, p) && sound_before(args, p) && asks_help(args[p])
}

/// Whether `error` says what is wrong with the arguments as a whole.
pub open spec fn fails_at_end(args: Seq<Seq<char>>, threads: usize, error: ArgsErrorView) -> bool {
    let end = args.len() as int;
    &&& sound_before(args, end)
    &&& match error {
        ArgsErrorView::MinAboveMax { min, max } => {
            &&& min > max
            &&& is_set(args, "--min"@, end, Some(0), Some(min as int))
            &&& is_set(args, "--max"@, end, Some(0xFFFF_FFFF_FFFF_FFFF), Some(max as int))
        },
        ArgsErrorView::NoFamily => is_named(args, end) && named_before(args, end).len() == 0,
        _ => false,
    }
}

/// Whether `kept` are the families of `named`, each once, in the order in which they first stand
/// there.
pub open spec fn firsts_of(named: Seq<CandidateFamily>, kept: Seq<CandidateFamily>) -> bool {
    &&& forall|f: CandidateFamily| #[trigger] kept.contains(f) <==> named.contains(f)
    &&& kept.no_duplicates()
    &&& forall|i: int, j: int|
        #![trigger kept[i], kept[j]]
        0 <= i < j < kept.len() ==> named.index_of_first(kept[i])->0 < named.index_of_first(kept[j])->0
}

/// Dropping repeated families keeps each where it first stands.
pub proof fn lemma_deduped_firsts(named: Seq<CandidateFamily>)
    ensures
        firsts_of(named, deduped(named)),
        named.len() > 0 ==> deduped(named).len() > 0,
    decreases named.len(),
{
    crate::config::law_deduped(named);
    let kept = deduped(named);
    if named.len() > 0 {
        let t = named.drop_last();
        let last = named.last();
        let before = deduped(t);
        lemma_deduped_firsts(t);
        assert forall|i: int, j: int|
            #![trigger kept[i], kept[j]]
            0 <= i < j < kept.len() implies named.index_of_first(kept[i])->0 < named.index_of_first(kept[j])->0 by {
            assert(before.contains(kept[i]));
            lemma_index_of_first(t, named, kept[i]);
            if j < before.len() {
                assert(before[i] == kept[i] && before[j] == kept[j]);
                assert(before.contains(kept[j]));
                lemma_index_of_first(t, named, kept[j]);
            } else {
                assert(kept[j] == last);
                assert(!t.contains(last));
                assert(named[named.len() - 1] == last);
                named.index_of_first_ensures(last);
                let at = named.index_of_first(last)->0;
                if at < t.len() {
                    assert(t[at] == last);
                }
            }
        }
    }
    if named.len() > 0 {
        assert(named.contains(named[0]));
        assert(kept.contains(named[0]));
    }
}

/// What stands in a beginning first stands there in the whole.
proof fn lemma_index_of_first(t: Seq<CandidateFamily>, named: Seq<CandidateFamily>, f: CandidateFamily)
    requires
        named.len() > 0,
        t == named.drop_last(),
        t.contains(f),
    ensures
        named.index_of_first(f) == t.index_of_first(f),
        0 <= named.index_of_first(f)->0 < t.len(),
{
    t.index_of_first_ensures(f);
    let a = t.index_of_first(f)->0;
    assert(named[a] == f);
    named.index_of_first_ensures(f);
    let b = named.index_of_first(f)->0;
    if b < a {
        assert(t[b] == f);
    }
}

/// Whether `outcome` is what the arguments ask for.
spec fn is_right(args: Seq<Seq<char>>, threads: usize, outcome: ArgsOutcome) -> bool {
    match outcome {
        ArgsOutcome::Help => exists|p: int| #[trigger] helps_at(args, p),
        ArgsOutcome::Run { config } => {
            let end = args.len() as int;
            &&& sound_before(args, end)
            &&& fields_follow(args, end, threads, config)
            &&& config.min <= config.max
            &&& config.families.len() > 0
            &&& exists|named: Seq<CandidateFamily>|
                #[trigger] families_follow(args, end, named) && firsts_of(named, config.families)
        },
        ArgsOutcome::Fail { error } => {
            fails_at_end(args, threads, error) || exists|p: int| #[trigger] fails_at(args, p, error)
        },
    }
}

/// From place `p` on, after sound arguments, the outcome is the right one.
proof fn lemma_outcome(args: Seq<Seq<char>>, p: int, threads: usize, config: ConfigView, saw: bool)
    requires
        0 <= p <= args.len(),
        is_head(args, p),
        sound_before(args, p),
        fields_follow(args, p, threads, config),
        families_follow(args, p, config.families),
        saw <==> is_named(args, p),
    ensures
        is_right(args, threads, parse_from(args.skip(p), config, saw)),
    decreases args.len() - p,
{
    lemma_flags();
    let here = args.skip(p);
    let outcome = parse_from(here, config, saw);
    if p == args.len() {
        lemma_deduped_firsts(config.families);
        if config.min <= config.max && deduped(config.families).len() > 0 {
            assert(families_follow(args, p, config.families) && firsts_of(config.families, deduped(config.families)));
        }
    } else {
        let arg = args[p];
        assert(here[0] == arg);
        assert(takes_value(arg) <==> is_family_flag(arg) || is_number_flag(arg));
        if asks_help(arg) {
            assert(helps_at(args, p));
        } else if arg == "--self-test"@ {
            let then = ConfigView { self_test: true, ..config };
            assert(here.skip(1) =~= args.skip(p + 1));
            lemma_given_step(args, arg, p, p + 1);
            assert(is_sound(args, p));
            lemma_fields_kept(args, p, p + 1, threads, config, then);
            lemma_named_step(args, p, p + 1);
            lemma_outcome(args, p + 1, threads, then, saw);
        } else if !takes_value(arg) {
            assert(fails_at(args, p, ArgsErrorView::UnknownArgument { arg }));
        } else if p + 1 == args.len() {
            assert(fails_at(args, p, ArgsErrorView::MissingValue { flag: arg }));
        } else {
            assert(here[1] == args[p + 1]);
            assert(here.skip(2) =~= args.skip(p + 2));
            lemma_given_step(args, arg, p, p + 2);
            lemma_named_step(args, p, p + 2);
            if names_families(arg) {
                match families_in(split_on(args[p + 1], ',')) {
                    Err(name) => {
                        assert(fails_at(args, p, ArgsErrorView::UnknownFamily { name }));
                    },
                    Ok(named) => {
                        assert(families_behind(args, p, named));
                        assert(is_sound(args, p));
                        let before = if saw {
                            config.families
                        } else {
                            Seq::empty()
                        };
                        if !saw {
                            lemma_none_named(args, p);
                        }
                        let then = ConfigView { families: before + named, ..config };
                        lemma_fields_kept(args, p, p + 2, threads, config, then);
                        lemma_outcome(args, p + 2, threads, then, true);
                    },
                }
            } else {
                let text = without_underscores(args[p + 1]);
                lemma_read_number(text, u64::MAX as nat);
                match argument_number(args[p + 1]) {
                    Err(cause) => {
                        assert(fails_at(args, p, ArgsErrorView::Number { cause }));
                    },
                    Ok(v) => {
                        assert(number_behind(args, p, v as int));
                        match number_set(config, arg, v as u64) {
                            Err(error) => {
                                assert(fails_at(args, p, error));
                            },
                            Ok(then) => {
                                assert(is_sound(args, p));
                                lemma_fields_set(args, p, threads, config, v as u64);
                                lemma_outcome(args, p + 2, threads, then, saw);
                            },
                        }
                    },
                }
            }
        }
    }
}

/// Reading the arguments gives what they ask for, on a machine with `threads` workers. The help
/// comes where an argument asks for it and all before it can be followed; an error comes from the
/// first argument that cannot be followed, or where all can be from bounds the wrong way round or
/// an empty list of families. Otherwise there is a run: each number is the one behind the last
/// argument that sets it, wherever it stands, the self-test is asked for or not, and the families
/// are those named, each once and in the order in which they are first named.
pub proof fn law_parse_args(args: &Vec<String>, threads: usize, r: Result<ParsedArgs, ArgsError>)
    requires
        call_ensures(parse_args, (args, threads), r),
    ensures
        ({
            let given = Seq::new(args@.len(), |i: int| args@[i]@);
            let end = args@.len() as int;
            match r {
                Ok(ParsedArgs::Help) => exists|p: int| #[trigger] helps_at(given, p),
                Ok(ParsedArgs::Run { config }) => {
                    &&& sound_before(given, end)
                    &&& fields_follow(given, end, threads, config@)
                    &&& config.min <= config.max
                    &&& config.families@.len() > 0
                    &&& exists|named: Seq<CandidateFamily>|
                        #[trigger] families_follow(given, end, named) && firsts_of(named, config.families@)
                },
                Err(error) => {
                    fails_at_end(given, threads, error@) || exists|p: int| #[trigger] fails_at(given, p, error@)
                },
            }
        }),
{
    let given = texts(args@);
    assert(given =~= Seq::new(args@.len(), |i: int| args@[i]@));
    assert(given.skip(0) =~= given);
    assert forall|flag: Seq<char>| !(#[trigger] is_given(given, flag, 0)) by {}
    lemma_outcome(given, 0, threads, default_config(threads), false);
}

/// What sets the arguments apart holds of one outcome only: an argument that can be followed is no
/// fault and does not ask for the help, and no argument does both.
pub proof fn law_one_outcome(args: Seq<Seq<char>>, p: int, error: ArgsErrorView)
    requires
        0 <= p < args.len(),
    ensures
        is_sound(args, p) ==> !asks_help(args[p]) && !is_fault(args, p, error),
        asks_help(args[p]) ==> !is_fault(args, p, error),
{
    lemma_flags();
    if is_sound(args, p) && is_fault(args, p, error) {
        if sets_number(args[p]) {
            let v = choose|v: int|
                #[trigger] number_behind(args, p, v) && (args[p] == "--threads"@ ==> 1 <= v <= usize::MAX);
            match error {
                ArgsErrorView::Number { cause } => {
                    crate::text_laws::law_one_reading(without_underscores(args[p + 1]), u64::MAX as int, v, cause);
                },
                _ => {},
            }
        }
    }
}

} // verus!
