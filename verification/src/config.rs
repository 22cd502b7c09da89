//! What a run is asked to do: the families, the bounds and the memory, read from arguments.
use crate::text::{
    chars_of, decimal, push_decimal, same_text, split_on, trim_bounds, trimmed, NumberError,
};
use vstd::prelude::*;
use vstd::string::*;

verus! {

/// The smallest candidate unless the caller chooses otherwise.
pub const DEFAULT_MIN: u64 = 0;

/// The memory left free, in MiB, unless the caller chooses otherwise.
pub const DEFAULT_RESERVE_MIB: u64 = 1024;

/// The seconds between progress lines unless the caller chooses otherwise.
pub const DEFAULT_PROGRESS_SECS: u64 = 5;

/// A sparse family of numbers to search.
#[derive(Debug, Clone, Copy, PartialEq, Eq, Structural)]
pub enum CandidateFamily {
    Repdigit,
    Mersenne,
    MersennePrimeExponent,
    Fibonacci,
    Lucas,
    Tetranacci,
    ConsecutiveDigits,
}

impl CandidateFamily {
    /// All families, in the order in which they are listed.
    pub open spec fn all_spec() -> Seq<CandidateFamily> {
        seq![
            CandidateFamily::Repdigit,
            CandidateFamily::Mersenne,
            CandidateFamily::MersennePrimeExponent,
            CandidateFamily::Fibonacci,
            CandidateFamily::Lucas,
            CandidateFamily::Tetranacci,
            CandidateFamily::ConsecutiveDigits,
        ]
    }

    /// All families, in the order in which they are listed.
    pub fn all() -> (r: Vec<CandidateFamily>)
        ensures
            r@ == Self::all_spec(),
    {
        let r: Vec<CandidateFamily> = vec![
            CandidateFamily::Repdigit,
            CandidateFamily::Mersenne,
            CandidateFamily::MersennePrimeExponent,
            CandidateFamily::Fibonacci,
            CandidateFamily::Lucas,
            CandidateFamily::Tetranacci,
            CandidateFamily::ConsecutiveDigits,
        ];
        assert(r@ =~= Self::all_spec());
        r
    }

    /// The family that a name stands for.
    pub open spec fn named(name: Seq<char>) -> Option<CandidateFamily> {
        if name == "repdigit"@ || name == "repdigits"@ {
            Some(CandidateFamily::Repdigit)
        } else if name == "mersenne"@ || name == "mersennes"@ {
            Some(CandidateFamily::Mersenne)
        } else if name == "mersenne-prime-exp"@ || name == "mersenne-prime-exponent"@ || name
            == "prime-mersenne"@ {
            Some(CandidateFamily::MersennePrimeExponent)
        } else if name == "fibonacci"@ || name == "fib"@ {
            Some(CandidateFamily::Fibonacci)
        } else if name == "lucas"@ {
            Some(CandidateFamily::Lucas)
        } else if name == "tetranacci"@ {
            Some(CandidateFamily::Tetranacci)
        } else if name == "consecutive-digits"@ || name == "digit-run"@ || name == "digit-runs"@ {
            Some(CandidateFamily::ConsecutiveDigits)
        } else {
            None
        }
    }

    /// The family that a name stands for.
    pub fn parse(name: &str) -> (r: Option<CandidateFamily>)
        ensures
            r == Self::named(name@),
    {
        if same_text(name, "repdigit") || same_text(name, "repdigits") {
            Some(CandidateFamily::Repdigit)
        } else if same_text(name, "mersenne") || same_text(name, "mersennes") {
            Some(CandidateFamily::Mersenne)
        } else if same_text(name, "mersenne-prime-exp") || same_text(name, "mersenne-prime-exponent") || same_text(
            name,
            "prime-mersenne",
        ) {
            Some(CandidateFamily::MersennePrimeExponent)
        } else if same_text(name, "fibonacci") || same_text(name, "fib") {
            Some(CandidateFamily::Fibonacci)
        } else if same_text(name, "lucas") {
            Some(CandidateFamily::Lucas)
        } else if same_text(name, "tetranacci") {
            Some(CandidateFamily::Tetranacci)
        } else if same_text(name, "consecutive-digits") || same_text(name, "digit-run") || same_text(
            name,
            "digit-runs",
        ) {
            Some(CandidateFamily::ConsecutiveDigits)
        } else {
            None
        }
    }

    /// The name under which a family is listed.
    pub open spec fn name_spec(self) -> Seq<char> {
        match self {
            CandidateFamily::Repdigit => "repdigit"@,
            CandidateFamily::Mersenne => "mersenne"@,
            CandidateFamily::MersennePrimeExponent => "mersenne-prime-exp"@,
            CandidateFamily::Fibonacci => "fibonacci"@,
            CandidateFamily::Lucas => "lucas"@,
            CandidateFamily::Tetranacci => "tetranacci"@,
            CandidateFamily::ConsecutiveDigits => "consecutive-digits"@,
        }
    }

    /// The name under which a family is listed.
    pub fn name(self) -> (r: &'static str)
        ensures
            r@ == self.name_spec(),
    {
        match self {
            CandidateFamily::Repdigit => "repdigit",
            CandidateFamily::Mersenne => "mersenne",
            CandidateFamily::MersennePrimeExponent => "mersenne-prime-exp",
            CandidateFamily::Fibonacci => "fibonacci",
            CandidateFamily::Lucas => "lucas",
            CandidateFamily::Tetranacci => "tetranacci",
            CandidateFamily::ConsecutiveDigits => "consecutive-digits",
        }
    }
}

/// A family's listed name stands for that family.
pub proof fn law_name_parses(family: CandidateFamily)
    ensures
        CandidateFamily::named(family.name_spec()) == Some(family),
{
    reveal_strlit("repdigit");
    reveal_strlit("repdigits");
    reveal_strlit("mersenne");
    reveal_strlit("mersennes");
    reveal_strlit("mersenne-prime-exp");
    reveal_strlit("mersenne-prime-exponent");
    reveal_strlit("prime-mersenne");
    reveal_strlit("fibonacci");
    reveal_strlit("fib");
    reveal_strlit("lucas");
    reveal_strlit("tetranacci");
    reveal_strlit("consecutive-digits");
    reveal_strlit("digit-run");
    reveal_strlit("digit-runs");
    let name = family.name_spec();
    match family {
        CandidateFamily::Repdigit => {},
        CandidateFamily::Mersenne => {
            assert(name[0] == 'm');
        },
        CandidateFamily::MersennePrimeExponent => {
            assert(name.len() == 18);
        },
        CandidateFamily::Fibonacci => {
            assert(name[0] == 'f');
        },
        CandidateFamily::Lucas => {
            assert(name[0] == 'l');
        },
        CandidateFamily::Tetranacci => {
            assert(name[0] == 't');
        },
        CandidateFamily::ConsecutiveDigits => {
            assert(name[0] == 'c');
        },
    }
}

/// The families' names with `sep` between each two.
pub open spec fn joined_names(families: Seq<CandidateFamily>, sep: Seq<char>) -> Seq<char>
    decreases families.len(),
{
    if families.len() == 0 {
        Seq::empty()
    } else if families.len() == 1 {
        families[0].name_spec()
    } else {
        joined_names(families.drop_last(), sep) + sep + families.last().name_spec()
    }
}

/// The families' names with `sep` between each two.
fn join_names(families: &[CandidateFamily], sep: &str) -> (r: String)
    ensures
        r@ == joined_names(families@, sep@),
{
    let mut out = String::new();
    let mut i: usize = 0;
    let ghost all = families@;
    assert(all.take(0) =~= Seq::empty());
    while i < families.len()
        invariant
            i <= all.len(),
            all == families@,
            out@ == joined_names(all.take(i as int), sep@),
        decreases all.len() - i,
    {
        if i > 0 {
            out.append(sep);
        }
        out.append(families[i].name());
        proof {
            assert(all.take(i + 1).drop_last() =~= all.take(i as int));
            assert(out@ =~= joined_names(all.take(i + 1), sep@));
        }
        i = i + 1;
    }
    assert(all.take(i as int) =~= all);
    out
}

/// The families' names, separated by commas.
pub fn family_names(families: &[CandidateFamily]) -> (r: String)
    ensures
        r@ == joined_names(families@, ","@),
{
    join_names(families, ",")
}

/// The names of all families, separated by commas and spaces.
pub fn available_family_names() -> (r: String)
    ensures
        r@ == joined_names(CandidateFamily::all_spec(), ", "@),
{
    let all: Vec<CandidateFamily> = CandidateFamily::all();
    join_names(all.as_slice(), ", ")
}

/// `families` with only the first of equal ones.
pub open spec fn deduped(families: Seq<CandidateFamily>) -> Seq<CandidateFamily>
    decreases families.len(),
{
    if families.len() == 0 {
        Seq::empty()
    } else {
        let rest = deduped(families.drop_last());
        if rest.contains(families.last()) {
            rest
        } else {
            rest.push(families.last())
        }
    }
}

/// Dropping repeated families keeps every family, once.
pub proof fn law_deduped(families: Seq<CandidateFamily>)
    ensures
        deduped(families).no_duplicates(),
        forall|family: CandidateFamily| #[trigger] deduped(families).contains(family) <==> families.contains(family),
    decreases families.len(),
{
    if families.len() > 0 {
        let rest = families.drop_last();
        law_deduped(rest);
        assert forall|family: CandidateFamily| #[trigger]
            deduped(families).contains(family) <==> families.contains(family) by {
            assert(families == rest.push(families.last()));
            assert(rest.push(families.last()).contains(family) <==> rest.contains(family) || family
                == families.last()) by {
                vstd::seq_lib::lemma_seq_contains_after_push(rest, families.last(), family);
            }
            vstd::seq_lib::lemma_seq_contains_after_push(deduped(rest), families.last(), family);
        }
    }
}

/// Whether `family` is among `families`.
fn has_family(families: &Vec<CandidateFamily>, family: CandidateFamily) -> (r: bool)
    ensures
        r == families@.contains(family),
{
    let mut i: usize = 0;
    while i < families.len()
        invariant
            i <= families@.len(),
            forall|k: int| 0 <= k < i ==> families@[k] != family,
        decreases families@.len() - i,
    {
        if families[i] == family {
            assert(families@[i as int] == family);
            return true;
        }
        i = i + 1;
    }
    false
}

/// Drops from `families` every one that stands earlier in it.
pub fn dedup_families(families: &mut Vec<CandidateFamily>)
    ensures
        final(families)@ == deduped(old(families)@),
{
    let mut out: Vec<CandidateFamily> = Vec::new();
    let mut i: usize = 0;
    let ghost all = families@;
    assert(all.take(0) =~= Seq::empty());
    while i < families.len()
        invariant
            i <= all.len(),
            all == families@,
            out@ == deduped(all.take(i as int)),
        decreases all.len() - i,
    {
        assert(all.take(i + 1).drop_last() =~= all.take(i as int));
        if !has_family(&out, families[i]) {
            out.push(families[i]);
        }
        i = i + 1;
    }
    assert(all.take(i as int) =~= all);
    *families = out;
}

/// The families that a list of names stands for, or the first name that stands for none. Names
/// are taken without white space around them, empty ones are passed over, and `all` stands for
/// every family.
pub open spec fn families_in(names: Seq<Seq<char>>) -> Result<Seq<CandidateFamily>, Seq<char>>
    decreases names.len(),
{
    if names.len() == 0 {
        Ok(Seq::empty())
    } else {
        match families_in(names.drop_last()) {
            Err(name) => Err(name),
            Ok(families) => {
                let name = trimmed(names.last());
                if name.len() == 0 {
                    Ok(families)
                } else if name == "all"@ {
                    Ok(families + CandidateFamily::all_spec())
                } else {
                    match CandidateFamily::named(name) {
                        Some(family) => Ok(families.push(family)),
                        None => Err(name),
                    }
                }
            },
        }
    }
}

/// A list of names that fails goes on failing.
proof fn lemma_families_fail(names: Seq<Seq<char>>, k: int)
    requires
        0 <= k <= names.len(),
        families_in(names.take(k)) is Err,
    ensures
        families_in(names) == families_in(names.take(k)),
    decreases names.len() - k,
{
    if k < names.len() {
        assert(names.take(k + 1).drop_last() =~= names.take(k));
        lemma_families_fail(names, k + 1);
    } else {
        assert(names.take(k) =~= names);
    }
}

/// The parts of the beginning of a text are the beginning of the parts, but for the last one.
proof fn lemma_split_prefix(s: Seq<char>, sep: char, i: int)
    requires
        0 <= i <= s.len(),
    ensures
        split_on(s.take(i), sep).len() <= split_on(s, sep).len(),
        split_on(s.take(i), sep).len() >= 1,
        forall|k: int|
            0 <= k < split_on(s.take(i), sep).len() - 1 ==> #[trigger] split_on(s, sep)[k] == split_on(
                s.take(i),
                sep,
            )[k],
    decreases s.len() - i,
{
    crate::text::lemma_split_on(s.take(i), sep);
    if i < s.len() {
        lemma_split_prefix(s, sep, i + 1);
        assert(s.take(i + 1).drop_last() =~= s.take(i));
        let a = split_on(s.take(i), sep);
        let b = split_on(s.take(i + 1), sep);
        assert forall|k: int| 0 <= k < a.len() - 1 implies #[trigger] split_on(s, sep)[k] == a[k] by {
            assert(b[k] == a[k]);
        }
    } else {
        assert(s.take(i) =~= s);
    }
}

/// The families that a comma-separated list of names stands for.
pub fn parse_family_list(value: &str) -> (r: Result<Vec<CandidateFamily>, ArgsError>)
    ensures
        match families_in(split_on(value@, ',')) {
            Ok(families) => r is Ok && r->Ok_0@ == families,
            Err(name) => r is Err && r->Err_0@ == (ArgsErrorView::UnknownFamily { name }),
        },
{
    let chars: Vec<char> = chars_of(value);
    let ghost s = value@;
    let ghost names = split_on(s, ',');
    let mut families: Vec<CandidateFamily> = Vec::new();
    let mut start: usize = 0;
    let mut i: usize = 0;
    let ghost mut done: int = 0;
    proof {
        assert(s.take(0) =~= Seq::empty());
        assert(names.take(0) =~= Seq::empty());
        assert(s.subrange(0, 0) =~= Seq::empty());
    }
    loop
        invariant
            s == value@,
            chars@ == s,
            names == split_on(s, ','),
            start <= i <= s.len(),
            done == split_on(s.take(i as int), ',').len() - 1,
            split_on(s.take(i as int), ',').last() == s.subrange(start as int, i as int),
            families_in(names.take(done)) == Ok::<Seq<CandidateFamily>, Seq<char>>(families@),
        decreases s.len() - i,
    {
        proof {
            lemma_split_prefix(s, ',', i as int);
            assert(s.take(s.len() as int) =~= s);
        }
        if i == chars.len() || chars[i] == ',' {
            let ghost piece = s.subrange(start as int, i as int);
            proof {
                if i < s.len() {
                    lemma_split_prefix(s, ',', i + 1);
                    assert(s.take(i + 1).drop_last() =~= s.take(i as int));
                    assert(split_on(s.take(i + 1), ',')[done] == piece);
                }
                assert(names[done] == piece);
                assert(names.take(done + 1).drop_last() =~= names.take(done));
                if families_in(names.take(done + 1)) is Err {
                    lemma_families_fail(names, done + 1);
                }
            }
            let (from, to) = trim_bounds(&chars, start, i);
            if from < to {
                let item: &str = value.substring_char(from, to);
                if same_text(item, "all") {
                    let mut every: Vec<CandidateFamily> = CandidateFamily::all();
                    families.append(&mut every);
                } else {
                    match CandidateFamily::parse(item) {
                        Some(family) => {
                            families.push(family);
                        },
                        None => {
                            return Err(ArgsError::UnknownFamily { name: item.to_owned() });
                        },
                    }
                }
            }
            if i == chars.len() {
                assert(names.take(done + 1) =~= names);
                return Ok(families);
            }
            start = i + 1;
            proof {
                done = done + 1;
                assert(s.subrange(start as int, start as int) =~= Seq::empty());
            }
        } else {
            proof {
                assert(s.take(i + 1).drop_last() =~= s.take(i as int));
                assert(s.subrange(start as int, i + 1) =~= s.subrange(start as int, i as int).push(s[i as int]));
            }
        }
        i = i + 1;
    }
}

/// Why the arguments do not say what to do.
#[derive(Debug)]
pub enum ArgsError {
    /// The last argument is one that needs a value.
    MissingValue { flag: String },
    /// A value is not a number in range.
    Number { cause: NumberError },
    /// No threads were asked for.
    ZeroThreads,
    /// The number of threads does not fit `usize`.
    TooManyThreads { threads: u64 },
    /// The name stands for no family.
    UnknownFamily { name: String },
    /// There is no such argument.
    UnknownArgument { arg: String },
    /// The bounds are the wrong way round.
    MinAboveMax { min: u64, max: u64 },
    /// The list of families is empty.
    NoFamily,
}

/// What an [`ArgsError`] says, with its texts as sequences of characters.
pub ghost enum ArgsErrorView {
    MissingValue { flag: Seq<char> },
    Number { cause: NumberError },
    ZeroThreads,
    TooManyThreads { threads: u64 },
    UnknownFamily { name: Seq<char> },
    UnknownArgument { arg: Seq<char> },
    MinAboveMax { min: u64, max: u64 },
    NoFamily,
}

impl View for ArgsError {
    type V = ArgsErrorView;

    open spec fn view(&self) -> ArgsErrorView {
        match *self {
            ArgsError::MissingValue { flag } => ArgsErrorView::MissingValue { flag: flag@ },
            ArgsError::Number { cause } => ArgsErrorView::Number { cause },
            ArgsError::ZeroThreads => ArgsErrorView::ZeroThreads,
            ArgsError::TooManyThreads { threads } => ArgsErrorView::TooManyThreads { threads },
            ArgsError::UnknownFamily { name } => ArgsErrorView::UnknownFamily { name: name@ },
            ArgsError::UnknownArgument { arg } => ArgsErrorView::UnknownArgument { arg: arg@ },
            ArgsError::MinAboveMax { min, max } => ArgsErrorView::MinAboveMax { min, max },
            ArgsError::NoFamily => ArgsErrorView::NoFamily,
        }
    }
}

impl ArgsErrorView {
    /// The error in words.
    pub open spec fn message(self) -> Seq<char> {
        match self {
            ArgsErrorView::MissingValue { flag } => flag + " needs a value"@,
            ArgsErrorView::Number { cause } => cause.message_spec(),
            ArgsErrorView::ZeroThreads => "--threads must be at least 1"@,
            ArgsErrorView::TooManyThreads { threads } => {
                "--threads value "@ + decimal(threads as nat) + " does not fit usize"@
            },
            ArgsErrorView::UnknownFamily { name } => {
                "unknown family "@ + name + "; expected one of "@ + joined_names(
                    CandidateFamily::all_spec(),
                    ", "@,
                ) + " or all"@
            },
            ArgsErrorView::UnknownArgument { arg } => "unknown argument "@ + arg + "; run with --help"@,
            ArgsErrorView::MinAboveMax { min, max } => {
                "--min "@ + decimal(min as nat) + " is greater than --max "@ + decimal(max as nat)
            },
            ArgsErrorView::NoFamily => "at least one --family value is required"@,
        }
    }
}

impl ArgsError {
    /// The error in words.
    pub fn message(&self) -> (r: String)
        ensures
            r@ == self@.message(),
    {
        let mut out = String::new();
        match self {
            ArgsError::MissingValue { flag } => {
                out.append(flag.as_str());
                out.append(" needs a value");
            },
            ArgsError::Number { cause } => {
                out.append(cause.message());
            },
            ArgsError::ZeroThreads => {
                out.append("--threads must be at least 1");
            },
            ArgsError::TooManyThreads { threads } => {
                out.append("--threads value ");
                push_decimal(&mut out, *threads as u128);
                out.append(" does not fit usize");
            },
            ArgsError::UnknownFamily { name } => {
                out.append("unknown family ");
                out.append(name.as_str());
                out.append("; expected one of ");
                out.append(available_family_names().as_str());
                out.append(" or all");
            },
            ArgsError::UnknownArgument { arg } => {
                out.append("unknown argument ");
                out.append(arg.as_str());
                out.append("; run with --help");
            },
            ArgsError::MinAboveMax { min, max } => {
                out.append("--min ");
                push_decimal(&mut out, *min as u128);
                out.append(" is greater than --max ");
                push_decimal(&mut out, *max as u128);
            },
            ArgsError::NoFamily => {
                out.append("at least one --family value is required");
            },
        }
        assert(out@ =~= self@.message());
        out
    }
}

} // verus!
