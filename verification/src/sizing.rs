//! How large a sieve to make.
use crate::args::{Config, ConfigView};
use crate::lucky::odds;
use crate::sieve::{failure_of, words_for, LuckySieve, SieveError};
use crate::text::{chars_of, is_space, is_space_char, parse_number, read_number, skip_space, split_on, trim_start};
use vstd::prelude::*;
use vstd::string::*;

verus! {

/// Why no size can be chosen.
#[derive(Debug, Clone, Copy, PartialEq, Eq, Structural)]
pub enum SizeError {
    /// Neither the arguments nor the machine say how much memory there is.
    UnknownMemory,
    /// The memory does not hold a single word.
    EmptySieve,
}

impl SizeError {
    /// The error in words.
    pub open spec fn message_spec(self) -> Seq<char> {
        match self {
            SizeError::UnknownMemory => "could not read MemAvailable; pass --memory-mib or --limit"@,
            SizeError::EmptySieve => "sieve memory budget is too small to hold any words"@,
        }
    }

    /// The error in words.
    pub fn message(self) -> (r: &'static str)
        ensures
            r@ == self.message_spec(),
    {
        match self {
            SizeError::UnknownMemory => "could not read MemAvailable; pass --memory-mib or --limit",
            SizeError::EmptySieve => "sieve memory budget is too small to hold any words",
        }
    }
}

/// The bytes in one MiB.
pub open spec fn mib() -> int {
    1_048_576
}

/// The bytes that the sieve may take: what the arguments give, or what is available less what
/// is to be left free.
pub open spec fn memory_budget(config: ConfigView, available: Option<u128>) -> Option<int> {
    match (config.memory_mib, available) {
        (Some(m), _) => Some(m * mib()),
        (None, Some(bytes)) => Some(
            if bytes >= config.reserve_mib * mib() {
                bytes - config.reserve_mib * mib()
            } else {
                0
            },
        ),
        (None, None) => None,
    }
}

/// How many words of bitset and tree fit a budget: each takes sixteen bytes, and the tree one
/// word more.
pub open spec fn budget_words(budget: int) -> int {
    if budget >= 8 {
        (budget - 8) / 16
    } else {
        0
    }
}

/// How many odd numbers a sieve of `words` words is made for: all its bits, but no more odd
/// numbers than there are in `u64`, nor than there are up to the limit where one is given.
pub open spec fn odds_for(words: int, sieve_limit: Option<u64>) -> int {
    let room = if words * 64 <= 0x8000_0000_0000_0000 {
        words * 64
    } else {
        0x8000_0000_0000_0000
    };
    match sieve_limit {
        Some(limit) => if (limit + 1) / 2 < room {
            (limit + 1) / 2
        } else {
            room
        },
        None => room,
    }
}

/// How many odd numbers to sieve; `available` is the memory that the machine has free, where
/// that is known.
pub fn choose_sieve_size(config: &Config, available: Option<u128>) -> (r: Result<u64, SizeError>)
    ensures
        match memory_budget(config@, available) {
            None => r == Err::<u64, SizeError>(SizeError::UnknownMemory),
            Some(budget) => if budget_words(budget) == 0 {
                r == Err::<u64, SizeError>(SizeError::EmptySieve)
            } else {
                r is Ok && r->Ok_0 == odds_for(budget_words(budget), config@.sieve_limit)
            },
        },
{
    let budget: u128 = match config.memory_mib {
        Some(m) => (m as u128) * 1024 * 1024,
        None => {
            match available {
                None => {
                    return Err(SizeError::UnknownMemory);
                },
                Some(bytes) => {
                    let reserve: u128 = (config.reserve_mib as u128) * 1024 * 1024;
                    bytes.saturating_sub(reserve)
                },
            }
        },
    };
    let words: u128 = budget.saturating_sub(8) / 16;
    if words == 0 {
        return Err(SizeError::EmptySieve);
    }
    let most_words: u128 = (u64::MAX as u128 + 63) / 64;
    let held_words: u128 = if words < most_words {
        words
    } else {
        most_words
    };
    let most_odds: u128 = (u64::MAX as u128 + 1) / 2;
    let room: u128 = if held_words * 64 < most_odds {
        held_words * 64
    } else {
        most_odds
    };
    let n_odds: u128 = match config.sieve_limit {
        Some(limit) => {
            let limit_odds: u128 = (limit as u128 + 1) / 2;
            if limit_odds < room {
                limit_odds
            } else {
                room
            }
        },
        None => room,
    };
    Ok(n_odds as u64)
}

/// A sieve of the chosen size fits the budget and holds no number above the limit.
pub proof fn law_chosen_size_fits(budget: int, sieve_limit: Option<u64>)
    requires
        budget_words(budget) > 0,
    ensures
        ({
            let n_odds = odds_for(budget_words(budget), sieve_limit);
            &&& 16 * words_for(n_odds) + 8 <= budget
            &&& sieve_limit matches Some(limit) ==> 2 * n_odds - 1 <= limit
        }),
{
}

/// The chosen size is the largest that fits: it fits the memory that the arguments give, or what
/// the machine has free less what is to be left free, and it holds no number above the limit; any
/// larger size breaks one of these or leaves `u64`. No size is chosen exactly where not a single
/// word fits or nothing is known of the memory.
pub proof fn law_chosen_size_is_largest(
    config: &Config,
    available: Option<u128>,
    r: Result<u64, SizeError>,
    n: int,
)
    requires
        call_ensures(choose_sieve_size, (config, available), r),
    ensures
        ({
            let holds = |words: int| match (config.memory_mib, available) {
                (Some(m), _) => 16 * words + 8 <= m * 1_048_576,
                (None, Some(bytes)) => 16 * words + 8 + config.reserve_mib * 1_048_576 <= bytes,
                (None, None) => false,
            };
            let within = |k: int| config.sieve_limit matches Some(limit) ==> 2 * k - 1 <= limit;
            match r {
                Ok(chosen) => {
                    &&& holds((chosen + 63) / 64)
                    &&& within(chosen as int)
                    &&& chosen <= 0x8000_0000_0000_0000
                    &&& 1 <= n <= 0x8000_0000_0000_0000 && holds((n + 63) / 64) && within(n) ==> n <= chosen
                },
                Err(SizeError::UnknownMemory) => config.memory_mib is None && available is None,
                Err(SizeError::EmptySieve) => !holds(1) && (config.memory_mib is Some || available is Some),
            }
        }),
{
}

/// A line of the back-off: the sizes tried are the target and then, each time, nine tenths of the
/// tens of the one before; every size but the last was refused, and the last was refused only
/// where no smaller one is left.
pub proof fn law_back_off(
    target_n_odds: u64,
    r: (Vec<(u64, SieveError)>, Result<LuckySieve, SieveError>),
    k: int,
)
    requires
        call_ensures(allocate_sieve_with_backoff, (target_n_odds,), r),
        0 <= k <= r.0@.len(),
    ensures
        ({
            let failed = r.0@;
            &&& 0 < failed.len() ==> failed[0].0 == target_n_odds
            &&& 0 < k < failed.len() ==> failed[k].0 == failed[k - 1].0 / 10 * 9
            &&& k < failed.len() ==> attempted(failed[k].0, Err(failed[k].1))
            &&& exists|last: u64|
                {
                    &&& #[trigger] attempted(last, r.1)
                    &&& last == if failed.len() == 0 {
                        target_n_odds as int
                    } else {
                        failed[failed.len() - 1].0 as int / 10 * 9
                    }
                    &&& r.1 matches Ok(sieve) ==> sieve.n_odds == last
                    &&& r.1 is Err ==> last < 10
                }
        }),
{
    let failed = r.0@;
    let last = choose|last: u64| #[trigger]
        attempted(last, r.1) && last == reduced_times(target_n_odds as int, failed.len());
    assert(attempted(last, r.1));
    if 0 < failed.len() {
        assert(failed[0].0 == reduced_times(target_n_odds as int, 0));
        assert(failed[failed.len() - 1].0 == reduced_times(target_n_odds as int, (failed.len() - 1) as nat));
    }
    if 0 < k < failed.len() {
        assert(failed[k].0 == reduced_times(target_n_odds as int, k as nat));
        assert(failed[k - 1].0 == reduced_times(target_n_odds as int, (k - 1) as nat));
    }
}

/// The next size to try where a sieve could not be made: nine tenths, while that is smaller and
/// not zero.
pub open spec fn reduced(n_odds: int) -> int {
    n_odds / 10 * 9
}

/// The next size to try where a sieve of `n_odds` odd numbers could not be made.
pub fn reduced_size(n_odds: u64) -> (r: Option<u64>)
    ensures
        r == if reduced(n_odds as int) == n_odds || reduced(n_odds as int) == 0 {
            None::<u64>
        } else {
            Some(reduced(n_odds as int) as u64)
        },
        r matches Some(next) ==> next < n_odds,
{
    let next: u64 = n_odds / 10 * 9;
    if next == n_odds || next == 0 {
        None
    } else {
        Some(next)
    }
}

/// What to do after an attempt to make a sieve.
pub enum NextTry {
    /// To stop with what came of it.
    Stop { outcome: Result<LuckySieve, SieveError> },
    /// To try a smaller size after the error.
    Retry { n_odds: u64, error: SieveError },
}

/// What to do after an attempt to make a sieve of `n_odds` odd numbers: a failure is followed by
/// another attempt while there is a smaller size.
pub fn after_try(n_odds: u64, outcome: Result<LuckySieve, SieveError>) -> (r: NextTry)
    ensures
        r == if outcome is Err && 0 < reduced(n_odds as int) && reduced(n_odds as int) != n_odds {
            NextTry::Retry { n_odds: reduced(n_odds as int) as u64, error: outcome->Err_0 }
        } else {
            NextTry::Stop { outcome }
        },
{
    match outcome {
        Ok(sieve) => NextTry::Stop { outcome: Ok(sieve) },
        Err(error) => match reduced_size(n_odds) {
            Some(next) => NextTry::Retry { n_odds: next, error },
            None => NextTry::Stop { outcome: Err(error) },
        },
    }
}

/// Whether `outcome` is what came of one attempt to make a sieve of `n_odds` odd numbers.
pub open spec fn attempted(n_odds: u64, outcome: Result<LuckySieve, SieveError>) -> bool {
    call_ensures(LuckySieve::new, (n_odds,), outcome)
}

/// The size after `k` reductions.
pub open spec fn reduced_times(n_odds: int, k: nat) -> int
    decreases k,
{
    if k == 0 {
        n_odds
    } else {
        reduced(reduced_times(n_odds, (k - 1) as nat))
    }
}

/// A sieve of `target_n_odds` odd numbers, or of fewer where the memory for so many cannot be
/// had: each failure is followed by a try with nine tenths. Hands back the sizes that failed and
/// were followed by another try, each with its error.
pub fn allocate_sieve_with_backoff(target_n_odds: u64) -> (r: (
    Vec<(u64, SieveError)>,
    Result<LuckySieve, SieveError>,
))
    ensures
        forall|k: int|
            0 <= k < r.0@.len() ==> (#[trigger] r.0@[k]).0 == reduced_times(target_n_odds as int, k as nat)
                && failure_of(r.0@[k].1, r.0@[k].0 as int),
        match r.1 {
            Ok(sieve) => {
                &&& sieve.wf()
                &&& sieve.n_odds == reduced_times(target_n_odds as int, r.0@.len())
                &&& sieve@ == odds(sieve.n_odds as nat)
            },
            Err(error) => {
                let last = reduced_times(target_n_odds as int, r.0@.len());
                &&& failure_of(error, last)
                &&& reduced(last) == last || reduced(last) == 0
            },
        },
        target_n_odds == 0 ==> r.0@.len() == 0,
        target_n_odds == 0 <==> r.1 is Err && r.1->Err_0 is EmptySieve,
        forall|k: int|
            0 <= k < r.0@.len() ==> attempted((#[trigger] r.0@[k]).0, Err(r.0@[k].1)),
        exists|size: u64| #[trigger]
            attempted(size, r.1) && size == reduced_times(
                target_n_odds as int,
                r.0@.len(),
            ),
{
    let mut failed: Vec<(u64, SieveError)> = Vec::new();
    let mut n_odds: u64 = target_n_odds;
    loop
        invariant
            n_odds == reduced_times(target_n_odds as int, failed@.len()),
            target_n_odds == 0 ==> failed@.len() == 0,
            target_n_odds == 0 <==> n_odds == 0,
            forall|k: int|
                0 <= k < failed@.len() ==> attempted((#[trigger] failed@[k]).0, Err(failed@[k].1)),
            forall|k: int|
                0 <= k < failed@.len() ==> (#[trigger] failed@[k]).0 == reduced_times(
                    target_n_odds as int,
                    k as nat,
                ) && failure_of(failed@[k].1, failed@[k].0 as int),
        decreases n_odds,
    {
        let outcome: Result<LuckySieve, SieveError> = LuckySieve::new(n_odds);
        assert(attempted(n_odds, outcome));
        match after_try(n_odds, outcome) {
            NextTry::Stop { outcome } => {
                return (failed, outcome);
            },
            NextTry::Retry { n_odds: next, error } => {
                failed.push((n_odds, error));
                n_odds = next;
            },
        }
    }
}

/// The label of the line that gives the available memory.
pub open spec fn memory_label() -> Seq<char> {
    "MemAvailable:"@
}

/// The beginning of a text up to its first white space.
pub open spec fn first_word(s: Seq<char>) -> Seq<char>
    decreases s.len(),
{
    if s.len() == 0 || is_space(s[0]) {
        Seq::empty()
    } else {
        seq![s[0]] + first_word(s.skip(1))
    }
}

/// The number of KiB that a line with the label gives: its first word, where that is a number.
pub open spec fn line_kib(line: Seq<char>) -> Option<nat> {
    let word = first_word(trim_start(line.skip(13)));
    if word.len() == 0 {
        None
    } else {
        match read_number(word, u128::MAX as nat) {
            Ok(v) => Some(v),
            Err(_) => None,
        }
    }
}

/// The number of KiB that the first line with the label gives.
pub open spec fn first_labelled(lines: Seq<Seq<char>>) -> Option<nat>
    decreases lines.len(),
{
    if lines.len() == 0 {
        None
    } else if memory_label().is_prefix_of(lines[0]) {
        line_kib(lines[0])
    } else {
        first_labelled(lines.skip(1))
    }
}

/// The available memory, in KiB, that a listing in the form of `/proc/meminfo` gives.
pub open spec fn available_kib(meminfo: Seq<char>) -> Option<nat> {
    first_labelled(split_on(meminfo, '\n'))
}

/// Where the line that begins at `from` ends.
fn line_end(chars: &Vec<char>, from: usize) -> (to: usize)
    requires
        from <= chars@.len(),
    ensures
        from <= to <= chars@.len(),
        forall|k: int| from <= k < to ==> chars@[k] != '\n',
        to < chars@.len() ==> chars@[to as int] == '\n',
{
    let mut to: usize = from;
    while to < chars.len() && chars[to] != '\n'
        invariant
            from <= to <= chars@.len(),
            forall|k: int| from <= k < to ==> chars@[k] != '\n',
        decreases chars@.len() - to,
    {
        to = to + 1;
    }
    to
}

/// A text without the separator is its only part.
proof fn lemma_split_none(s: Seq<char>, sep: char)
    requires
        forall|k: int| 0 <= k < s.len() ==> s[k] != sep,
    ensures
        split_on(s, sep) == seq![s],
    decreases s.len(),
{
    if s.len() > 0 {
        lemma_split_none(s.drop_last(), sep);
        assert(s.drop_last().push(s.last()) =~= s);
    } else {
        assert(s =~= Seq::empty());
    }
    assert(split_on(s, sep) =~= seq![s]);
}

/// The first part ends at the first separator, and the rest has the other parts.
proof fn lemma_split_first(s: Seq<char>, sep: char, e: int)
    requires
        0 <= e < s.len(),
        s[e] == sep,
        forall|k: int| 0 <= k < e ==> s[k] != sep,
    ensures
        split_on(s, sep) == seq![s.take(e)] + split_on(s.skip(e + 1), sep),
    decreases s.len(),
{
    let rest = s.skip(e + 1);
    crate::text::lemma_split_on(rest, sep);
    if s.len() == e + 1 {
        assert(s.drop_last() =~= s.take(e));
        lemma_split_none(s.take(e), sep);
        assert(rest =~= Seq::empty());
    } else {
        lemma_split_first(s.drop_last(), sep, e);
        assert(s.drop_last().take(e) =~= s.take(e));
        assert(s.drop_last().skip(e + 1) =~= rest.drop_last());
        crate::text::lemma_split_on(rest.drop_last(), sep);
    }
    assert(split_on(s, sep) =~= seq![s.take(e)] + split_on(rest, sep));
}

/// Where the word that begins at `from` ends, within `to`.
fn word_end(chars: &Vec<char>, from: usize, to: usize) -> (end: usize)
    requires
        from <= to <= chars@.len(),
    ensures
        from <= end <= to,
        chars@.subrange(from as int, end as int) == first_word(chars@.subrange(from as int, to as int)),
{
    let mut end: usize = from;
    while end < to && !is_space_char(chars[end])
        invariant
            from <= end <= to <= chars@.len(),
            first_word(chars@.subrange(from as int, to as int)) == chars@.subrange(from as int, end as int)
                + first_word(chars@.subrange(end as int, to as int)),
        decreases to - end,
    {
        proof {
            let here = chars@.subrange(end as int, to as int);
            assert(here.skip(1) =~= chars@.subrange(end + 1, to as int));
            assert(chars@.subrange(from as int, end as int) + (seq![here[0]] + first_word(here.skip(1)))
                =~= chars@.subrange(from as int, end + 1) + first_word(here.skip(1)));
        }
        end = end + 1;
    }
    assert(first_word(chars@.subrange(end as int, to as int)) =~= Seq::empty());
    assert(chars@.subrange(from as int, end as int) + Seq::<char>::empty() =~= chars@.subrange(
        from as int,
        end as int,
    ));
    end
}

/// Whether the line `from .. to` begins with the label.
fn has_memory_label(chars: &Vec<char>, from: usize, to: usize) -> (r: bool)
    requires
        from <= to <= chars@.len(),
    ensures
        r == memory_label().is_prefix_of(chars@.subrange(from as int, to as int)),
{
    let label: Vec<char> = chars_of("MemAvailable:");
    let ghost line = chars@.subrange(from as int, to as int);
    if to - from < label.len() {
        return false;
    }
    let mut k: usize = 0;
    while k < label.len()
        invariant
            from <= to <= chars@.len(),
            label@ == memory_label(),
            line == chars@.subrange(from as int, to as int),
            k <= label@.len() <= line.len(),
            forall|j: int| 0 <= j < k ==> label@[j] == line[j],
        decreases label@.len() - k,
    {
        if chars[from + k] != label[k] {
            assert(line[k as int] != label@[k as int]);
            assert(line.subrange(0, label@.len() as int)[k as int] == line[k as int]);
            return false;
        }
        k = k + 1;
    }
    assert(label@ =~= line.subrange(0, label@.len() as int));
    true
}

/// The available memory, in KiB, that a listing in the form of `/proc/meminfo` gives.
pub fn mem_available_kib(meminfo: &str) -> (r: Option<u128>)
    ensures
        match available_kib(meminfo@) {
            Some(v) => r is Some && r->0 == v,
            None => r is None,
        },
{
    let chars: Vec<char> = chars_of(meminfo);
    let ghost s = meminfo@;
    let mut from: usize = 0;
    assert(s.skip(0) =~= s);
    loop
        invariant
            s == meminfo@,
            chars@ == s,
            from <= s.len(),
            available_kib(s) == first_labelled(split_on(s.skip(from as int), '\n')),
        decreases s.len() - from,
    {
        let to: usize = line_end(&chars, from);
        let ghost rest = s.skip(from as int);
        let ghost line = s.subrange(from as int, to as int);
        let ghost lines = split_on(rest, '\n');
        proof {
            if to < s.len() {
                lemma_split_first(rest, '\n', to - from);
                assert(rest.take(to - from) =~= line);
                assert(rest.skip(to - from + 1) =~= s.skip(to + 1));
                assert(lines.skip(1) =~= split_on(s.skip(to + 1), '\n'));
            } else {
                lemma_split_none(rest, '\n');
                assert(rest =~= line);
                assert(lines.skip(1) =~= Seq::empty());
            }
            assert(lines[0] == line);
        }
        if has_memory_label(&chars, from, to) {
            proof {
                reveal_strlit("MemAvailable:");
                assert(line.skip(13) =~= s.subrange(from + 13, to as int));
            }
            let start: usize = skip_space(&chars, from + 13, to);
            let end: usize = word_end(&chars, start, to);
            if start == end {
                return None;
            }
            return match parse_number(&chars, start, end, u128::MAX) {
                Ok(v) => Some(v),
                Err(_) => None,
            };
        }
        if to == chars.len() {
            assert(first_labelled(lines.skip(1)) is None);
            return None;
        }
        from = to + 1;
    }
}

/// The available memory, in bytes, that a listing in the form of `/proc/meminfo` gives.
pub fn mem_available_bytes(meminfo: &str) -> (r: Option<u128>)
    requires
        available_kib(meminfo@) matches Some(v) ==> v * 1024 <= u128::MAX,
    ensures
        match available_kib(meminfo@) {
            Some(v) => r is Some && r->0 == v * 1024,
            None => r is None,
        },
{
    match mem_available_kib(meminfo) {
        Some(kib) => Some(kib * 1024),
        None => None,
    }
}

} // verus!
