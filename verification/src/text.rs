//! Building and reading text.
use vstd::prelude::*;
use vstd::string::*;

verus! {

/// The character of a decimal digit.
pub open spec fn digit_char(d: int) -> char {
    (48 + d) as char
}

/// The decimal digits of `n`, without leading zeros.
pub open spec fn decimal(n: nat) -> Seq<char>
    decreases n,
{
    if n < 10 {
        seq![digit_char(n as int)]
    } else {
        decimal(n / 10).push(digit_char((n % 10) as int))
    }
}

/// The text of one decimal digit.
fn digit_text(d: u8) -> (r: &'static str)
    requires
        d < 10,
    ensures
        r@ == seq![digit_char(d as int)],
{
    proof {
        reveal_strlit("0");
        reveal_strlit("1");
        reveal_strlit("2");
        reveal_strlit("3");
        reveal_strlit("4");
        reveal_strlit("5");
        reveal_strlit("6");
        reveal_strlit("7");
        reveal_strlit("8");
        reveal_strlit("9");
    }
    let r: &'static str = match d {
        0 => "0",
        1 => "1",
        2 => "2",
        3 => "3",
        4 => "4",
        5 => "5",
        6 => "6",
        7 => "7",
        8 => "8",
        _ => "9",
    };
    assert(r@ =~= seq![digit_char(d as int)]);
    r
}

/// Appends the decimal digits of `n`.
pub fn push_decimal(out: &mut String, n: u128)
    ensures
        final(out)@ == old(out)@ + decimal(n as nat),
    decreases n,
{
    if n < 10 {
        out.append(digit_text(n as u8));
    } else {
        push_decimal(out, n / 10);
        out.append(digit_text((n % 10) as u8));
        assert(out@ =~= old(out)@ + decimal(n as nat));
    }
}

/// Appends the decimal digits of `n`, with a leading zero where there is only one digit.
pub fn push_two_digits(out: &mut String, n: u64)
    requires
        n < 100,
    ensures
        final(out)@ == old(out)@ + two_digits(n as nat),
{
    if n < 10 {
        out.append("0");
        push_decimal(out, n as u128);
        proof {
            reveal_strlit("0");
            assert("0"@ =~= seq!['0']);
        }
        assert(out@ =~= old(out)@ + two_digits(n as nat));
    } else {
        push_decimal(out, n as u128);
    }
}

/// The decimal digits of `n` padded to at least two with a zero in front.
pub open spec fn two_digits(n: nat) -> Seq<char> {
    if n < 10 {
        seq!['0'] + decimal(n)
    } else {
        decimal(n)
    }
}

/// A number of seconds as hours, minutes and seconds, from the first unit that is not zero.
pub open spec fn duration_text(secs: nat) -> Seq<char> {
    let hours = secs / 3600;
    let mins = (secs % 3600) / 60;
    let rest = secs % 60;
    if hours > 0 {
        decimal(hours) + seq!['h'] + two_digits(mins) + seq!['m'] + two_digits(rest) + seq!['s']
    } else if mins > 0 {
        decimal(mins) + seq!['m'] + two_digits(rest) + seq!['s']
    } else {
        decimal(rest) + seq!['s']
    }
}

/// A number of seconds in the form `1h02m03s`, `2m03s` or `3s`.
pub fn human_duration(secs: u64) -> (r: String)
    ensures
        r@ == duration_text(secs as nat),
{
    let hours: u64 = secs / 3600;
    let mins: u64 = (secs % 3600) / 60;
    let rest: u64 = secs % 60;
    let mut out = String::new();
    proof {
        reveal_strlit("h");
        reveal_strlit("m");
        reveal_strlit("s");
        assert("h"@ =~= seq!['h']);
        assert("m"@ =~= seq!['m']);
        assert("s"@ =~= seq!['s']);
    }
    if hours > 0 {
        push_decimal(&mut out, hours as u128);
        out.append("h");
        push_two_digits(&mut out, mins);
        out.append("m");
        push_two_digits(&mut out, rest);
    } else if mins > 0 {
        push_decimal(&mut out, mins as u128);
        out.append("m");
        push_two_digits(&mut out, rest);
    } else {
        push_decimal(&mut out, rest as u128);
    }
    out.append("s");
    assert(out@ =~= duration_text(secs as nat));
    out
}

/// Why a text is not a number in range.
#[derive(Debug, Clone, Copy, PartialEq, Eq, Structural)]
pub enum NumberError {
    /// There is nothing to read.
    Empty,
    /// A character is not a decimal digit.
    InvalidDigit,
    /// The number is larger than what it is read into can hold.
    TooLarge,
}

impl NumberError {
    /// The error in words.
    pub open spec fn message_spec(self) -> Seq<char> {
        match self {
            NumberError::Empty => "cannot parse integer from empty string"@,
            NumberError::InvalidDigit => "invalid digit found in string"@,
            NumberError::TooLarge => "number too large to fit in target type"@,
        }
    }

    /// The error in words.
    pub fn message(self) -> (r: &'static str)
        ensures
            r@ == self.message_spec(),
    {
        match self {
            NumberError::Empty => "cannot parse integer from empty string",
            NumberError::InvalidDigit => "invalid digit found in string",
            NumberError::TooLarge => "number too large to fit in target type",
        }
    }
}

/// Whether two texts are the same.
pub fn same_text(a: &str, b: &str) -> (r: bool)
    ensures
        r == (a@ == b@),
{
    a.to_owned() == b.to_owned()
}

/// The characters of a text.
pub fn chars_of(s: &str) -> (r: Vec<char>)
    ensures
        r@ == s@,
{
    let mut out: Vec<char> = Vec::new();
    for c in it: s.chars()
        invariant
            out@ == it.seq().take(it.index()),
            it.seq() == s@,
    {
        out.push(c);
        assert(out@ =~= it.seq().take(it.index() + 1));
    }
    assert(s@.take(s@.len() as int) =~= s@);
    out
}

/// Whether a character is white space, as Unicode has it.
pub open spec fn is_space(c: char) -> bool {
    let v = c as u32;
    ||| 0x9 <= v <= 0xD
    ||| v == 0x20
    ||| v == 0x85
    ||| v == 0xA0
    ||| v == 0x1680
    ||| 0x2000 <= v <= 0x200A
    ||| v == 0x2028
    ||| v == 0x2029
    ||| v == 0x202F
    ||| v == 0x205F
    ||| v == 0x3000
}

/// Whether a character is white space, as Unicode has it.
pub fn is_space_char(c: char) -> (r: bool)
    ensures
        r == is_space(c),
{
    let v: u32 = c as u32;
    (0x9 <= v && v <= 0xD) || v == 0x20 || v == 0x85 || v == 0xA0 || v == 0x1680 || (0x2000 <= v && v <= 0x200A)
        || v == 0x2028 || v == 0x2029 || v == 0x202F || v == 0x205F || v == 0x3000
}

/// The text without white space at its beginning.
pub open spec fn trim_start(s: Seq<char>) -> Seq<char>
    decreases s.len(),
{
    if s.len() > 0 && is_space(s[0]) {
        trim_start(s.skip(1))
    } else {
        s
    }
}

/// The text without white space at its end.
pub open spec fn trim_end(s: Seq<char>) -> Seq<char>
    decreases s.len(),
{
    if s.len() > 0 && is_space(s.last()) {
        trim_end(s.drop_last())
    } else {
        s
    }
}

/// The text without white space at either end.
pub open spec fn trimmed(s: Seq<char>) -> Seq<char> {
    trim_end(trim_start(s))
}

/// Where the part `from .. to` of a text begins without the white space at its beginning.
pub fn skip_space(chars: &Vec<char>, from: usize, to: usize) -> (at: usize)
    requires
        from <= to <= chars@.len(),
    ensures
        from <= at <= to,
        chars@.subrange(at as int, to as int) == trim_start(chars@.subrange(from as int, to as int)),
        at < to ==> !is_space(chars@[at as int]),
{
    let mut at: usize = from;
    while at < to && is_space_char(chars[at])
        invariant
            from <= at <= to <= chars@.len(),
            trim_start(chars@.subrange(at as int, to as int)) == trim_start(
                chars@.subrange(from as int, to as int),
            ),
        decreases to - at,
    {
        assert(chars@.subrange(at as int, to as int).skip(1) =~= chars@.subrange(at + 1, to as int));
        at = at + 1;
    }
    at
}

/// The part `from .. to` of a text without the white space at either end.
pub fn trim_bounds(chars: &Vec<char>, from: usize, to: usize) -> (r: (usize, usize))
    requires
        from <= to <= chars@.len(),
    ensures
        from <= r.0 <= r.1 <= to,
        chars@.subrange(r.0 as int, r.1 as int) == trimmed(chars@.subrange(from as int, to as int)),
{
    let start: usize = skip_space(chars, from, to);
    let mut end: usize = to;
    while end > start && is_space_char(chars[end - 1])
        invariant
            from <= start <= end <= to <= chars@.len(),
            trim_end(chars@.subrange(start as int, end as int)) == trim_end(
                chars@.subrange(start as int, to as int),
            ),
        decreases end,
    {
        assert(chars@.subrange(start as int, end as int).drop_last() =~= chars@.subrange(
            start as int,
            end - 1,
        ));
        end = end - 1;
    }
    (start, end)
}

/// The parts of a text between the places where `sep` stands.
pub open spec fn split_on(s: Seq<char>, sep: char) -> Seq<Seq<char>>
    decreases s.len(),
{
    if s.len() == 0 {
        seq![Seq::empty()]
    } else {
        let parts = split_on(s.drop_last(), sep);
        if s.last() == sep {
            parts.push(Seq::empty())
        } else {
            parts.update(parts.len() - 1, parts.last().push(s.last()))
        }
    }
}

/// A text has at least one part.
pub proof fn lemma_split_on(s: Seq<char>, sep: char)
    ensures
        split_on(s, sep).len() >= 1,
    decreases s.len(),
{
    if s.len() > 0 {
        lemma_split_on(s.drop_last(), sep);
    }
}

/// The value of a run of decimal digits, if they are digits and the value is at most `max`.
pub open spec fn read_digits(s: Seq<char>, max: nat) -> Result<nat, NumberError>
    decreases s.len(),
{
    if s.len() == 0 {
        Ok(0)
    } else {
        match read_digits(s.drop_last(), max) {
            Err(e) => Err(e),
            Ok(v) => {
                let d = s.last() as u32 - 48;
                if d < 0 || d > 9 {
                    Err(NumberError::InvalidDigit)
                } else if 10 * v + d > max {
                    Err(NumberError::TooLarge)
                } else {
                    Ok((10 * v + d) as nat)
                }
            },
        }
    }
}

/// The value of a decimal number, which may have a plus sign in front.
pub open spec fn read_number(s: Seq<char>, max: nat) -> Result<nat, NumberError> {
    if s.len() == 0 {
        Err(NumberError::Empty)
    } else if s[0] == '+' && s.len() > 1 {
        read_digits(s.skip(1), max)
    } else {
        read_digits(s, max)
    }
}

/// A text that is not a number does not become one by going on.
proof fn lemma_read_digits_fails(s: Seq<char>, k: int, max: nat)
    requires
        0 <= k <= s.len(),
        read_digits(s.take(k), max) is Err,
    ensures
        read_digits(s, max) == read_digits(s.take(k), max),
    decreases s.len() - k,
{
    if k < s.len() {
        assert(s.take(k + 1).drop_last() =~= s.take(k));
        lemma_read_digits_fails(s, k + 1, max);
    } else {
        assert(s.take(k) =~= s);
    }
}

/// Reads the part `from .. to` of a text as a decimal number of at most `max`.
pub fn parse_number(chars: &Vec<char>, from: usize, to: usize, max: u128) -> (r: Result<u128, NumberError>)
    requires
        from <= to <= chars@.len(),
    ensures
        match (r, read_number(chars@.subrange(from as int, to as int), max as nat)) {
            (Ok(v), Ok(w)) => v == w,
            (Err(e), Err(f)) => e == f,
            _ => false,
        },
{
    if from == to {
        return Err(NumberError::Empty);
    }
    let start: usize = if chars[from] == '+' && to - from > 1 {
        from + 1
    } else {
        from
    };
    let ghost s = chars@.subrange(start as int, to as int);
    proof {
        assert(start > from ==> chars@.subrange(from as int, to as int).skip(1) =~= s);
        assert(s.take(0) =~= Seq::empty());
    }
    let mut value: u128 = 0;
    let mut i: usize = start;
    while i < to
        invariant
            from <= start <= i <= to <= chars@.len(),
            s == chars@.subrange(start as int, to as int),
            value <= max,
            read_digits(s.take(i - start), max as nat) == Ok::<nat, NumberError>(value as nat),
            read_number(chars@.subrange(from as int, to as int), max as nat) == read_digits(s, max as nat),
        decreases to - i,
    {
        let code: u32 = chars[i] as u32;
        proof {
            assert(s.take(i - start + 1).drop_last() =~= s.take(i - start));
            assert(s.take(i - start + 1).last() == chars@[i as int]);
            if read_digits(s.take(i - start + 1), max as nat) is Err {
                lemma_read_digits_fails(s, i - start + 1, max as nat);
            }
        }
        if code < 48 || code > 57 {
            return Err(NumberError::InvalidDigit);
        }
        let digit: u128 = (code - 48) as u128;
        if digit > max || value > (max - digit) / 10 {
            return Err(NumberError::TooLarge);
        }
        value = value * 10 + digit;
        i = i + 1;
    }
    assert(s.take(i - start) =~= s);
    Ok(value)
}

} // verus!
