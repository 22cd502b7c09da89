//! What the texts that are built and read say: the places of decimal digits, the parts between
//! separators and the white space around them.
use crate::args::parse_u64;
use crate::text::{
    decimal, digit_char, human_duration, is_space, is_space_char, parse_number, push_decimal, read_digits, read_number, split_on,
    trim_end, trim_start, trimmed, two_digits, NumberError,
};
use vstd::arithmetic::power::pow;
use vstd::prelude::*;

verus! {

/// Whether every character is one of the ten decimal digits.
pub open spec fn all_digits(s: Seq<char>) -> bool {
    forall|i: int| 0 <= i < s.len() ==> '0' as int <= #[trigger] s[i] as int <= '9' as int
}

/// The sum of the digits of `s`, each times ten to the number of digits behind it.
pub open spec fn place_value(s: Seq<char>) -> int
    decreases s.len(),
{
    if s.len() == 0 {
        0
    } else {
        (s[0] as int - '0' as int) * pow(10, (s.len() - 1) as nat) + place_value(s.skip(1))
    }
}

/// Whether `s` is one or more decimal digits that stand for `v`.
pub open spec fn spells(s: Seq<char>, v: int) -> bool {
    s.len() >= 1 && all_digits(s) && place_value(s) == v
}

/// The text without a plus sign in front of something.
pub open spec fn unsigned(s: Seq<char>) -> Seq<char> {
    if s.len() >= 2 && s[0] == '+' {
        s.skip(1)
    } else {
        s
    }
}

/// Whether the first `k` characters are digits that stand for more than `max`.
pub open spec fn exceeds(s: Seq<char>, k: int, max: int) -> bool {
    0 <= k <= s.len() && all_digits(s.take(k)) && place_value(s.take(k)) > max
}

/// Whether the character at `k` is no digit and those before it stand for at most `max`.
pub open spec fn stops_at(s: Seq<char>, k: int, max: int) -> bool {
    &&& 0 <= k < s.len()
    &&& !('0' as int <= s[k] as int <= '9' as int)
    &&& all_digits(s.take(k))
    &&& place_value(s.take(k)) <= max
}

/// Whether `error` is why `s` is not a number of at most `max`.
pub open spec fn misread(s: Seq<char>, max: int, error: NumberError) -> bool {
    match error {
        NumberError::Empty => s.len() == 0,
        NumberError::InvalidDigit => exists|k: int| #[trigger] stops_at(unsigned(s), k, max),
        NumberError::TooLarge => exists|k: int| #[trigger] exceeds(unsigned(s), k, max),
    }
}

/// One more digit at the end is one more place.
proof fn lemma_place_value_push(s: Seq<char>, c: char)
    ensures
        place_value(s.push(c)) == 10 * place_value(s) + (c as int - '0' as int),
    decreases s.len(),
{
    reveal(pow);
    let t = s.push(c);
    if s.len() == 0 {
        assert(t.skip(1) =~= Seq::empty());
        assert(place_value(t.skip(1)) == 0);
        assert(pow(10, 0) == 1);
        assert((t[0] as int - '0' as int) * pow(10, 0) == t[0] as int - '0' as int) by (nonlinear_arith)
            requires
                pow(10, 0) == 1,
        ;
    } else {
        assert(t.skip(1) =~= s.skip(1).push(c));
        lemma_place_value_push(s.skip(1), c);
        let d = s[0] as int - '0' as int;
        let p = pow(10, (s.len() - 1) as nat);
        assert(pow(10, s.len()) == 10 * p);
        assert(d * pow(10, s.len()) == 10 * (d * p)) by (nonlinear_arith)
            requires
                pow(10, s.len()) == 10 * p,
        ;
    }
}

/// Digits stand for no negative number.
proof fn lemma_place_value_nonneg(s: Seq<char>)
    requires
        all_digits(s),
    ensures
        place_value(s) >= 0,
    decreases s.len(),
{
    if s.len() > 0 {
        let t = s.drop_last();
        assert(all_digits(t)) by {
            assert forall|i: int| 0 <= i < t.len() implies '0' as int <= #[trigger] t[i] as int <= '9' as int by {
                assert(t[i] == s[i]);
            }
        }
        assert(t.push(s.last()) =~= s);
        lemma_place_value_push(t, s.last());
        lemma_place_value_nonneg(t);
    }
}

/// The code of a character is the same in every type that holds it.
proof fn lemma_char_code(c: char)
    ensures
        c as u32 as int == c as int,
{
}

/// Digits that are read give what they stand for.
proof fn lemma_read_digits(s: Seq<char>, max: nat)
    ensures
        match read_digits(s, max) {
            Ok(v) => all_digits(s) && place_value(s) == v && v <= max,
            Err(NumberError::Empty) => false,
            Err(NumberError::InvalidDigit) => exists|k: int| #[trigger] stops_at(s, k, max as int),
            Err(NumberError::TooLarge) => exists|k: int| #[trigger] exceeds(s, k, max as int),
        },
    decreases s.len(),
{
    if s.len() > 0 {
        let t = s.drop_last();
        let c = s.last();
        assert(t.push(c) =~= s);
        lemma_read_digits(t, max);
        lemma_char_code(c);
        lemma_place_value_push(t, c);
        let n = s.len() - 1;
        assert(s.take(n) =~= t);
        match read_digits(t, max) {
            Ok(v) => {
                if '0' as int <= c as int <= '9' as int {
                    assert(all_digits(s)) by {
                        assert forall|i: int| 0 <= i < s.len() implies '0' as int <= #[trigger] s[i] as int
                            <= '9' as int by {
                            if i < n {
                                assert(t[i] == s[i]);
                            }
                        }
                    }
                    assert(s.take(n + 1) =~= s);
                    if place_value(s) > max {
                        assert(exceeds(s, n + 1, max as int));
                    }
                } else {
                    assert(stops_at(s, n, max as int));
                }
            },
            Err(e) => {
                if e == NumberError::InvalidDigit {
                    let k = choose|k: int| #[trigger] stops_at(t, k, max as int);
                    assert(s.take(k) =~= t.take(k));
                    assert(stops_at(s, k, max as int));
                } else {
                    let k = choose|k: int| #[trigger] exceeds(t, k, max as int);
                    assert(s.take(k) =~= t.take(k));
                    assert(exceeds(s, k, max as int));
                }
            },
        }
    }
}

/// What a text of at most `max` is read as.
pub proof fn lemma_read_number(s: Seq<char>, max: nat)
    ensures
        match read_number(s, max) {
            Ok(v) => spells(unsigned(s), v as int) && v <= max,
            Err(e) => misread(s, max as int, e),
        },
{
    lemma_read_digits(s, max);
    lemma_read_digits(unsigned(s), max);
}

/// Longer runs of digits stand for no less.
proof fn lemma_prefix_value(s: Seq<char>, k: int)
    requires
        all_digits(s),
        0 <= k <= s.len(),
    ensures
        all_digits(s.take(k)),
        place_value(s.take(k)) <= place_value(s),
    decreases s.len() - k,
{
    assert forall|i: int| 0 <= i < k implies '0' as int <= #[trigger] s.take(k)[i] as int <= '9' as int by {
        assert(s.take(k)[i] == s[i]);
    }
    if k == s.len() {
        assert(s.take(k) =~= s);
    } else {
        lemma_prefix_value(s, k + 1);
        assert(s.take(k + 1) =~= s.take(k).push(s[k]));
        lemma_place_value_push(s.take(k), s[k]);
        lemma_place_value_nonneg(s.take(k));
        assert(s[k] as int >= '0' as int);
    }
}

/// A text that spells a number is not misread, so that each text has one reading.
pub proof fn law_one_reading(s: Seq<char>, max: int, v: int, error: NumberError)
    requires
        spells(unsigned(s), v),
        v <= max,
    ensures
        !misread(s, max, error),
{
    let t = unsigned(s);
    assert forall|k: int| !(#[trigger] stops_at(t, k, max)) by {
        if stops_at(t, k, max) {
            assert('0' as int <= t[k] as int <= '9' as int);
        }
    }
    assert forall|k: int| !(#[trigger] exceeds(t, k, max)) by {
        if exceeds(t, k, max) {
            lemma_prefix_value(t, k);
        }
    }
}

/// A number that is read from part of a text is what its decimal digits stand for, by their
/// places, a plus sign in front left aside; what is not read is empty, or stops at a character
/// that is no digit, or exceeds the bound before that.
pub proof fn law_parse_number(chars: &Vec<char>, from: usize, to: usize, max: u128, r: Result<u128, NumberError>)
    requires
        call_ensures(parse_number, (chars, from, to, max), r),
        from <= to <= chars@.len(),
    ensures
        match r {
            Ok(v) => spells(unsigned(chars@.subrange(from as int, to as int)), v as int) && v <= max,
            Err(e) => misread(chars@.subrange(from as int, to as int), max as int, e),
        },
        forall|v: int| #[trigger]
            spells(unsigned(chars@.subrange(from as int, to as int)), v) && v <= max ==> r is Ok && r->Ok_0 == v,
{
    let s = chars@.subrange(from as int, to as int);
    lemma_read_number(s, max as nat);
    assert forall|v: int| #[trigger] spells(unsigned(s), v) && v <= max implies r is Ok && r->Ok_0 == v by {
        if r is Err {
            law_one_reading(s, max as int, v, r->Err_0);
        }
    }
}

/// The text without underscores.
pub open spec fn without_underscores(s: Seq<char>) -> Seq<char> {
    s.filter(|c: char| c != '_')
}

/// The value of a numeric argument is what its decimal digits stand for, by their places,
/// underscores anywhere and a plus sign in front left aside.
pub proof fn law_parse_u64(value: &str, r: Result<u64, NumberError>)
    requires
        call_ensures(parse_u64, (value,), r),
    ensures
        match r {
            Ok(v) => spells(unsigned(without_underscores(value@)), v as int),
            Err(e) => misread(without_underscores(value@), u64::MAX as int, e),
        },
        forall|v: u64| #[trigger]
            spells(unsigned(without_underscores(value@)), v as int) ==> r == Ok::<u64, NumberError>(v),
{
    let s = without_underscores(value@);
    lemma_read_number(s, u64::MAX as nat);
    assert forall|v: u64| #[trigger] spells(unsigned(s), v as int) implies r == Ok::<u64, NumberError>(v) by {
        if r is Err {
            law_one_reading(s, u64::MAX as int, v as int, r->Err_0);
        }
    }
}

/// Decimal digits stand for the number they are the digits of, the first is not zero where there
/// are several, and all are digits.
pub proof fn lemma_decimal(n: nat)
    ensures
        spells(decimal(n), n as int),
        decimal(n).len() >= 2 ==> decimal(n)[0] != '0',
        n > 0 ==> decimal(n)[0] != '0',
    decreases n,
{
    if n < 10 {
        let s = decimal(n);
        let e = Seq::<char>::empty();
        assert(s =~= e.push(digit_char(n as int)));
        lemma_place_value_push(e, digit_char(n as int));
    } else {
        let t = decimal(n / 10);
        let c = digit_char((n % 10) as int);
        lemma_decimal(n / 10);
        lemma_place_value_push(t, c);
        let s = decimal(n);
        assert(all_digits(s)) by {
            assert forall|i: int| 0 <= i < s.len() implies '0' as int <= #[trigger] s[i] as int <= '9' as int by {
                if i < t.len() {
                    assert(s[i] == t[i]);
                }
            }
        }
        assert(s[0] == t[0]);
    }
}

/// A number that is appended keeps the text before it, and what follows are digits that stand for
/// the number by their places, with no zero in front of other digits.
pub proof fn law_push_decimal(out: &mut String, n: u128)
    requires
        call_ensures(push_decimal, (out, n), ()),
    ensures
        final(out)@.len() >= old(out)@.len(),
        final(out)@.take(old(out)@.len() as int) == old(out)@,
        spells(final(out)@.skip(old(out)@.len() as int), n as int),
        final(out)@.len() >= old(out)@.len() + 2 ==> final(out)@[old(out)@.len() as int] != '0',
{
    lemma_decimal(n as nat);
    assert(final(out)@.take(old(out)@.len() as int) =~= old(out)@);
    assert(final(out)@.skip(old(out)@.len() as int) =~= decimal(n as nat));
}

/// A number that is written is read back as itself.
pub proof fn law_written_is_read(n: nat, max: nat)
    ensures
        n <= max ==> read_number(decimal(n), max) == Ok::<nat, NumberError>(n),
        n > max ==> read_number(decimal(n), max) == Err::<nat, NumberError>(NumberError::TooLarge),
{
    let s = decimal(n);
    lemma_decimal(n);
    lemma_read_number(s, max);
    assert(s[0] != '+') by {
        assert('0' as int <= s[0] as int);
    }
    assert(unsigned(s) == s);
    if read_number(s, max) == Err::<nat, NumberError>(NumberError::InvalidDigit) {
        let k = choose|k: int| #[trigger] stops_at(s, k, max as int);
        assert('0' as int <= s[k] as int <= '9' as int);
    }
    if n <= max && read_number(s, max) is Err {
        law_one_reading(s, max as int, n as int, read_number(s, max)->Err_0);
    }
}

/// The character of a digit.
pub open spec fn digit_of(d: int) -> char {
    ('0' as int + d) as char
}

/// A duration is written as hours, minutes and seconds, minutes and seconds in two digits, without
/// the hours where there are none and without the minutes too where there are neither.
pub proof fn law_human_duration(secs: u64, hours: nat, mins: nat, rest: nat, r: String)
    requires
        call_ensures(human_duration, (secs,), r),
        secs == 3600 * hours + 60 * mins + rest,
        mins < 60,
        rest < 60,
    ensures
        hours > 0 ==> r@ == decimal(hours) + seq![
            'h',
            digit_of((mins / 10) as int),
            digit_of((mins % 10) as int),
            'm',
            digit_of((rest / 10) as int),
            digit_of((rest % 10) as int),
            's',
        ],
        hours == 0 && mins > 0 ==> r@ == decimal(mins) + seq![
            'm',
            digit_of((rest / 10) as int),
            digit_of((rest % 10) as int),
            's',
        ],
        hours == 0 && mins == 0 ==> r@ == decimal(rest).push('s'),
{
    assert(secs as nat / 3600 == hours);
    assert((secs as nat % 3600) / 60 == mins);
    assert(secs as nat % 60 == rest);
    lemma_two_digits(mins);
    lemma_two_digits(rest);
    if hours > 0 {
        assert(r@ =~= decimal(hours) + seq![
            'h',
            digit_of((mins / 10) as int),
            digit_of((mins % 10) as int),
            'm',
            digit_of((rest / 10) as int),
            digit_of((rest % 10) as int),
            's',
        ]);
    } else if mins > 0 {
        assert(r@ =~= decimal(mins) + seq![
            'm',
            digit_of((rest / 10) as int),
            digit_of((rest % 10) as int),
            's',
        ]);
    } else {
        assert(r@ =~= decimal(rest).push('s'));
    }
}

/// Two digits are the tens and the ones.
proof fn lemma_two_digits(n: nat)
    requires
        n < 100,
    ensures
        two_digits(n) == seq![digit_of((n / 10) as int), digit_of((n % 10) as int)],
{
    reveal_with_fuel(decimal, 3);
    assert(two_digits(n) =~= seq![digit_of((n / 10) as int), digit_of((n % 10) as int)]);
}

/// The parts put together again with `sep` between each two.
pub open spec fn rejoined(parts: Seq<Seq<char>>, sep: char) -> Seq<char>
    decreases parts.len(),
{
    if parts.len() == 0 {
        Seq::empty()
    } else if parts.len() == 1 {
        parts[0]
    } else {
        parts[0].push(sep) + rejoined(parts.skip(1), sep)
    }
}

/// Growing the last part grows the whole.
proof fn lemma_rejoined_last(parts: Seq<Seq<char>>, sep: char, c: char)
    requires
        parts.len() >= 1,
    ensures
        rejoined(parts.update(parts.len() - 1, parts.last().push(c)), sep) == rejoined(parts, sep).push(c),
        rejoined(parts.push(Seq::empty()), sep) == rejoined(parts, sep).push(sep),
    decreases parts.len(),
{
    let grown = parts.update(parts.len() - 1, parts.last().push(c));
    let more = parts.push(Seq::empty());
    if parts.len() == 1 {
        assert(more.skip(1) =~= seq![Seq::<char>::empty()]);
        assert(rejoined(more.skip(1), sep) =~= Seq::empty());
        assert(rejoined(more, sep) =~= parts[0].push(sep));
    } else {
        let rest = parts.skip(1);
        lemma_rejoined_last(rest, sep, c);
        assert(grown.skip(1) =~= rest.update(rest.len() - 1, rest.last().push(c)));
        assert(more.skip(1) =~= rest.push(Seq::empty()));
        assert(rejoined(grown, sep) =~= rejoined(parts, sep).push(c));
        assert(rejoined(more, sep) =~= rejoined(parts, sep).push(sep));
    }
}

/// The parts of a text put together again are the text, and the separator stands in none of them.
pub proof fn law_split(s: Seq<char>, sep: char)
    ensures
        split_on(s, sep).len() >= 1,
        rejoined(split_on(s, sep), sep) == s,
        forall|k: int| 0 <= k < split_on(s, sep).len() ==> !#[trigger] split_on(s, sep)[k].contains(sep),
    decreases s.len(),
{
    let parts = split_on(s, sep);
    if s.len() == 0 {
        assert(rejoined(parts, sep) =~= s);
    } else {
        let t = s.drop_last();
        let before = split_on(t, sep);
        law_split(t, sep);
        lemma_rejoined_last(before, sep, s.last());
        assert(t.push(s.last()) =~= s);
        assert forall|k: int| 0 <= k < parts.len() implies !#[trigger] parts[k].contains(sep) by {
            if s.last() != sep && k == parts.len() - 1 {
                assert(!before[k].contains(sep));
                vstd::seq_lib::lemma_seq_contains_after_push(before[k], s.last(), sep);
            } else if k < before.len() {
                assert(parts[k] == before[k]);
                assert(!before[k].contains(sep));
            }
        }
    }
}

/// Putting parts without the separator together and splitting the whole gives the parts back.
pub proof fn law_rejoined_splits(parts: Seq<Seq<char>>, sep: char)
    requires
        parts.len() >= 1,
        forall|k: int| 0 <= k < parts.len() ==> !#[trigger] parts[k].contains(sep),
    ensures
        split_on(rejoined(parts, sep), sep) == parts,
    decreases parts.len(), parts.last().len(),
{
    let n = parts.len() - 1;
    let last = parts.last();
    if last.len() > 0 {
        let c = last.last();
        let less = parts.update(n, last.drop_last());
        assert(!parts[n].contains(sep));
        assert(c != sep) by {
            assert(last[last.len() - 1] == c);
        }
        assert forall|k: int| 0 <= k < less.len() implies !#[trigger] less[k].contains(sep) by {
            if k == n {
                if less[k].contains(sep) {
                    let i = choose|i: int| 0 <= i < less[k].len() && less[k][i] == sep;
                    assert(last[i] == sep);
                }
            } else {
                assert(less[k] == parts[k]);
            }
        }
        law_rejoined_splits(less, sep);
        lemma_rejoined_last(less, sep, c);
        assert(less.last().push(c) =~= last);
        assert(less.update(n, less.last().push(c)) =~= parts);
        let s = rejoined(parts, sep);
        assert(s.drop_last() =~= rejoined(less, sep));
        assert(split_on(s, sep) =~= parts);
    } else if n > 0 {
        let less = parts.drop_last();
        assert forall|k: int| 0 <= k < less.len() implies !#[trigger] less[k].contains(sep) by {
            assert(less[k] == parts[k]);
        }
        law_rejoined_splits(less, sep);
        lemma_rejoined_last(less, sep, sep);
        assert(last =~= Seq::empty());
        assert(less.push(Seq::empty()) =~= parts);
        let s = rejoined(parts, sep);
        assert(s.drop_last() =~= rejoined(less, sep));
        assert(split_on(s, sep) =~= parts);
    } else {
        assert(rejoined(parts, sep) =~= Seq::empty());
        assert(split_on(rejoined(parts, sep), sep) =~= parts);
    }
}

/// Without white space at its beginning a text is its end from the first other character on.
pub proof fn lemma_trim_start(s: Seq<char>) -> (a: int)
    ensures
        0 <= a <= s.len(),
        trim_start(s) == s.skip(a),
        forall|i: int| 0 <= i < a ==> is_space(#[trigger] s[i]),
        a < s.len() ==> !is_space(s[a]),
    decreases s.len(),
{
    if s.len() > 0 && is_space(s[0]) {
        let a = lemma_trim_start(s.skip(1));
        assert(s.skip(1).skip(a) =~= s.skip(a + 1));
        assert forall|i: int| 0 <= i < a + 1 implies is_space(#[trigger] s[i]) by {
            if i > 0 {
                assert(s.skip(1)[i - 1] == s[i]);
            }
        }
        a + 1
    } else {
        assert(s.skip(0) =~= s);
        0
    }
}

/// Without white space at its end a text is its beginning up to the last other character.
proof fn lemma_trim_end(s: Seq<char>) -> (b: int)
    ensures
        0 <= b <= s.len(),
        trim_end(s) == s.take(b),
        forall|i: int| b <= i < s.len() ==> is_space(#[trigger] s[i]),
        b > 0 ==> !is_space(s[b - 1]),
    decreases s.len(),
{
    if s.len() > 0 && is_space(s.last()) {
        let t = s.drop_last();
        let b = lemma_trim_end(t);
        assert(t.take(b) =~= s.take(b));
        assert forall|i: int| b <= i < s.len() implies is_space(#[trigger] s[i]) by {
            if i < t.len() {
                assert(t[i] == s[i]);
            }
        }
        b
    } else {
        assert(s.take(s.len() as int) =~= s);
        s.len() as int
    }
}

/// The codes of the white space characters of Unicode: the control characters from the tabulator to
/// the carriage return, the space, and the rest in order.
pub open spec fn white_space() -> Seq<u32> {
    seq![
        9, 10, 11, 12, 13, 32, 0x85, 0xA0, 0x1680, 0x2000, 0x2001, 0x2002, 0x2003, 0x2004, 0x2005, 0x2006, 0x2007,
        0x2008, 0x2009, 0x200A, 0x2028, 0x2029, 0x202F, 0x205F, 0x3000,
    ]
}

/// White space is what Unicode lists as such.
pub proof fn law_is_space_char(c: char, r: bool)
    requires
        call_ensures(is_space_char, (c,), r),
    ensures
        r <==> white_space().contains(c as u32),
{
    let codes = white_space();
    let v = c as u32;
    assert(codes.len() == 25);
    assert(codes[0] == 9 && codes[1] == 10 && codes[2] == 11 && codes[3] == 12 && codes[4] == 13);
    assert(codes[5] == 32 && codes[6] == 0x85 && codes[7] == 0xA0 && codes[8] == 0x1680 && codes[9] == 0x2000);
    assert(codes[10] == 0x2001 && codes[11] == 0x2002 && codes[12] == 0x2003 && codes[13] == 0x2004);
    assert(codes[14] == 0x2005 && codes[15] == 0x2006 && codes[16] == 0x2007 && codes[17] == 0x2008);
    assert(codes[18] == 0x2009 && codes[19] == 0x200A && codes[20] == 0x2028 && codes[21] == 0x2029);
    assert(codes[22] == 0x202F && codes[23] == 0x205F && codes[24] == 0x3000);
    if codes.contains(v) {
        let i = choose|i: int| 0 <= i < codes.len() && codes[i] == v;
        assert(0 <= i < 25);
    }
    if is_space(c) {
        let k = if v <= 13 {
            v - 9
        } else if v == 32 {
            5
        } else if v == 0x85 {
            6
        } else if v == 0xA0 {
            7
        } else if v == 0x1680 {
            8
        } else if v <= 0x200A {
            v - 0x2000 + 9
        } else if v <= 0x2029 {
            v - 0x2028 + 20
        } else if v == 0x202F {
            22
        } else if v == 0x205F {
            23
        } else {
            24
        };
        assert(codes[k] == v);
    }
}

/// Whether `t` is the part of `s` from the first to the last character that is no white space.
pub open spec fn is_core(s: Seq<char>, a: int, b: int, t: Seq<char>) -> bool {
    &&& 0 <= a <= b <= s.len()
    &&& t == s.subrange(a, b)
    &&& forall|i: int| 0 <= i < a ==> is_space(#[trigger] s[i])
    &&& forall|i: int| b <= i < s.len() ==> is_space(#[trigger] s[i])
    &&& a < b ==> !is_space(s[a]) && !is_space(s[b - 1])
}

/// A text without the white space around it is the part from the first to the last character that
/// is none.
pub proof fn law_trimmed(s: Seq<char>)
    ensures
        exists|a: int, b: int| #[trigger] is_core(s, a, b, trimmed(s)),
{
    let a = lemma_trim_start(s);
    let t = s.skip(a);
    let b = lemma_trim_end(t);
    assert(t.take(b) =~= s.subrange(a, a + b));
    assert forall|i: int| a + b <= i < s.len() implies is_space(#[trigger] s[i]) by {
        assert(t[i - a] == s[i]);
    }
    if b > 0 {
        assert(t[b - 1] == s[a + b - 1]);
    }
    assert(is_core(s, a, a + b, trimmed(s)));
}

/// A text whose first and last characters are no white space stays as it is, whatever white space
/// is put around it.
pub proof fn law_trimmed_core(s: Seq<char>, a: int, b: int, t: Seq<char>)
    requires
        is_core(s, a, b, t),
    ensures
        trimmed(s) == t,
{
    let c = lemma_trim_start(s);
    let u = s.skip(c);
    let d = lemma_trim_end(u);
    if a < b {
        assert(c == a) by {
            if c < a {
                assert(is_space(s[c]));
            }
            if a < c {
                assert(is_space(s[a]));
            }
        }
        assert(u[b - 1 - a] == s[b - 1]);
        assert(a + d == b) by {
            if a + d < b {
                assert(is_space(u[b - 1 - a]));
            }
            if a + d > b {
                assert(u[d - 1] == s[a + d - 1]);
            }
        }
        assert(u.take(d) =~= t);
    } else {
        assert(d == 0) by {
            if d > 0 {
                assert(u[d - 1] == s[c + d - 1]);
            }
        }
        assert(u.take(d) =~= t);
    }
}

} // verus!
