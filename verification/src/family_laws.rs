//! What the members of the families are, by their decimal digits, as powers of two and as sums of
//! the terms before them.
use crate::candidates::{
    candidates_of, consecutive_digits, family_candidates, family_members, fibonacci, lists_families, lists_family,
    lucas, merged_all, mersenne_prime_exponents, mersennes, repdigits, tetranacci, Candidate, CandidateLabel, Direction,
};
use crate::config::CandidateFamily;
use crate::families::{
    fibonacci_seeds, is_prime, is_prime_u32, lucas_seeds, next_term, repunit, run_digit, run_value, term, terms, tetranacci_seeds,
    total,
};
use crate::laws::{
    family_has_label, has_labelled, has_number, in_family, label_value, labels_in, law_family_members, law_merged,
};
use vstd::arithmetic::power::pow;
use vstd::arithmetic::power2::pow2;
use vstd::prelude::*;

verus! {

/// The decimal digit of `n` at place `i`, counted from the last.
pub open spec fn digit_at(n: int, i: nat) -> int {
    n / pow(10, i) % 10
}

/// Whether `n` has exactly `len` decimal digits, all of them `digit`.
pub open spec fn is_repdigit(n: int, digit: int, len: nat) -> bool {
    &&& len >= 1
    &&& pow(10, (len - 1) as nat) <= n < pow(10, len)
    &&& forall|i: nat| i < len ==> #[trigger] digit_at(n, i) == digit
}

/// Whether the digit at place `i` is the one before it gone up or down by one, round between nine
/// and zero.
pub open spec fn steps(n: int, direction: Direction, i: nat) -> bool {
    digit_at(n, i) == match direction {
        Direction::Asc => (digit_at(n, i + 1) + 1) % 10,
        Direction::Desc => (digit_at(n, i + 1) + 9) % 10,
    }
}

/// Whether `n` has exactly `len` decimal digits, at least two, the first is `start`, and each
/// other one is the one before it gone up or down by one, round between nine and zero.
pub open spec fn is_run(n: int, direction: Direction, start: int, len: nat) -> bool {
    &&& len >= 2
    &&& pow(10, (len - 1) as nat) <= n < pow(10, len)
    &&& digit_at(n, (len - 1) as nat) == start
    &&& forall|i: nat| i + 1 < len ==> #[trigger] steps(n, direction, i)
}

/// Whether `n` is a number above one that is no product of smaller ones.
pub open spec fn indivisible(n: int) -> bool {
    n >= 2 && forall|a: int, b: int| 2 <= a && 2 <= b ==> #[trigger] (a * b) != n
}

/// The Fibonacci numbers.
pub open spec fn fib(k: nat) -> int
    decreases k,
{
    if k == 0 {
        0
    } else if k == 1 {
        1
    } else {
        fib((k - 1) as nat) + fib((k - 2) as nat)
    }
}

/// The Lucas numbers.
pub open spec fn luc(k: nat) -> int
    decreases k,
{
    if k == 0 {
        2
    } else if k == 1 {
        1
    } else {
        luc((k - 1) as nat) + luc((k - 2) as nat)
    }
}

/// The tetranacci numbers.
pub open spec fn tet(k: nat) -> int
    decreases k,
{
    if k <= 2 {
        0
    } else if k == 3 {
        1
    } else {
        tet((k - 1) as nat) + tet((k - 2) as nat) + tet((k - 3) as nat) + tet((k - 4) as nat)
    }
}

/// A power of ten is ten times the one before.
proof fn lemma_pow10(e: nat)
    ensures
        pow(10, e) >= 1,
        pow(10, e + 1) == 10 * pow(10, e),
        pow(10, 0) == 1,
{
    reveal(pow);
    vstd::arithmetic::power::lemma_pow_positive(10, e);
}

/// Twenty digits are more than `u64` has room for.
proof fn lemma_pow10_beyond_u64(e: nat)
    requires
        e >= 20,
    ensures
        pow(10, e) > u64::MAX,
{
    assert(pow(10, 20) == 100_000_000_000_000_000_000) by {
        reveal_with_fuel(pow, 21);
    }
    if e > 20 {
        vstd::arithmetic::power::lemma_pow_strictly_increases(10, 20, e);
    }
}

/// Appending a digit moves the others up by one place.
proof fn lemma_digits_shift(v: int, d: int, i: nat)
    requires
        v >= 0,
        0 <= d < 10,
    ensures
        digit_at(10 * v + d, 0) == d,
        digit_at(10 * v + d, i + 1) == digit_at(v, i),
{
    lemma_pow10(i);
    let n = 10 * v + d;
    assert(n / pow(10, 0) == n) by {
        lemma_pow10(0);
        vstd::arithmetic::div_mod::lemma_div_basics(n);
    }
    assert(n / 10 == v);
    vstd::arithmetic::div_mod::lemma_div_denominator(n, 10, pow(10, i));
}

/// The digits of a number fix it.
proof fn lemma_digits_fix(a: int, b: int, len: nat)
    requires
        0 <= a < pow(10, len),
        0 <= b < pow(10, len),
        forall|i: nat| i < len ==> #[trigger] digit_at(a, i) == digit_at(b, i),
    ensures
        a == b,
    decreases len,
{
    lemma_pow10(0);
    if len > 0 {
        let k = (len - 1) as nat;
        lemma_pow10(k);
        let p = a / 10;
        let q = b / 10;
        assert(a == 10 * p + a % 10 && b == 10 * q + b % 10);
        lemma_digits_shift(p, a % 10, 0);
        lemma_digits_shift(q, b % 10, 0);
        assert(digit_at(a, 0) == digit_at(b, 0));
        assert forall|i: nat| i < k implies #[trigger] digit_at(p, i) == digit_at(q, i) by {
            lemma_digits_shift(p, a % 10, i);
            lemma_digits_shift(q, b % 10, i);
            assert(digit_at(a, i + 1) == digit_at(b, i + 1));
        }
        lemma_digits_fix(p, q, k);
    }
}

/// A repunit times a digit is that digit repeated.
proof fn lemma_repunit_digits(digit: int, len: nat)
    requires
        1 <= digit <= 9,
        len >= 1,
    ensures
        is_repdigit(repunit(len) * digit, digit, len),
    decreases len,
{
    let k = (len - 1) as nat;
    let v = repunit(k) * digit;
    let n = repunit(len) * digit;
    assert(n == 10 * v + digit) by (nonlinear_arith)
        requires
            n == repunit(len) * digit,
            v == repunit(k) * digit,
            repunit(len) == 10 * repunit(k) + 1,
    ;
    lemma_pow10(k);
    lemma_pow10(0);
    if k == 0 {
        assert(v == 0) by (nonlinear_arith)
            requires
                v == repunit(k) * digit,
                repunit(k) == 0,
        ;
    } else {
        lemma_repunit_digits(digit, k);
        lemma_pow10((k - 1) as nat);
    }
    assert forall|i: nat| i < len implies #[trigger] digit_at(n, i) == digit by {
        if i == 0 {
            lemma_digits_shift(v, digit, 0);
        } else {
            lemma_digits_shift(v, digit, (i - 1) as nat);
            assert(digit_at(v, (i - 1) as nat) == digit);
        }
    }
}

/// What the label of a repdigit says of its number: it is that digit, that many times.
pub open spec fn says_repdigit(l: CandidateLabel, n: int) -> bool {
    match l {
        CandidateLabel::Repdigit { digit, len } => is_repdigit(n, digit as int, len as nat),
        _ => false,
    }
}

/// A label of the family stands for `n` exactly where it says truly what `n` is.
proof fn lemma_repdigit_label(l: CandidateLabel, n: int)
    requires
        0 <= n <= u64::MAX,
        n % 2 == 1,
    ensures
        says_repdigit(l, n) <==> family_has_label(CandidateFamily::Repdigit, l) && label_value(l) == n,
{
    match l {
        CandidateLabel::Repdigit { digit, len } => {
            if says_repdigit(l, n) {
                lemma_pow10(0);
                lemma_digits_shift(n / 10, n % 10, 0);
                assert(digit_at(n, 0) == n % 10);
                assert(1 <= digit <= 9 && digit % 2 == 1);
                if len > 20 {
                    lemma_pow10_beyond_u64((len - 1) as nat);
                }
                let v = repunit(len as nat) * digit;
                lemma_repunit_digits(digit as int, len as nat);
                lemma_pow10((len - 1) as nat);
                assert forall|i: nat| i < len implies #[trigger] digit_at(n, i) == digit_at(v, i) by {
                    assert(digit_at(n, i) == digit);
                    assert(digit_at(v, i) == digit);
                }
                lemma_digits_fix(n, v, len as nat);
            }
            if family_has_label(CandidateFamily::Repdigit, l) && label_value(l) == n {
                lemma_repunit_digits(digit as int, len as nat);
            }
        },
        _ => {},
    }
}

/// The list of repdigits within bounds: exactly the odd numbers there whose decimal digits are all
/// the same, ascending, each labelled by its digit and their number.
pub proof fn law_repdigits(min: u64, max: u64, r: Vec<Candidate>)
    requires
        call_ensures(repdigits, (min, max), r),
    ensures
        forall|i: int, j: int| 0 <= i < j < r@.len() ==> r@[i].n < r@[j].n,
        forall|n: u64| #[trigger]
            has_number(r@, n) <==> min <= n <= max && n % 2 == 1 && exists|digit: int, len: nat| #[trigger]
                is_repdigit(n as int, digit, len),
        forall|i: int, l: CandidateLabel|
            0 <= i < r@.len() ==> (#[trigger] r@[i].label_seq().contains(l) <==> says_repdigit(l, r@[i].n as int)),
{
    let family = CandidateFamily::Repdigit;
    law_family_members(family, r@, min, max);
    assert forall|n: u64| #[trigger]
        has_number(r@, n) <==> min <= n <= max && n % 2 == 1 && exists|digit: int, len: nat| #[trigger]
            is_repdigit(n as int, digit, len) by {
        if has_number(r@, n) {
            let l = choose|l: CandidateLabel| #[trigger] family_has_label(family, l) && label_value(l) == n;
            lemma_repdigit_label(l, n as int);
            assert(is_repdigit(n as int, l->Repdigit_digit as int, l->Repdigit_len as nat));
        }
        if min <= n <= max && n % 2 == 1 && exists|digit: int, len: nat| #[trigger]
            is_repdigit(n as int, digit, len) {
            let (digit, len) = choose|digit: int, len: nat| #[trigger] is_repdigit(n as int, digit, len);
            assert(digit_at(n as int, 0) == digit);
            if len > 20 {
                lemma_pow10_beyond_u64((len - 1) as nat);
            }
            let l = CandidateLabel::Repdigit { digit: digit as u8, len: len as u8 };
            assert(says_repdigit(l, n as int));
            lemma_repdigit_label(l, n as int);
            assert(in_family(family, n as int));
        }
    }
    assert forall|i: int, l: CandidateLabel| 0 <= i < r@.len() implies (#[trigger] r@[i].label_seq().contains(l)
        <==> says_repdigit(l, r@[i].n as int)) by {
        assert(has_number(r@, r@[i].n));
        lemma_repdigit_label(l, r@[i].n as int);
    }
}

/// The digits of a run, counted from the last.
proof fn lemma_run_digits(start: int, direction: Direction, len: nat)
    requires
        1 <= start <= 9,
        len >= 1,
    ensures
        pow(10, (len - 1) as nat) <= run_value(start, direction, len) < pow(10, len),
        forall|i: nat|
            i < len ==> #[trigger] digit_at(run_value(start, direction, len), i) == run_digit(
                start,
                direction,
                len - 1 - i,
            ),
    decreases len,
{
    lemma_pow10(0);
    let n = run_value(start, direction, len);
    if len == 1 {
        lemma_digits_shift(0, start, 0);
        assert(run_digit(start, direction, 0) == start);
    } else {
        let k = (len - 1) as nat;
        let v = run_value(start, direction, k);
        let d = run_digit(start, direction, len - 1);
        lemma_run_digits(start, direction, k);
        lemma_pow10(k);
        lemma_pow10((k - 1) as nat);
        assert forall|i: nat| i < len implies #[trigger] digit_at(n, i) == run_digit(start, direction, len - 1 - i) by {
            if i == 0 {
                lemma_digits_shift(v, d, 0);
            } else {
                lemma_digits_shift(v, d, (i - 1) as nat);
                assert(digit_at(v, (i - 1) as nat) == run_digit(start, direction, k - 1 - (i - 1)));
            }
        }
    }
}

/// The number that is built up from a run of digits is that run.
proof fn lemma_run_is_run(start: int, direction: Direction, len: nat)
    requires
        1 <= start <= 9,
        len >= 2,
    ensures
        is_run(run_value(start, direction, len), direction, start, len),
{
    let n = run_value(start, direction, len);
    lemma_run_digits(start, direction, len);
    assert(run_digit(start, direction, 0) == start);
    assert(digit_at(n, (len - 1) as nat) == run_digit(start, direction, 0));
    assert forall|i: nat| i + 1 < len implies #[trigger] steps(n, direction, i) by {
        assert(digit_at(n, i) == run_digit(start, direction, len - 1 - i));
        assert(digit_at(n, i + 1) == run_digit(start, direction, len - 2 - i));
        crate::families::lemma_run_digit_next(start, direction, len - 2 - i);
    }
}

/// A run of digits has the digits that its first one gives, from place `i` up.
proof fn lemma_run_from(n: int, direction: Direction, start: int, len: nat, i: nat)
    requires
        is_run(n, direction, start, len),
        1 <= start <= 9,
        i < len,
    ensures
        digit_at(n, i) == run_digit(start, direction, len - 1 - i),
    decreases len - i,
{
    if i == len - 1 {
        assert(run_digit(start, direction, 0) == start);
    } else {
        lemma_run_from(n, direction, start, len, i + 1);
        assert(steps(n, direction, i));
        crate::families::lemma_run_digit_next(start, direction, len - 2 - i);
    }
}

/// The first digit of a number is not zero.
proof fn lemma_first_digit(n: int, k: nat)
    requires
        pow(10, k) <= n < pow(10, k + 1),
    ensures
        1 <= digit_at(n, k) <= 9,
{
    let p = pow(10, k);
    lemma_pow10(k);
    vstd::arithmetic::div_mod::lemma_fundamental_div_mod(n, p);
    let q = n / p;
    assert(1 <= q < 10) by (nonlinear_arith)
        requires
            n == p * q + n % p,
            0 <= n % p < p,
            p <= n < 10 * p,
    ;
}

/// What the label of a run of digits says of its number.
pub open spec fn says_run(l: CandidateLabel, n: int) -> bool {
    match l {
        CandidateLabel::ConsecutiveDigits { direction, start, len } => is_run(
            n,
            direction,
            start as int,
            len as nat,
        ),
        _ => false,
    }
}

/// A label of the family stands for `n` exactly where it says truly what `n` is.
proof fn lemma_run_label(l: CandidateLabel, n: int)
    requires
        0 <= n <= u64::MAX,
    ensures
        says_run(l, n) <==> family_has_label(CandidateFamily::ConsecutiveDigits, l) && label_value(l) == n,
{
    match l {
        CandidateLabel::ConsecutiveDigits { direction, start, len } => {
            if says_run(l, n) {
                lemma_first_digit(n, (len - 1) as nat);
                if len > 20 {
                    lemma_pow10_beyond_u64((len - 1) as nat);
                }
                let v = run_value(start as int, direction, len as nat);
                lemma_run_digits(start as int, direction, len as nat);
                lemma_pow10((len - 1) as nat);
                assert forall|i: nat| i < len implies #[trigger] digit_at(n, i) == digit_at(v, i) by {
                    lemma_run_from(n, direction, start as int, len as nat, i);
                    assert(digit_at(v, i) == run_digit(start as int, direction, len - 1 - i));
                }
                lemma_digits_fix(n, v, len as nat);
            }
            if family_has_label(CandidateFamily::ConsecutiveDigits, l) && label_value(l) == n {
                lemma_run_is_run(start as int, direction, len as nat);
            }
        },
        _ => {},
    }
}

/// The list of runs of digits within bounds: exactly the odd numbers there of at least two decimal
/// digits in which each digit is the one before it gone up, or each gone down, by one, round
/// between nine and zero; ascending, each labelled by the direction, the first digit and the
/// number of digits.
pub proof fn law_consecutive_digits(min: u64, max: u64, r: Vec<Candidate>)
    requires
        call_ensures(consecutive_digits, (min, max), r),
    ensures
        forall|i: int, j: int| 0 <= i < j < r@.len() ==> r@[i].n < r@[j].n,
        forall|n: u64| #[trigger]
            has_number(r@, n) <==> min <= n <= max && n % 2 == 1 && exists|
                direction: Direction,
                start: int,
                len: nat,
            | #[trigger] is_run(n as int, direction, start, len),
        forall|i: int, l: CandidateLabel|
            0 <= i < r@.len() ==> (#[trigger] r@[i].label_seq().contains(l) <==> says_run(l, r@[i].n as int)),
{
    let family = CandidateFamily::ConsecutiveDigits;
    law_family_members(family, r@, min, max);
    assert forall|n: u64| #[trigger]
        has_number(r@, n) <==> min <= n <= max && n % 2 == 1 && exists|direction: Direction, start: int, len: nat|
            #[trigger] is_run(n as int, direction, start, len) by {
        if has_number(r@, n) {
            let l = choose|l: CandidateLabel| #[trigger] family_has_label(family, l) && label_value(l) == n;
            lemma_run_label(l, n as int);
            assert(is_run(
                n as int,
                l->ConsecutiveDigits_direction,
                l->ConsecutiveDigits_start as int,
                l->ConsecutiveDigits_len as nat,
            ));
        }
        if min <= n <= max && n % 2 == 1 && exists|direction: Direction, start: int, len: nat| #[trigger]
            is_run(n as int, direction, start, len) {
            let (direction, start, len) = choose|direction: Direction, start: int, len: nat| #[trigger]
                is_run(n as int, direction, start, len);
            lemma_first_digit(n as int, (len - 1) as nat);
            if len > 20 {
                lemma_pow10_beyond_u64((len - 1) as nat);
            }
            let l = CandidateLabel::ConsecutiveDigits { direction, start: start as u8, len: len as u8 };
            assert(says_run(l, n as int));
            lemma_run_label(l, n as int);
            assert(in_family(family, n as int));
        }
    }
    assert forall|i: int, l: CandidateLabel| 0 <= i < r@.len() implies (#[trigger] r@[i].label_seq().contains(l)
        <==> says_run(l, r@[i].n as int)) by {
        lemma_run_label(l, r@[i].n as int);
    }
}

/// What the label of a number one below a power of two says of it.
pub open spec fn says_mersenne(l: CandidateLabel, n: int) -> bool {
    match l {
        CandidateLabel::Mersenne { exponent } => n + 1 == pow2(exponent as nat),
        _ => false,
    }
}

/// What the label of a number one below a power of two with a prime exponent says of it.
pub open spec fn says_mersenne_prime_exponent(l: CandidateLabel, n: int) -> bool {
    match l {
        CandidateLabel::MersennePrimeExponent { exponent } => {
            n + 1 == pow2(exponent as nat) && indivisible(exponent as int)
        },
        _ => false,
    }
}

/// Powers of two that are at least two and at most two to the sixty-fourth.
proof fn lemma_pow2_exponent(e: nat, n: int)
    requires
        n + 1 == pow2(e),
        1 <= n <= u64::MAX,
    ensures
        1 <= e <= 64,
{
    vstd::arithmetic::power2::lemma2_to64();
    if e > 64 {
        vstd::arithmetic::power2::lemma_pow2_strictly_increases(64, e);
    }
}

/// A number without smaller divisors is no product, and the other way round.
proof fn lemma_indivisible(n: int)
    ensures
        is_prime(n) <==> indivisible(n),
{
    if is_prime(n) {
        assert forall|a: int, b: int| 2 <= a && 2 <= b implies #[trigger] (a * b) != n by {
            if a * b == n {
                assert(a < n) by (nonlinear_arith)
                    requires
                        a * b == n,
                        2 <= a,
                        2 <= b,
                ;
                vstd::arithmetic::div_mod::lemma_mod_multiples_basic(b, a);
                assert(b * a == a * b) by (nonlinear_arith);
                assert(n % a == 0);
            }
        }
    }
    if indivisible(n) {
        assert forall|d: int| 2 <= d < n implies #[trigger] (n % d) != 0 by {
            if n % d == 0 {
                vstd::arithmetic::div_mod::lemma_fundamental_div_mod(n, d);
                let q = n / d;
                assert(q >= 2) by (nonlinear_arith)
                    requires
                        n == d * q,
                        2 <= d < n,
                ;
                assert(d * q != n);
            }
        }
    }
}

/// A number passes the test exactly where it is above one and no product of smaller ones.
pub proof fn law_is_prime_u32(n: u32, r: bool)
    requires
        call_ensures(is_prime_u32, (n,), r),
    ensures
        r <==> indivisible(n as int),
{
    lemma_indivisible(n as int);
}

/// The list of numbers one below a power of two: exactly the odd numbers within bounds to which
/// adding one gives a power of two, ascending, each labelled by the exponent.
pub proof fn law_mersennes(min: u64, max: u64, r: Vec<Candidate>)
    requires
        call_ensures(mersennes, (min, max), r),
    ensures
        forall|i: int, j: int| 0 <= i < j < r@.len() ==> r@[i].n < r@[j].n,
        forall|n: u64| #[trigger]
            has_number(r@, n) <==> min <= n <= max && n % 2 == 1 && exists|e: nat| n + 1 == #[trigger] pow2(e),
        forall|i: int, l: CandidateLabel|
            0 <= i < r@.len() ==> (#[trigger] r@[i].label_seq().contains(l) <==> says_mersenne(l, r@[i].n as int)),
{
    let family = CandidateFamily::Mersenne;
    law_family_members(family, r@, min, max);
    assert forall|n: u64| #[trigger]
        has_number(r@, n) <==> min <= n <= max && n % 2 == 1 && exists|e: nat| n + 1 == #[trigger] pow2(e) by {
        if has_number(r@, n) {
            let l = choose|l: CandidateLabel| #[trigger] family_has_label(family, l) && label_value(l) == n;
            assert(n + 1 == pow2(l->Mersenne_exponent as nat));
        }
        if min <= n <= max && n % 2 == 1 && exists|e: nat| n + 1 == #[trigger] pow2(e) {
            let e = choose|e: nat| n + 1 == #[trigger] pow2(e);
            lemma_pow2_exponent(e, n as int);
            let l = CandidateLabel::Mersenne { exponent: e as u32 };
            assert(family_has_label(family, l) && label_value(l) == n);
            assert(in_family(family, n as int));
        }
    }
    assert forall|i: int, l: CandidateLabel| 0 <= i < r@.len() implies (#[trigger] r@[i].label_seq().contains(l)
        <==> says_mersenne(l, r@[i].n as int)) by {
        assert(has_number(r@, r@[i].n));
        if says_mersenne(l, r@[i].n as int) {
            lemma_pow2_exponent(l->Mersenne_exponent as nat, r@[i].n as int);
        }
    }
}

/// The list of numbers one below a power of two with a prime exponent: exactly the odd numbers
/// within bounds to which adding one gives a power of two whose exponent is no product,
/// ascending, each labelled by the exponent.
pub proof fn law_mersenne_prime_exponents(min: u64, max: u64, r: Vec<Candidate>)
    requires
        call_ensures(mersenne_prime_exponents, (min, max), r),
    ensures
        forall|i: int, j: int| 0 <= i < j < r@.len() ==> r@[i].n < r@[j].n,
        forall|n: u64| #[trigger]
            has_number(r@, n) <==> min <= n <= max && n % 2 == 1 && exists|e: nat|
                n + 1 == #[trigger] pow2(e) && indivisible(e as int),
        forall|i: int, l: CandidateLabel|
            0 <= i < r@.len() ==> (#[trigger] r@[i].label_seq().contains(l) <==> says_mersenne_prime_exponent(
                l,
                r@[i].n as int,
            )),
{
    let family = CandidateFamily::MersennePrimeExponent;
    law_family_members(family, r@, min, max);
    assert forall|n: u64| #[trigger]
        has_number(r@, n) <==> min <= n <= max && n % 2 == 1 && exists|e: nat|
            n + 1 == #[trigger] pow2(e) && indivisible(e as int) by {
        if has_number(r@, n) {
            let l = choose|l: CandidateLabel| #[trigger] family_has_label(family, l) && label_value(l) == n;
            let e = l->MersennePrimeExponent_exponent as nat;
            lemma_indivisible(e as int);
            assert(n + 1 == pow2(e));
        }
        if min <= n <= max && n % 2 == 1 && exists|e: nat| n + 1 == #[trigger] pow2(e) && indivisible(e as int) {
            let e = choose|e: nat| n + 1 == #[trigger] pow2(e) && indivisible(e as int);
            lemma_pow2_exponent(e, n as int);
            lemma_indivisible(e as int);
            let l = CandidateLabel::MersennePrimeExponent { exponent: e as u32 };
            assert(family_has_label(family, l) && label_value(l) == n);
            assert(in_family(family, n as int));
        }
    }
    assert forall|i: int, l: CandidateLabel| 0 <= i < r@.len() implies (#[trigger] r@[i].label_seq().contains(l)
        <==> says_mersenne_prime_exponent(l, r@[i].n as int)) by {
        assert(has_number(r@, r@[i].n));
        match l {
            CandidateLabel::MersennePrimeExponent { exponent } => {
                lemma_indivisible(exponent as int);
                if says_mersenne_prime_exponent(l, r@[i].n as int) {
                    lemma_pow2_exponent(exponent as nat, r@[i].n as int);
                }
            },
            _ => {},
        }
    }
}

/// A term after the seeds is the sum of as many before it as there are seeds.
proof fn lemma_term_sum(seeds: Seq<int>, k: int)
    requires
        seeds.len() >= 1,
        forall|i: int| 0 <= i < seeds.len() ==> #[trigger] seeds[i] >= 0,
        k >= seeds.len(),
    ensures
        seeds.len() == 2 ==> term(seeds, k) == term(seeds, k - 1) + term(seeds, k - 2),
        seeds.len() == 4 ==> term(seeds, k) == term(seeds, k - 1) + term(seeds, k - 2) + term(seeds, k - 3) + term(
            seeds,
            k - 4,
        ),
{
    let w = seeds.len() as int;
    let s = terms(seeds, k as nat);
    crate::families::lemma_terms(seeds, k as nat);
    assert(terms(seeds, (k + 1) as nat) == s.push(next_term(s, w)));
    let last = s.skip(s.len() - w);
    crate::families::lemma_terms_prefix(seeds, k as nat, k - 1);
    if w == 2 {
        crate::families::lemma_terms_prefix(seeds, k as nat, k - 2);
        reveal_with_fuel(total, 3);
    }
    if w == 4 {
        crate::families::lemma_terms_prefix(seeds, k as nat, k - 2);
        crate::families::lemma_terms_prefix(seeds, k as nat, k - 3);
        crate::families::lemma_terms_prefix(seeds, k as nat, k - 4);
        reveal_with_fuel(total, 5);
    }
}

/// The first terms are the seeds.
proof fn lemma_term_seed(seeds: Seq<int>, k: int)
    requires
        0 <= k < seeds.len(),
    ensures
        term(seeds, k) == seeds[k],
{
}

/// The terms from the Fibonacci seeds are the Fibonacci numbers.
proof fn lemma_fib(k: nat)
    ensures
        term(fibonacci_seeds(), k as int) == fib(k),
    decreases k,
{
    let seeds = fibonacci_seeds();
    if k < 2 {
        lemma_term_seed(seeds, k as int);
    } else {
        lemma_fib((k - 1) as nat);
        lemma_fib((k - 2) as nat);
        lemma_term_sum(seeds, k as int);
    }
}

/// The terms from the Lucas seeds are the Lucas numbers.
proof fn lemma_luc(k: nat)
    ensures
        term(lucas_seeds(), k as int) == luc(k),
    decreases k,
{
    let seeds = lucas_seeds();
    if k < 2 {
        lemma_term_seed(seeds, k as int);
    } else {
        lemma_luc((k - 1) as nat);
        lemma_luc((k - 2) as nat);
        lemma_term_sum(seeds, k as int);
    }
}

/// The terms from the tetranacci seeds are the tetranacci numbers.
proof fn lemma_tet(k: nat)
    ensures
        term(tetranacci_seeds(), k as int) == tet(k),
    decreases k,
{
    let seeds = tetranacci_seeds();
    if k < 4 {
        lemma_term_seed(seeds, k as int);
    } else {
        lemma_tet((k - 1) as nat);
        lemma_tet((k - 2) as nat);
        lemma_tet((k - 3) as nat);
        lemma_tet((k - 4) as nat);
        lemma_term_sum(seeds, k as int);
    }
}

/// What the label of a Fibonacci number says of it.
pub open spec fn says_fibonacci(l: CandidateLabel, n: int) -> bool {
    match l {
        CandidateLabel::Fibonacci { index } => n == fib(index as nat),
        _ => false,
    }
}

/// The list of Fibonacci numbers: exactly the odd ones within bounds, ascending, each labelled by
/// all its indices.
pub proof fn law_fibonacci(min: u64, max: u64, r: Vec<Candidate>)
    requires
        call_ensures(fibonacci, (min, max), r),
    ensures
        forall|i: int, j: int| 0 <= i < j < r@.len() ==> r@[i].n < r@[j].n,
        forall|n: u64| #[trigger]
            has_number(r@, n) <==> min <= n <= max && n % 2 == 1 && exists|k: nat| n == #[trigger] fib(k),
        forall|i: int, l: CandidateLabel|
            0 <= i < r@.len() ==> (#[trigger] r@[i].label_seq().contains(l) <==> says_fibonacci(l, r@[i].n as int)),
{
    let family = CandidateFamily::Fibonacci;
    let seeds = fibonacci_seeds();
    let label = |index: u32| CandidateLabel::Fibonacci { index };
    law_family_members(family, r@, min, max);
    crate::label_laws::law_recurrence_members(r@, seeds, label, min, max);
    assert forall|n: u64| #[trigger]
        has_number(r@, n) <==> min <= n <= max && n % 2 == 1 && exists|k: nat| n == #[trigger] fib(k) by {
        if has_number(r@, n) {
            let k = choose|k: int| k >= 0 && #[trigger] term(seeds, k) == n;
            lemma_fib(k as nat);
            assert(n == fib(k as nat));
        }
        if min <= n <= max && n % 2 == 1 && exists|k: nat| n == #[trigger] fib(k) {
            let k = choose|k: nat| n == #[trigger] fib(k);
            lemma_fib(k);
            assert(term(seeds, k as int) == n);
        }
    }
    assert forall|i: int, l: CandidateLabel| 0 <= i < r@.len() implies (#[trigger] r@[i].label_seq().contains(l)
        <==> says_fibonacci(l, r@[i].n as int)) by {
        match l {
            CandidateLabel::Fibonacci { index } => {
                lemma_fib(index as nat);
            },
            _ => {},
        }
    }
}

/// What the label of a Lucas number says of it.
pub open spec fn says_lucas(l: CandidateLabel, n: int) -> bool {
    match l {
        CandidateLabel::Lucas { index } => n == luc(index as nat),
        _ => false,
    }
}

/// The list of Lucas numbers: exactly the odd ones within bounds, ascending, each labelled by all
/// its indices.
pub proof fn law_lucas(min: u64, max: u64, r: Vec<Candidate>)
    requires
        call_ensures(lucas, (min, max), r),
    ensures
        forall|i: int, j: int| 0 <= i < j < r@.len() ==> r@[i].n < r@[j].n,
        forall|n: u64| #[trigger]
            has_number(r@, n) <==> min <= n <= max && n % 2 == 1 && exists|k: nat| n == #[trigger] luc(k),
        forall|i: int, l: CandidateLabel|
            0 <= i < r@.len() ==> (#[trigger] r@[i].label_seq().contains(l) <==> says_lucas(l, r@[i].n as int)),
{
    let family = CandidateFamily::Lucas;
    let seeds = lucas_seeds();
    let label = |index: u32| CandidateLabel::Lucas { index };
    law_family_members(family, r@, min, max);
    crate::label_laws::law_recurrence_members(r@, seeds, label, min, max);
    assert forall|n: u64| #[trigger]
        has_number(r@, n) <==> min <= n <= max && n % 2 == 1 && exists|k: nat| n == #[trigger] luc(k) by {
        if has_number(r@, n) {
            let k = choose|k: int| k >= 0 && #[trigger] term(seeds, k) == n;
            lemma_luc(k as nat);
            assert(n == luc(k as nat));
        }
        if min <= n <= max && n % 2 == 1 && exists|k: nat| n == #[trigger] luc(k) {
            let k = choose|k: nat| n == #[trigger] luc(k);
            lemma_luc(k);
            assert(term(seeds, k as int) == n);
        }
    }
    assert forall|i: int, l: CandidateLabel| 0 <= i < r@.len() implies (#[trigger] r@[i].label_seq().contains(l)
        <==> says_lucas(l, r@[i].n as int)) by {
        match l {
            CandidateLabel::Lucas { index } => {
                lemma_luc(index as nat);
            },
            _ => {},
        }
    }
}

/// What the label of a tetranacci number says of it.
pub open spec fn says_tetranacci(l: CandidateLabel, n: int) -> bool {
    match l {
        CandidateLabel::Tetranacci { index } => n == tet(index as nat),
        _ => false,
    }
}

/// The list of tetranacci numbers: exactly the odd ones within bounds, ascending, each labelled by
/// all its indices.
pub proof fn law_tetranacci(min: u64, max: u64, r: Vec<Candidate>)
    requires
        call_ensures(tetranacci, (min, max), r),
    ensures
        forall|i: int, j: int| 0 <= i < j < r@.len() ==> r@[i].n < r@[j].n,
        forall|n: u64| #[trigger]
            has_number(r@, n) <==> min <= n <= max && n % 2 == 1 && exists|k: nat| n == #[trigger] tet(k),
        forall|i: int, l: CandidateLabel|
            0 <= i < r@.len() ==> (#[trigger] r@[i].label_seq().contains(l) <==> says_tetranacci(l, r@[i].n as int)),
{
    let family = CandidateFamily::Tetranacci;
    let seeds = tetranacci_seeds();
    let label = |index: u32| CandidateLabel::Tetranacci { index };
    law_family_members(family, r@, min, max);
    crate::label_laws::law_recurrence_members(r@, seeds, label, min, max);
    assert forall|n: u64| #[trigger]
        has_number(r@, n) <==> min <= n <= max && n % 2 == 1 && exists|k: nat| n == #[trigger] tet(k) by {
        if has_number(r@, n) {
            let k = choose|k: int| k >= 0 && #[trigger] term(seeds, k) == n;
            lemma_tet(k as nat);
            assert(n == tet(k as nat));
        }
        if min <= n <= max && n % 2 == 1 && exists|k: nat| n == #[trigger] tet(k) {
            let k = choose|k: nat| n == #[trigger] tet(k);
            lemma_tet(k);
            assert(term(seeds, k as int) == n);
        }
    }
    assert forall|i: int, l: CandidateLabel| 0 <= i < r@.len() implies (#[trigger] r@[i].label_seq().contains(l)
        <==> says_tetranacci(l, r@[i].n as int)) by {
        match l {
            CandidateLabel::Tetranacci { index } => {
                lemma_tet(index as nat);
            },
            _ => {},
        }
    }
}

/// Whether `l` is a label of `family` and says truly what `n` is.
pub open spec fn says_of(family: CandidateFamily, l: CandidateLabel, n: int) -> bool {
    match family {
        CandidateFamily::Repdigit => says_repdigit(l, n),
        CandidateFamily::Mersenne => says_mersenne(l, n),
        CandidateFamily::MersennePrimeExponent => says_mersenne_prime_exponent(l, n),
        CandidateFamily::Fibonacci => says_fibonacci(l, n),
        CandidateFamily::Lucas => says_lucas(l, n),
        CandidateFamily::Tetranacci => says_tetranacci(l, n),
        CandidateFamily::ConsecutiveDigits => says_run(l, n),
    }
}

/// A label of a family stands for `n` exactly where it says truly what `n` is.
proof fn lemma_says_of(family: CandidateFamily, l: CandidateLabel, n: int)
    requires
        0 <= n <= u64::MAX,
        n % 2 == 1,
    ensures
        says_of(family, l, n) <==> family_has_label(family, l) && label_value(l) == n,
{
    match family {
        CandidateFamily::Repdigit => {
            lemma_repdigit_label(l, n);
        },
        CandidateFamily::ConsecutiveDigits => {
            lemma_run_label(l, n);
        },
        _ => match l {
            CandidateLabel::Mersenne { exponent } => {
                if n + 1 == pow2(exponent as nat) {
                    lemma_pow2_exponent(exponent as nat, n);
                }
            },
            CandidateLabel::MersennePrimeExponent { exponent } => {
                lemma_indivisible(exponent as int);
                if n + 1 == pow2(exponent as nat) {
                    lemma_pow2_exponent(exponent as nat, n);
                }
            },
            CandidateLabel::Fibonacci { index } => {
                lemma_fib(index as nat);
            },
            CandidateLabel::Lucas { index } => {
                lemma_luc(index as nat);
            },
            CandidateLabel::Tetranacci { index } => {
                lemma_tet(index as nat);
            },
            _ => {},
        },
    }
}

/// What a family's list holds.
proof fn lemma_members_say(family: CandidateFamily, list: Seq<Candidate>, min: u64, max: u64, n: u64, l: CandidateLabel)
    requires
        lists_family(family, list, min, max),
    ensures
        has_number(list, n) <==> min <= n <= max && n % 2 == 1 && exists|m: CandidateLabel| #[trigger]
            says_of(family, m, n as int),
        has_labelled(list, n, l) <==> min <= n <= max && n % 2 == 1 && says_of(family, l, n as int),
{
    law_family_members(family, list, min, max);
    if n % 2 == 1 {
        lemma_says_of(family, l, n as int);
        if has_number(list, n) {
            let m = choose|m: CandidateLabel| #[trigger] family_has_label(family, m) && label_value(m) == n;
            lemma_says_of(family, m, n as int);
        }
        if min <= n <= max {
            if exists|m: CandidateLabel| #[trigger] says_of(family, m, n as int) {
                let m = choose|m: CandidateLabel| #[trigger] says_of(family, m, n as int);
                lemma_says_of(family, m, n as int);
                assert(in_family(family, n as int));
            }
            if says_of(family, l, n as int) {
                assert(in_family(family, n as int));
                assert(has_number(list, n));
                let i = choose|i: int| 0 <= i < list.len() && (#[trigger] list[i]).n == n;
                assert(list[i].label_seq().contains(l));
            }
        }
    }
    if has_labelled(list, n, l) {
        let i = choose|i: int|
            0 <= i < list.len() && (#[trigger] list[i]).n == n && list[i].label_seq().contains(l);
        assert(has_number(list, n));
    }
}

/// The members of a family within bounds: exactly the odd numbers there of which a label of the
/// family is true, each with all the family's labels that are true of it.
pub proof fn law_members(family: CandidateFamily, min: u64, max: u64, r: Vec<Candidate>, n: u64, l: CandidateLabel)
    requires
        call_ensures(family_members, (family, min, max), r),
    ensures
        has_number(r@, n) <==> min <= n <= max && n % 2 == 1 && exists|m: CandidateLabel| #[trigger]
            says_of(family, m, n as int),
        has_labelled(r@, n, l) <==> min <= n <= max && n % 2 == 1 && says_of(family, l, n as int),
{
    lemma_members_say(family, r@, min, max, n, l);
}

/// The candidates of several families within bounds: exactly the odd numbers there of which a
/// label of one of the families is true, ascending, each with all the labels of the families that
/// are true of it, each once.
pub proof fn law_family_candidates(
    min: u64,
    max: u64,
    families: &[CandidateFamily],
    r: Vec<Candidate>,
    n: u64,
    l: CandidateLabel,
)
    requires
        call_ensures(family_candidates, (min, max, families), r),
    ensures
        forall|i: int, j: int| 0 <= i < j < r@.len() ==> r@[i].n < r@[j].n,
        forall|i: int| 0 <= i < r@.len() ==> (#[trigger] r@[i]).label_seq().no_duplicates(),
        has_number(r@, n) <==> min <= n <= max && n % 2 == 1 && exists|family: CandidateFamily, m: CandidateLabel|
            families@.contains(family) && #[trigger] says_of(family, m, n as int),
        has_labelled(r@, n, l) <==> min <= n <= max && n % 2 == 1 && exists|family: CandidateFamily|
            families@.contains(family) && #[trigger] says_of(family, l, n as int),
{
    let lists = choose|lists: Seq<Vec<Candidate>>| #[trigger]
        lists_families(families@, min, max, lists) && candidates_of(r@, merged_all(lists));
    let m = merged_all(lists);
    law_merged(lists, n, l);
    assert forall|i: int| 0 <= i < r@.len() implies (#[trigger] r@[i]).label_seq().no_duplicates() by {
        law_merged(lists, r@[i].n, l);
        assert(m.contains_key(r@[i].n));
    }
    assert(has_number(r@, n) <==> m.contains_key(n)) by {
        if has_number(r@, n) {
            let i = choose|i: int| 0 <= i < r@.len() && (#[trigger] r@[i]).n == n;
            assert(m.contains_key(r@[i].n));
        }
    }
    assert(has_labelled(r@, n, l) <==> labels_in(m, n).contains(l)) by {
        if has_labelled(r@, n, l) {
            let i = choose|i: int|
                0 <= i < r@.len() && (#[trigger] r@[i]).n == n && r@[i].label_seq().contains(l);
            assert(m.contains_key(r@[i].n));
        }
        if labels_in(m, n).contains(l) {
            assert(m.contains_key(n));
            let i = choose|i: int| 0 <= i < r@.len() && (#[trigger] r@[i]).n == n;
            assert(r@[i].label_seq().contains(l));
        }
    }
    if has_number(r@, n) {
        let j = choose|j: int| 0 <= j < lists.len() && has_number((#[trigger] lists[j])@, n);
        lemma_members_say(families@[j], lists[j]@, min, max, n, l);
        let q = choose|q: CandidateLabel| #[trigger] says_of(families@[j], q, n as int);
        assert(families@.contains(families@[j]) && says_of(families@[j], q, n as int));
    }
    if labels_in(m, n).contains(l) {
        let j = choose|j: int| 0 <= j < lists.len() && has_labelled((#[trigger] lists[j])@, n, l);
        lemma_members_say(families@[j], lists[j]@, min, max, n, l);
        assert(families@.contains(families@[j]) && says_of(families@[j], l, n as int));
    }
    if min <= n <= max && n % 2 == 1 {
        assert forall|family: CandidateFamily, q: CandidateLabel|
            families@.contains(family) && #[trigger] says_of(family, q, n as int) implies has_number(r@, n) && (q == l
            ==> has_labelled(r@, n, l)) by {
            let j = choose|j: int| 0 <= j < families@.len() && families@[j] == family;
            lemma_members_say(family, lists[j]@, min, max, n, q);
            assert(has_number(lists[j]@, n));
        }
    }
}

} // verus!
