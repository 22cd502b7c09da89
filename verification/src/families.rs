//! The sparse families of numbers: their members and the labels that go with them.
use crate::candidates::{CandidateLabel, Direction};
use vstd::arithmetic::power2::{lemma_pow2_unfold, pow2};
use vstd::prelude::*;

verus! {

/// A number together with the label that makes it a member of a family.
pub type Entry = (CandidateLabel, int);

/// The number written as `len` ones.
pub open spec fn repunit(len: nat) -> int
    decreases len,
{
    if len == 0 {
        0
    } else {
        10 * repunit((len - 1) as nat) + 1
    }
}

/// The numbers of up to twenty digits that repeat one odd digit, by length and then by digit.
pub open spec fn repdigit_entries() -> Seq<Entry> {
    Seq::new(
        100,
        |i: int|
            {
                let digit = 2 * (i % 5) + 1;
                let len = i / 5 + 1;
                (CandidateLabel::Repdigit { digit: digit as u8, len: len as u8 }, repunit(len as nat) * digit)
            },
    )
}

/// The numbers one below a power of two, for the exponents from one to 64.
pub open spec fn mersenne_entries() -> Seq<Entry> {
    Seq::new(64, |i: int| (CandidateLabel::Mersenne { exponent: (i + 1) as u32 }, pow2((i + 1) as nat) - 1))
}

/// Whether `n` is prime.
pub open spec fn is_prime(n: int) -> bool {
    n >= 2 && forall|d: int| 2 <= d < n ==> #[trigger] (n % d) != 0
}

/// The numbers one below a power of two whose exponent is one of the first `k` from two on and
/// prime.
pub open spec fn mersenne_prime_entries(k: nat) -> Seq<Entry>
    decreases k,
{
    if k == 0 {
        Seq::empty()
    } else {
        let rest = mersenne_prime_entries((k - 1) as nat);
        if is_prime(k as int + 1) {
            rest.push(
                (CandidateLabel::MersennePrimeExponent { exponent: (k + 1) as u32 }, pow2(k + 1) - 1),
            )
        } else {
            rest
        }
    }
}

/// The sum of a list.
pub open spec fn total(s: Seq<int>) -> int
    decreases s.len(),
{
    if s.len() == 0 {
        0
    } else {
        total(s.drop_last()) + s.last()
    }
}

/// The sum of the last `w` terms of `s`.
pub open spec fn next_term(s: Seq<int>, w: int) -> int {
    total(s.skip(s.len() - w))
}

/// The first `n` terms of the sequence that starts with `seeds` and goes on with the sum of as
/// many terms as there are seeds.
pub open spec fn terms(seeds: Seq<int>, n: nat) -> Seq<int>
    decreases n,
{
    if n <= seeds.len() {
        seeds.take(n as int)
    } else {
        let s = terms(seeds, (n - 1) as nat);
        s.push(next_term(s, seeds.len() as int))
    }
}

/// The term with index `k`.
pub open spec fn term(seeds: Seq<int>, k: int) -> int {
    terms(seeds, (k + 1) as nat)[k]
}

/// Whether `count` is the index of the first term after the seeds that does not fit `u64`.
pub open spec fn terms_fit(seeds: Seq<int>, count: nat) -> bool {
    &&& seeds.len() <= count <= u32::MAX
    &&& forall|k: int| seeds.len() <= k < count ==> #[trigger] terms(seeds, count)[k] <= u64::MAX
    &&& term(seeds, count as int) > u64::MAX
}

/// The first `count` terms, each labelled by its index.
pub open spec fn recurrence_entries(
    seeds: Seq<int>,
    count: nat,
    label: spec_fn(u32) -> CandidateLabel,
) -> Seq<Entry> {
    Seq::new(count, |k: int| (label(k as u32), terms(seeds, count)[k]))
}

/// What the Fibonacci sequence starts with.
pub open spec fn fibonacci_seeds() -> Seq<int> {
    seq![0, 1]
}

/// What the Lucas sequence starts with.
pub open spec fn lucas_seeds() -> Seq<int> {
    seq![2, 1]
}

/// What the tetranacci sequence starts with.
pub open spec fn tetranacci_seeds() -> Seq<int> {
    seq![0, 0, 0, 1]
}

/// The digit after `k` steps from `start`, going round from nine to zero.
pub open spec fn run_digit(start: int, direction: Direction, k: int) -> int {
    match direction {
        Direction::Asc => (start + k) % 10,
        Direction::Desc => (start - k) % 10,
    }
}

/// The number of `len` digits that starts with `start` and goes on with consecutive digits.
pub open spec fn run_value(start: int, direction: Direction, len: nat) -> int
    decreases len,
{
    if len <= 1 {
        start
    } else {
        run_value(start, direction, (len - 1) as nat) * 10 + run_digit(start, direction, len - 1)
    }
}

/// The numbers of two to twenty consecutive digits, by first digit, then downwards before
/// upwards, then by length.
pub open spec fn consecutive_entries() -> Seq<Entry> {
    Seq::new(
        342,
        |i: int|
            {
                let start = i / 38 + 1;
                let direction = if i % 38 < 19 {
                    Direction::Desc
                } else {
                    Direction::Asc
                };
                let len = (i % 38) % 19 + 2;
                (
                    CandidateLabel::ConsecutiveDigits { direction, start: start as u8, len: len as u8 },
                    run_value(start, direction, len as nat),
                )
            },
    )
}

/// Repunits of up to twenty digits stay within `u128`.
pub proof fn lemma_repunit_range(len: nat)
    requires
        len <= 20,
    ensures
        0 <= repunit(len) <= 11_111_111_111_111_111_111,
    decreases 20 - len,
{
    if len == 20 {
        reveal_with_fuel(repunit, 21);
    } else {
        lemma_repunit_range(len + 1);
        lemma_repunit_nonnegative(len);
    }
}

proof fn lemma_repunit_nonnegative(len: nat)
    ensures
        repunit(len) >= 0,
    decreases len,
{
    if len > 0 {
        lemma_repunit_nonnegative((len - 1) as nat);
    }
}

/// A run of digits is at most as large as as many nines.
pub proof fn lemma_run_range(start: int, direction: Direction, len: nat)
    requires
        1 <= start <= 9,
        len >= 1,
    ensures
        1 <= run_value(start, direction, len) <= 9 * repunit(len),
    decreases len,
{
    if len == 1 {
        reveal_with_fuel(repunit, 2);
    } else {
        lemma_run_range(start, direction, (len - 1) as nat);
    }
}

/// One step on from a digit of a run is the next digit of the run.
pub proof fn lemma_run_digit_next(start: int, direction: Direction, k: int)
    ensures
        run_digit(start, direction, k + 1) == match direction {
            Direction::Asc => (run_digit(start, direction, k) + 1) % 10,
            Direction::Desc => (run_digit(start, direction, k) - 1) % 10,
        },
{
}

/// Where a run stands among the entries.
pub proof fn lemma_consecutive_entry(start: int, direction: Direction, len: int)
    requires
        1 <= start <= 9,
        2 <= len <= 20,
    ensures
        ({
            let i = 38 * (start - 1) + (if direction == Direction::Desc {
                0int
            } else {
                19int
            }) + (len - 2);
            consecutive_entries()[i] == (
                CandidateLabel::ConsecutiveDigits { direction, start: start as u8, len: len as u8 },
                run_value(start, direction, len as nat),
            )
        }),
{
    let o = (if direction == Direction::Desc {
        0int
    } else {
        19int
    }) + (len - 2);
    let i = 38 * (start - 1) + o;
    assert(i / 38 == start - 1 && i % 38 == o);
    assert(o % 19 == len - 2);
}

/// Powers of two up to the 64th.
pub proof fn lemma_pow2_range(e: nat)
    requires
        e <= 64,
    ensures
        1 <= pow2(e) <= 18_446_744_073_709_551_616,
        e >= 1 ==> pow2(e) == 2 * pow2((e - 1) as nat),
{
    vstd::arithmetic::power2::lemma2_to64();
    vstd::arithmetic::power2::lemma_pow2_pos(e);
    if e < 64 {
        vstd::arithmetic::power2::lemma_pow2_strictly_increases(e, 64);
    }
    if e >= 1 {
        lemma_pow2_unfold(e);
    }
}

/// The digit after `digit`, `step` steps on, going round from nine to zero.
pub fn next_digit_mod_10(digit: u8, step: i8) -> (r: u8)
    requires
        digit <= i8::MAX,
        digit + step <= i8::MAX,
    ensures
        r == (digit + step) % 10,
        r < 10,
{
    let sum: i16 = digit as i16 + step as i16;
    ((sum + 130) as u16 % 10) as u8
}

/// Whether the square of `d` is at most `n`.
fn square_at_most(d: u32, n: u32) -> (r: bool)
    ensures
        r == (d * d <= n),
{
    assert(d * d <= u64::MAX) by (nonlinear_arith)
        requires
            0 <= d <= u32::MAX,
    ;
    (d as u64) * (d as u64) <= n as u64
}

/// Whether `n` is prime.
pub fn is_prime_u32(n: u32) -> (r: bool)
    ensures
        r == is_prime(n as int),
{
    if n < 2 {
        return false;
    }
    if n == 2 {
        return true;
    }
    if n % 2 == 0 {
        assert(n as int % 2 == 0);
        return false;
    }
    let mut divisor: u32 = 3;
    while square_at_most(divisor, n)
        invariant
            n > 2,
            n % 2 == 1,
            divisor % 2 == 1,
            3 <= divisor <= 65537,
            forall|d: int| 2 <= d < divisor ==> #[trigger] (n as int % d) != 0,
        decreases 70000 - divisor,
    {
        proof {
            assert(divisor <= 65535) by (nonlinear_arith)
                requires
                    divisor * divisor <= n,
                    n <= u32::MAX,
            ;
            assert(divisor < n) by (nonlinear_arith)
                requires
                    divisor * divisor <= n,
                    divisor >= 3,
            ;
        }
        if n % divisor == 0 {
            assert(n as int % divisor as int == 0);
            return false;
        }
        proof {
            assert forall|d: int| 2 <= d < divisor + 2 implies #[trigger] (n as int % d) != 0 by {
                if d == divisor + 1 && n as int % d == 0 {
                    lemma_even_divisor(n as int, d);
                }
            }
        }
        divisor = divisor + 2;
    }
    proof {
        assert forall|d: int| 2 <= d < n implies #[trigger] (n as int % d) != 0 by {
            if n as int % d == 0 {
                lemma_cofactor(n as int, d);
                let q = n as int / d;
                assert(d < divisor || q < divisor) by (nonlinear_arith)
                    requires
                        n == d * q,
                        divisor * divisor > n,
                        d > 0,
                        q > 0,
                ;
                if d >= divisor {
                    assert(n as int % q != 0);
                }
            }
        }
    }
    true
}

/// An even number divides only even numbers.
proof fn lemma_even_divisor(n: int, d: int)
    requires
        d > 0,
        d % 2 == 0,
        n % d == 0,
    ensures
        n % 2 == 0,
{
    vstd::arithmetic::div_mod::lemma_fundamental_div_mod(n, d);
    let q = n / d;
    let h = d / 2;
    assert(n == 2 * (h * q)) by (nonlinear_arith)
        requires
            n == d * q,
            d == 2 * h,
    ;
}

/// A proper divisor comes with its cofactor, which divides too.
proof fn lemma_cofactor(n: int, d: int)
    requires
        n > 2,
        2 <= d < n,
        n % d == 0,
    ensures
        n == d * (n / d),
        2 <= n / d < n,
        n % (n / d) == 0,
{
    vstd::arithmetic::div_mod::lemma_fundamental_div_mod(n, d);
    let q = n / d;
    assert(2 <= q < n) by (nonlinear_arith)
        requires
            n == d * q,
            2 <= d < n,
    ;
    assert(n == q * d + 0) by (nonlinear_arith)
        requires
            n == d * q,
    ;
    crate::lists::lemma_quotient(n, q, d, 0);
}

/// Two lists of non-negative numbers, one a part of the other, have sums in that order.
proof fn lemma_total_skip(s: Seq<int>, k: int)
    requires
        0 <= k <= s.len(),
        forall|i: int| 0 <= i < s.len() ==> #[trigger] s[i] >= 0,
    ensures
        0 <= total(s.skip(k)) <= total(s),
    decreases s.len(),
{
    if k == s.len() {
        assert(s.skip(k) =~= Seq::empty());
        if s.len() > 0 {
            lemma_total_skip(s.drop_last(), k - 1);
        }
    } else {
        lemma_total_skip(s.drop_last(), k);
        assert(s.skip(k).drop_last() =~= s.drop_last().skip(k));
    }
}

/// What the terms of a sequence with non-negative seeds keep.
pub proof fn lemma_terms(seeds: Seq<int>, n: nat)
    requires
        seeds.len() >= 1,
        forall|i: int| 0 <= i < seeds.len() ==> #[trigger] seeds[i] >= 0,
    ensures
        terms(seeds, n).len() == n,
        forall|k: int| 0 <= k < n ==> #[trigger] terms(seeds, n)[k] >= 0,
    decreases n,
{
    if n > seeds.len() {
        let s = terms(seeds, (n - 1) as nat);
        lemma_terms(seeds, (n - 1) as nat);
        lemma_total_skip(s.skip(s.len() - seeds.len()), 0);
        assert(s.skip(s.len() - seeds.len()).skip(0) =~= s.skip(s.len() - seeds.len()));
    }
}

/// More terms begin with fewer.
pub proof fn lemma_terms_prefix(seeds: Seq<int>, n: nat, k: int)
    requires
        seeds.len() >= 1,
        forall|i: int| 0 <= i < seeds.len() ==> #[trigger] seeds[i] >= 0,
        0 <= k < n,
    ensures
        terms(seeds, n)[k] == term(seeds, k),
    decreases n,
{
    lemma_terms(seeds, n);
    if n > k + 1 {
        lemma_terms_prefix(seeds, (n - 1) as nat, k);
        lemma_terms(seeds, (n - 1) as nat);
        if n <= seeds.len() {
            assert(seeds.take(n as int)[k] == seeds.take(n - 1)[k]);
        }
    }
}

/// A term after the seeds is at least the sum of the two before it.
proof fn lemma_term_grows(seeds: Seq<int>, k: int)
    requires
        seeds.len() >= 2,
        forall|i: int| 0 <= i < seeds.len() ==> #[trigger] seeds[i] >= 0,
        k >= seeds.len(),
    ensures
        term(seeds, k) >= term(seeds, k - 1) + term(seeds, k - 2),
        term(seeds, k) >= 0,
        term(seeds, k - 1) >= 0,
        term(seeds, k - 2) >= 0,
{
    let w = seeds.len() as int;
    let s = terms(seeds, k as nat);
    lemma_terms(seeds, k as nat);
    lemma_terms(seeds, (k + 1) as nat);
    lemma_terms_prefix(seeds, k as nat, k - 1);
    lemma_terms_prefix(seeds, k as nat, k - 2);
    let last = s.skip(s.len() - w);
    lemma_total_skip(last, w - 2);
    let two = last.skip(w - 2);
    assert(two.drop_last().drop_last() =~= Seq::empty());
    assert(total(two) == two[0] + two[1]) by {
        reveal_with_fuel(total, 3);
    }
}

/// Every second term after the seeds at least doubles, where one of the seeds is not zero.
pub proof fn lemma_terms_double(seeds: Seq<int>, j: nat)
    requires
        seeds.len() >= 2,
        forall|i: int| 0 <= i < seeds.len() ==> #[trigger] seeds[i] >= 0,
        total(seeds) >= 1,
    ensures
        term(seeds, seeds.len() as int + 2 * j) >= pow2(j),
        term(seeds, seeds.len() as int + 2 * j + 1) >= pow2(j),
    decreases j,
{
    let w = seeds.len() as int;
    if j == 0 {
        vstd::arithmetic::power2::lemma2_to64();
        let s = terms(seeds, w as nat);
        assert(s =~= seeds);
        assert(s.skip(s.len() - w) =~= seeds);
        assert(terms(seeds, (w + 1) as nat) == s.push(next_term(s, w)));
        lemma_term_grows(seeds, w + 1);
    } else {
        lemma_terms_double(seeds, (j - 1) as nat);
        let k = w + 2 * j;
        lemma_term_grows(seeds, k);
        lemma_term_grows(seeds, k + 1);
        lemma_pow2_unfold(j);
        lemma_term_grows(seeds, k - 1);
    }
}

/// Terms after the seeds that fit `u64` end within 128 of them.
pub proof fn lemma_terms_end(seeds: Seq<int>, n: nat)
    requires
        seeds.len() >= 2,
        forall|i: int| 0 <= i < seeds.len() ==> #[trigger] seeds[i] >= 0,
        total(seeds) >= 1,
        forall|k: int| seeds.len() <= k < n ==> #[trigger] terms(seeds, n)[k] <= u64::MAX,
    ensures
        n <= seeds.len() + 128,
{
    if n > seeds.len() + 128 {
        let k = seeds.len() + 128;
        lemma_terms_double(seeds, 64);
        lemma_terms_prefix(seeds, n, k as int);
        vstd::arithmetic::power2::lemma2_to64();
        assert(terms(seeds, n)[k as int] <= u64::MAX);
    }
}

/// From the first term that does not fit `u64` on, none does.
pub proof fn lemma_terms_stay_large(seeds: Seq<int>, count: nat, k: int)
    requires
        seeds.len() >= 2,
        forall|i: int| 0 <= i < seeds.len() ==> #[trigger] seeds[i] >= 0,
        terms_fit(seeds, count),
        k >= count,
    ensures
        term(seeds, k) > u64::MAX,
    decreases k,
{
    if k > count {
        lemma_terms_stay_large(seeds, count, k - 1);
        lemma_term_grows(seeds, k);
    }
}

} // verus!
