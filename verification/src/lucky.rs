//! The lucky numbers, defined by their sieve.
//!
//! The sieve starts from the odd numbers. Pass `k` takes the number at place `k + 1` of what is
//! left and strikes every number whose place is a multiple of it. A number is lucky when no pass
//! ever strikes it.
use crate::lists::{ascending, strike};
use vstd::prelude::*;

verus! {

/// The first `m` odd numbers.
pub open spec fn odds(m: nat) -> Seq<int> {
    Seq::new(m, |i: int| 2 * i + 1)
}

/// What is left of the first `m` odd numbers after `k` passes of the sieve.
pub open spec fn after_passes(m: nat, k: nat) -> Seq<int>
    decreases k,
{
    if k == 0 {
        odds(m)
    } else {
        let s = after_passes(m, (k - 1) as nat);
        if k < s.len() {
            strike(s, s[k as int])
        } else {
            s
        }
    }
}

/// How many odd numbers there are up to `n`.
pub open spec fn odd_rank(n: int) -> nat {
    ((n + 1) / 2) as nat
}

/// Whether `n` is odd, positive and never struck.
pub open spec fn is_lucky(n: int) -> bool {
    &&& n >= 1
    &&& n % 2 == 1
    &&& forall|k: nat| #[trigger] after_passes(odd_rank(n), k).contains(n)
}

/// What every pass keeps: odd numbers up to `2m - 1` in ascending order, one at the head.
pub proof fn lemma_after_passes(m: nat, k: nat)
    ensures
        ascending(after_passes(m, k)),
        after_passes(m, k).len() <= m,
        forall|i: int|
            0 <= i < after_passes(m, k).len() ==> 2 * i + 1 <= #[trigger] after_passes(m, k)[i] <= 2 * m - 1
                && after_passes(m, k)[i] % 2 == 1,
        m >= 1 ==> after_passes(m, k).len() >= 1 && after_passes(m, k)[0] == 1,
    decreases k,
{
    if k > 0 {
        let s = after_passes(m, (k - 1) as nat);
        lemma_after_passes(m, (k - 1) as nat);
        if k < s.len() {
            let l = s[k as int];
            crate::lists::lemma_strike_ascending(s, l);
            crate::lists::lemma_strike_len(s, l);
            lemma_div_bounds(s.len() as int, l);
            let t = strike(s, l);
            assert forall|i: int| 0 <= i < t.len() implies 2 * i + 1 <= #[trigger] t[i] <= 2 * m - 1 && t[i] % 2
                == 1 by {
                lemma_strike_grows(s, l, i);
                assert(s.contains(t[i]));
            }
            if m >= 1 {
                crate::lists::lemma_quotient(1, l, 0, 1);
                crate::lists::lemma_strike_index(s, l, 1);
            }
        }
    }
}

proof fn lemma_div_bounds(n: int, step: int)
    requires
        n >= 0,
        step >= 1,
    ensures
        0 <= n / step <= n,
{
    vstd::arithmetic::div_mod::lemma_div_nonincreasing(n, step);
    vstd::arithmetic::div_mod::lemma_div_pos_is_pos(n, step);
}

/// In an ascending list, striking puts no smaller number at a place than stood there.
proof fn lemma_strike_grows(s: Seq<int>, step: int, i: int)
    requires
        step >= 1,
        ascending(s),
        0 <= i < strike(s, step).len(),
    ensures
        i < s.len(),
        s[i] <= strike(s, step)[i],
{
    let r = crate::lists::lemma_strike_source(s, step, i);
    lemma_div_bounds(r, step);
}

/// The sieve of fewer odd numbers is the beginning of the sieve of more, and what follows it
/// there is larger than anything in the smaller range.
pub proof fn lemma_prefix(m: nat, big: nat, k: nat)
    requires
        m <= big,
    ensures
        after_passes(m, k).len() <= after_passes(big, k).len(),
        after_passes(big, k).take(after_passes(m, k).len() as int) == after_passes(m, k),
        forall|i: int|
            after_passes(m, k).len() <= i < after_passes(big, k).len() ==> #[trigger] after_passes(
                big,
                k,
            )[i] > 2 * m - 1,
    decreases k,
{
    if k == 0 {
        assert(odds(big).take(m as int) =~= odds(m));
    } else {
        let s = after_passes(m, (k - 1) as nat);
        let t = after_passes(big, (k - 1) as nat);
        let n = s.len() as int;
        lemma_prefix(m, big, (k - 1) as nat);
        lemma_after_passes(m, (k - 1) as nat);
        lemma_after_passes(big, (k - 1) as nat);
        if k < t.len() {
            let l = t[k as int];
            assert(after_passes(m, k) == strike(s, l)) by {
                if k < s.len() {
                    assert(s[k as int] == t.take(n)[k as int]);
                } else {
                    crate::lists::lemma_strike_short(s, l);
                }
            }
            crate::lists::lemma_strike_prefix(t, n, l);
            assert(after_passes(big, k) == strike(t, l));
            assert forall|i: int| strike(s, l).len() <= i < strike(t, l).len() implies #[trigger] strike(
                t,
                l,
            )[i] > 2 * m - 1 by {
                let r = crate::lists::lemma_strike_source(t, l, i);
                if r <= n {
                    crate::lists::lemma_strike_index(s, l, r);
                }
            }
        }
    }
}

/// One pass of the sieve strikes the same way in every range: by the factor found in the range
/// of `n_odds` odd numbers.
pub proof fn lemma_pass_by_factor(m: nat, n_odds: nat, k: nat)
    requires
        1 <= k < after_passes(n_odds, (k - 1) as nat).len(),
    ensures
        after_passes(m, k) == strike(
            after_passes(m, (k - 1) as nat),
            after_passes(n_odds, (k - 1) as nat)[k as int],
        ),
{
    let s = after_passes(m, (k - 1) as nat);
    let t = after_passes(n_odds, (k - 1) as nat);
    lemma_after_passes(m, (k - 1) as nat);
    lemma_after_passes(n_odds, (k - 1) as nat);
    if k < s.len() {
        lemma_same_factor(m, n_odds, k);
    } else {
        crate::lists::lemma_strike_short(s, t[k as int]);
    }
}

/// Every range that has a factor for pass `k` has the same one.
pub proof fn lemma_same_factor(m: nat, n_odds: nat, k: nat)
    requires
        1 <= k < after_passes(n_odds, (k - 1) as nat).len(),
        k < after_passes(m, (k - 1) as nat).len(),
    ensures
        after_passes(m, (k - 1) as nat)[k as int] == after_passes(n_odds, (k - 1) as nat)[k as int],
{
    let s = after_passes(m, (k - 1) as nat);
    let t = after_passes(n_odds, (k - 1) as nat);
    if m <= n_odds {
        lemma_prefix(m, n_odds, (k - 1) as nat);
        assert(s[k as int] == t.take(s.len() as int)[k as int]);
    } else {
        lemma_prefix(n_odds, m, (k - 1) as nat);
        assert(t[k as int] == s.take(t.len() as int)[k as int]);
    }
}

/// What a later pass leaves, every earlier pass left.
pub proof fn lemma_passes_shrink(m: nat, j: nat, k: nat, n: int)
    requires
        j <= k,
        after_passes(m, k).contains(n),
    ensures
        after_passes(m, j).contains(n),
    decreases k,
{
    if j < k {
        let s = after_passes(m, (k - 1) as nat);
        lemma_after_passes(m, (k - 1) as nat);
        if k < s.len() {
            crate::lists::lemma_strike_ascending(s, s[k as int]);
            let t = strike(s, s[k as int]);
            let i = choose|i: int| 0 <= i < t.len() && t[i] == n;
            assert(s.contains(t[i]));
        }
        lemma_passes_shrink(m, j, (k - 1) as nat, n);
    }
}

/// A number whose place is below a bound that no later factor goes under keeps its place.
pub proof fn lemma_settled(m: nat, k: nat, r: int, bound: int, j: nat)
    requires
        1 <= r <= after_passes(m, k).len(),
        r < bound,
        k + 1 < after_passes(m, k).len() ==> bound <= after_passes(m, k)[k as int + 1],
        k <= j,
    ensures
        r <= after_passes(m, j).len(),
        after_passes(m, j)[r - 1] == after_passes(m, k)[r - 1],
        j + 1 < after_passes(m, j).len() ==> bound <= after_passes(m, j)[j as int + 1],
    decreases j,
{
    if k < j {
        let i = (j - 1) as nat;
        let s = after_passes(m, i);
        lemma_settled(m, k, r, bound, i);
        lemma_after_passes(m, i);
        lemma_after_passes(m, j);
        if j < s.len() {
            let l = s[j as int];
            crate::lists::lemma_quotient(r, l, 0, r);
            crate::lists::lemma_strike_index(s, l, r);
            if j + 1 < after_passes(m, j).len() {
                lemma_strike_grows(s, l, j as int + 1);
            }
        }
    }
}

/// A number that settles is lucky: once its place is below every factor still to come, no pass
/// strikes it.
pub proof fn lemma_settled_is_lucky(n: int, k: nat, r: int, bound: int)
    requires
        n >= 1,
        n % 2 == 1,
        1 <= r <= after_passes(odd_rank(n), k).len(),
        after_passes(odd_rank(n), k)[r - 1] == n,
        r < bound,
        k + 1 < after_passes(odd_rank(n), k).len() ==> bound <= after_passes(odd_rank(n), k)[k as int + 1],
    ensures
        is_lucky(n),
{
    let m = odd_rank(n);
    assert forall|j: nat| #[trigger] after_passes(m, j).contains(n) by {
        if j >= k {
            lemma_settled(m, k, r, bound, j);
            assert(after_passes(m, j)[r - 1] == n);
        } else {
            assert(after_passes(m, k).contains(n));
            lemma_passes_shrink(m, j, k, n);
        }
    }
}

/// Where a factor of the range of `n_odds` odd numbers finds `n` at a multiple of itself, `n` is
/// not lucky.
pub proof fn lemma_struck_is_not_lucky(n: int, k: nat, n_odds: nat, r: int)
    requires
        n >= 1,
        1 <= k < after_passes(n_odds, (k - 1) as nat).len(),
        1 <= r <= after_passes(odd_rank(n), (k - 1) as nat).len(),
        after_passes(odd_rank(n), (k - 1) as nat)[r - 1] == n,
        r % after_passes(n_odds, (k - 1) as nat)[k as int] == 0,
    ensures
        !is_lucky(n),
{
    let m = odd_rank(n);
    let s = after_passes(m, (k - 1) as nat);
    let l = after_passes(n_odds, (k - 1) as nat)[k as int];
    lemma_pass_by_factor(m, n_odds, k);
    lemma_after_passes(n_odds, (k - 1) as nat);
    lemma_after_passes(m, (k - 1) as nat);
    if is_lucky(n) {
        let t = after_passes(m, k);
        assert(t.contains(n));
        let i = choose|i: int| 0 <= i < t.len() && t[i] == n;
        let q = crate::lists::lemma_strike_source(s, l, i);
        assert(q == r);
    }
}

/// An odd number starts at the place that counts the odd numbers up to it.
pub proof fn lemma_start_place(n: int)
    requires
        n >= 1,
        n % 2 == 1,
    ensures
        1 <= odd_rank(n) <= after_passes(odd_rank(n), 0).len(),
        after_passes(odd_rank(n), 0)[odd_rank(n) - 1] == n,
{
}

/// The factor of pass `k` bounds every factor after it from below, in every range.
pub proof fn lemma_factor_bounds_later(m: nat, n_odds: nat, k: nat)
    requires
        1 <= k < after_passes(n_odds, (k - 1) as nat).len(),
    ensures
        k + 1 < after_passes(m, k).len() ==> after_passes(n_odds, (k - 1) as nat)[k as int]
            <= after_passes(m, k)[k as int + 1],
{
    let s = after_passes(m, (k - 1) as nat);
    let t = after_passes(n_odds, (k - 1) as nat);
    let l = t[k as int];
    lemma_pass_by_factor(m, n_odds, k);
    lemma_after_passes(m, (k - 1) as nat);
    lemma_after_passes(n_odds, (k - 1) as nat);
    if k + 1 < after_passes(m, k).len() {
        lemma_strike_grows(s, l, k as int + 1);
        lemma_same_factor(m, n_odds, k);
    }
}

/// Once a range of `n_odds` odd numbers has no factor left for the next pass, that pass's factor
/// in any range is above the whole of the first range.
pub proof fn lemma_exhausted_bounds_later(m: nat, n_odds: nat, k: nat)
    requires
        after_passes(n_odds, k).len() <= k + 1,
    ensures
        k + 1 < after_passes(m, k).len() ==> 2 * n_odds - 1 < after_passes(m, k)[k as int + 1],
{
    lemma_after_passes(m, k);
    if k + 1 < after_passes(m, k).len() {
        if m <= n_odds {
            lemma_prefix(m, n_odds, k);
        } else {
            lemma_prefix(n_odds, m, k);
        }
    }
}

/// A range that has used up its factors lists exactly its lucky numbers.
pub proof fn lemma_exhausted_lists_lucky(n_odds: nat, k: nat, n: int)
    requires
        after_passes(n_odds, k).len() <= k + 1,
        1 <= n <= 2 * n_odds - 1,
    ensures
        after_passes(n_odds, k).contains(n) <==> is_lucky(n),
{
    let m = odd_rank(n);
    if n % 2 == 1 {
        lemma_prefix(m, n_odds, k);
        lemma_after_passes(m, k);
        let s = after_passes(m, k);
        let t = after_passes(n_odds, k);
        if t.contains(n) {
            let i = choose|i: int| 0 <= i < t.len() && t[i] == n;
            assert(i < s.len());
            assert(s[i] == t.take(s.len() as int)[i]);
            lemma_exhausted_bounds_later(m, n_odds, k);
            lemma_settled_is_lucky(n, k, i + 1, i + 2);
        }
        if is_lucky(n) {
            assert(s.contains(n));
            let i = choose|i: int| 0 <= i < s.len() && s[i] == n;
            assert(t[i] == t.take(s.len() as int)[i]);
        }
    } else {
        lemma_after_passes(n_odds, k);
    }
}

/// How many lucky numbers there are up to `n`.
pub open spec fn lucky_count(n: int) -> nat
    decreases n,
{
    if n <= 0 {
        0
    } else {
        lucky_count(n - 1) + if is_lucky(n) {
            1nat
        } else {
            0nat
        }
    }
}

/// An ascending list of exactly the lucky numbers up to `n` is as long as their count.
proof fn lemma_lucky_count(s: Seq<int>, n: int)
    requires
        n >= 0,
        ascending(s),
        forall|i: int| 0 <= i < s.len() ==> 1 <= #[trigger] s[i] <= n,
        forall|x: int| 1 <= x <= n ==> (#[trigger] s.contains(x) <==> is_lucky(x)),
    ensures
        s.len() == lucky_count(n),
    decreases n,
{
    if n == 0 {
        if s.len() > 0 {
            assert(1 <= s[0] <= n);
        }
    } else {
        let t = if is_lucky(n) {
            s.drop_last()
        } else {
            s
        };
        if is_lucky(n) {
            assert(s.contains(n));
            let i = choose|i: int| 0 <= i < s.len() && s[i] == n;
            if i < s.len() - 1 {
                assert(s[i] < s[s.len() - 1]);
            }
        }
        assert forall|i: int| 0 <= i < t.len() implies 1 <= #[trigger] t[i] <= n - 1 by {
            if is_lucky(n) {
                assert(s[i] < s[s.len() - 1]);
            } else {
                assert(s.contains(s[i]));
            }
        }
        assert forall|x: int| 1 <= x <= n - 1 implies (#[trigger] t.contains(x) <==> is_lucky(x)) by {
            assert(s.contains(x) <==> is_lucky(x));
            if s.contains(x) {
                let i = choose|i: int| 0 <= i < s.len() && s[i] == x;
                assert(t[i] == x);
            }
            if t.contains(x) {
                let i = choose|i: int| 0 <= i < t.len() && t[i] == x;
                assert(s[i] == x);
            }
        }
        lemma_lucky_count(t, n - 1);
    }
}

/// The place at which a number settles counts the lucky numbers up to it: everything at or below
/// a settled place has settled too.
pub proof fn lemma_settled_place(n: int, k: nat, r: int, bound: int)
    requires
        n >= 1,
        n % 2 == 1,
        1 <= r <= after_passes(odd_rank(n), k).len(),
        after_passes(odd_rank(n), k)[r - 1] == n,
        r < bound,
        k + 1 < after_passes(odd_rank(n), k).len() ==> bound <= after_passes(odd_rank(n), k)[k as int + 1],
    ensures
        r == lucky_count(n),
{
    let m = odd_rank(n);
    let s = after_passes(m, k);
    lemma_after_passes(m, k);
    if r < s.len() {
        assert(s[r - 1] < s[r]);
    }
    assert forall|x: int| 1 <= x <= n implies (#[trigger] s.contains(x) <==> is_lucky(x)) by {
        if x % 2 == 1 {
            let t = after_passes(odd_rank(x), k);
            lemma_prefix(odd_rank(x), m, k);
            lemma_after_passes(odd_rank(x), k);
            if s.contains(x) {
                let i = choose|i: int| 0 <= i < s.len() && s[i] == x;
                assert(i < t.len());
                assert(t[i] == s.take(t.len() as int)[i]);
                if k + 1 < t.len() {
                    assert(t[k as int + 1] == s.take(t.len() as int)[k as int + 1]);
                }
                lemma_settled_is_lucky(x, k, i + 1, bound);
            }
            if is_lucky(x) {
                assert(t.contains(x));
                let i = choose|i: int| 0 <= i < t.len() && t[i] == x;
                assert(s[i] == s.take(t.len() as int)[i]);
            }
        } else if s.contains(x) {
            let i = choose|i: int| 0 <= i < s.len() && s[i] == x;
            assert(s[i] % 2 == 1);
        }
    }
    lemma_lucky_count(s, n);
}

} // verus!
