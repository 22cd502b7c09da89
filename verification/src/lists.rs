//! Sequences of flags, the ascending list of their set positions, and striking every `step`-th
//! element of a list.
use vstd::arithmetic::div_mod::lemma_fundamental_div_mod;
use vstd::prelude::*;

verus! {

/// The indices at which `b` holds, in ascending order.
pub open spec fn positions(b: Seq<bool>) -> Seq<int>
    decreases b.len(),
{
    if b.len() == 0 {
        Seq::empty()
    } else if b.last() {
        positions(b.drop_last()).push(b.len() - 1)
    } else {
        positions(b.drop_last())
    }
}

/// How many entries of `b` hold.
pub open spec fn ones(b: Seq<bool>) -> nat {
    positions(b).len()
}

/// Every element of `s` moved up by `offset`.
pub open spec fn shifted(s: Seq<int>, offset: int) -> Seq<int> {
    Seq::new(s.len(), |i: int| s[i] + offset)
}

/// Whether the elements of `s` grow from each index to the next.
pub open spec fn ascending(s: Seq<int>) -> bool {
    forall|i: int, j: int| 0 <= i < j < s.len() ==> s[i] < s[j]
}

/// `s` without the elements whose one-based place is a multiple of `step`.
pub open spec fn strike<A>(s: Seq<A>, step: int) -> Seq<A>
    decreases s.len(),
{
    if s.len() == 0 {
        Seq::empty()
    } else if s.len() as int % step == 0 {
        strike(s.drop_last(), step)
    } else {
        strike(s.drop_last(), step).push(s.last())
    }
}

/// The flags of `b` with every `step`-th set one cleared, when `phase` set flags came before `b`.
pub open spec fn thin(b: Seq<bool>, phase: int, step: int) -> Seq<bool> {
    Seq::new(b.len(), |i: int| b[i] && (phase + ones(b.take(i + 1))) % step != 0)
}

/// `positions` lists set indices only, all of them, and in ascending order.
pub proof fn lemma_positions(b: Seq<bool>)
    ensures
        ascending(positions(b)),
        ones(b) <= b.len(),
        forall|i: int| 0 <= i < ones(b) ==> 0 <= #[trigger] positions(b)[i] < b.len() && b[positions(b)[i]],
        forall|j: int| 0 <= j < b.len() && #[trigger] b[j] ==> positions(b).contains(j),
    decreases b.len(),
{
    if b.len() > 0 {
        let head = b.drop_last();
        lemma_positions(head);
        assert forall|j: int| 0 <= j < b.len() && #[trigger] b[j] implies positions(b).contains(j) by {
            if j < b.len() - 1 {
                assert(head[j]);
                let i = choose|i: int| 0 <= i < positions(head).len() && positions(head)[i] == j;
                assert(positions(b)[i] == j);
            } else {
                assert(positions(b)[positions(b).len() - 1] == j);
            }
        }
    }
}

/// The positions of a concatenation are those of the parts, the second part moved up.
pub proof fn lemma_positions_concat(a: Seq<bool>, b: Seq<bool>)
    ensures
        positions(a + b) == positions(a) + shifted(positions(b), a.len() as int),
        ones(a + b) == ones(a) + ones(b),
    decreases b.len(),
{
    if b.len() == 0 {
        assert(a + b =~= a);
        assert(positions(a + b) =~= positions(a) + shifted(positions(b), a.len() as int));
    } else {
        lemma_positions_concat(a, b.drop_last());
        assert((a + b).drop_last() =~= a + b.drop_last());
        assert((a + b).last() == b.last());
        assert(positions(a + b) =~= positions(a) + shifted(positions(b), a.len() as int));
    }
}

/// A set flag stands in the position list at the number of set flags before it.
pub proof fn lemma_position_of(b: Seq<bool>, j: int)
    requires
        0 <= j < b.len(),
        b[j],
    ensures
        ones(b.take(j)) < ones(b),
        positions(b)[ones(b.take(j)) as int] == j,
        ones(b.take(j + 1)) == ones(b.take(j)) + 1,
{
    assert(b =~= b.take(j + 1) + b.skip(j + 1));
    lemma_positions_concat(b.take(j + 1), b.skip(j + 1));
    assert(b.take(j + 1).drop_last() =~= b.take(j));
}

/// The number of set flags grows by at most one with each entry.
pub proof fn lemma_ones_step(b: Seq<bool>, j: int)
    requires
        0 <= j < b.len(),
    ensures
        ones(b.take(j + 1)) == ones(b.take(j)) + if b[j] { 1int } else { 0int },
{
    assert(b.take(j + 1).drop_last() =~= b.take(j));
}

/// Clearing one set flag removes its entry of the position list.
pub proof fn lemma_positions_clear(b: Seq<bool>, j: int)
    requires
        0 <= j < b.len(),
        b[j],
    ensures
        positions(b.update(j, false)) == positions(b).remove(ones(b.take(j)) as int),
        ones(b.update(j, false)) == ones(b) - 1,
{
    let k = ones(b.take(j)) as int;
    let c = b.update(j, false);
    lemma_position_of(b, j);
    assert(b =~= b.take(j + 1) + b.skip(j + 1));
    assert(c =~= c.take(j + 1) + b.skip(j + 1));
    lemma_positions_concat(b.take(j + 1), b.skip(j + 1));
    lemma_positions_concat(c.take(j + 1), b.skip(j + 1));
    assert(b.take(j + 1).drop_last() =~= b.take(j));
    assert(c.take(j + 1).drop_last() =~= b.take(j));
    assert(positions(c) =~= positions(b).remove(k));
}

/// The quotient and the remainder are the only pair that fits.
pub proof fn lemma_quotient(n: int, step: int, q: int, r: int)
    requires
        n == step * q + r,
        0 <= r < step,
    ensures
        n / step == q,
        n % step == r,
{
    assert(step * q == q * step) by (nonlinear_arith);
    vstd::arithmetic::div_mod::lemma_fundamental_div_mod_converse(n, step, q, r);
}

/// `n / step` grows by one exactly where `n` reaches a multiple of `step`.
pub proof fn lemma_div_next(n: int, step: int)
    requires
        n >= 1,
        step >= 1,
    ensures
        n / step == (n - 1) / step + if n % step == 0 { 1int } else { 0int },
        (n - 1) / step <= n - 1,
{
    lemma_fundamental_div_mod(n - 1, step);
    let q = (n - 1) / step;
    let r = (n - 1) % step;
    if r + 1 < step {
        lemma_quotient(n, step, q, r + 1);
    } else {
        assert(step * (q + 1) == step * q + step) by (nonlinear_arith);
        lemma_quotient(n, step, q + 1, 0);
    }
    assert(q <= n - 1) by (nonlinear_arith)
        requires
            n - 1 == step * q + r,
            r >= 0,
            n >= 1,
            step >= 1,
    ;
}

/// Striking leaves the length less one for each multiple of `step` up to it.
pub proof fn lemma_strike_len<A>(s: Seq<A>, step: int)
    requires
        step >= 1,
    ensures
        strike(s, step).len() == s.len() - s.len() as int / step,
    decreases s.len(),
{
    if s.len() > 0 {
        lemma_strike_len(s.drop_last(), step);
        lemma_div_next(s.len() as int, step);
    } else {
        lemma_quotient(0, step, 0, 0);
    }
}

/// Striking never makes a list longer, whatever the step.
pub proof fn lemma_strike_no_longer<A>(s: Seq<A>, step: int)
    ensures
        strike(s, step).len() <= s.len(),
    decreases s.len(),
{
    if s.len() > 0 {
        lemma_strike_no_longer(s.drop_last(), step);
    }
}

/// An element at place `r` that is not struck moves to place `r - r / step`.
pub proof fn lemma_strike_index<A>(s: Seq<A>, step: int, r: int)
    requires
        step >= 1,
        1 <= r <= s.len(),
        r % step != 0,
    ensures
        1 <= r - r / step <= strike(s, step).len(),
        strike(s, step)[r - r / step - 1] == s[r - 1],
    decreases s.len(),
{
    lemma_div_next(r, step);
    lemma_strike_len(s, step);
    if r == s.len() {
        lemma_strike_len(s.drop_last(), step);
    } else {
        lemma_strike_index(s.drop_last(), step, r);
    }
}

/// Every element that is left stood at a place that is no multiple of `step`.
pub proof fn lemma_strike_source<A>(s: Seq<A>, step: int, i: int) -> (r: int)
    requires
        step >= 1,
        0 <= i < strike(s, step).len(),
    ensures
        1 <= r <= s.len(),
        r % step != 0,
        r - r / step - 1 == i,
        strike(s, step)[i] == s[r - 1],
    decreases s.len(),
{
    let n = s.len() as int;
    lemma_strike_len(s.drop_last(), step);
    lemma_div_next(n, step);
    if n % step != 0 && i == strike(s, step).len() - 1 {
        n
    } else {
        lemma_strike_source(s.drop_last(), step, i)
    }
}

/// A list shorter than the step is not touched.
pub proof fn lemma_strike_short<A>(s: Seq<A>, step: int)
    requires
        s.len() < step,
    ensures
        strike(s, step) == s,
    decreases s.len(),
{
    if s.len() > 0 {
        lemma_strike_short(s.drop_last(), step);
        lemma_quotient(s.len() as int, step, 0, s.len() as int);
        assert(s.drop_last().push(s.last()) =~= s);
    } else {
        assert(s =~= Seq::empty());
    }
}

/// A block of exactly `step` elements loses its last one.
pub proof fn lemma_strike_block<A>(s: Seq<A>, step: int)
    requires
        s.len() == step,
        step >= 1,
    ensures
        strike(s, step) == s.drop_last(),
{
    lemma_quotient(step, step, 1, 0);
    lemma_strike_short(s.drop_last(), step);
}

/// Striking works part by part where the first part has a multiple of `step` elements.
pub proof fn lemma_strike_concat<A>(a: Seq<A>, b: Seq<A>, step: int)
    requires
        step >= 1,
        a.len() as int % step == 0,
    ensures
        strike(a + b, step) == strike(a, step) + strike(b, step),
    decreases b.len(),
{
    if b.len() == 0 {
        assert(a + b =~= a);
        assert(strike(a, step) + strike(b, step) =~= strike(a, step));
    } else {
        lemma_strike_concat(a, b.drop_last(), step);
        assert((a + b).drop_last() =~= a + b.drop_last());
        assert((a.len() + b.len()) as int % step == b.len() as int % step) by {
            lemma_fundamental_div_mod(a.len() as int, step);
            lemma_fundamental_div_mod(b.len() as int, step);
            let qa = a.len() as int / step;
            let qb = b.len() as int / step;
            assert(step * (qa + qb) == step * qa + step * qb) by (nonlinear_arith);
            lemma_quotient(
                (a.len() + b.len()) as int,
                step,
                qa + qb,
                b.len() as int % step,
            );
        }
        assert(strike(a + b, step) =~= strike(a, step) + strike(b, step));
    }
}

/// Striking commutes with taking a prefix of the list: the prefix is struck alone.
pub proof fn lemma_strike_prefix<A>(s: Seq<A>, k: int, step: int)
    requires
        step >= 1,
        0 <= k <= s.len(),
    ensures
        strike(s.take(k), step).len() <= strike(s, step).len(),
        strike(s, step).take(strike(s.take(k), step).len() as int) == strike(s.take(k), step),
    decreases s.len(),
{
    if k == s.len() {
        assert(s.take(k) =~= s);
        assert(strike(s, step).take(strike(s, step).len() as int) =~= strike(s, step));
    } else {
        lemma_strike_prefix(s.drop_last(), k, step);
        assert(s.drop_last().take(k) =~= s.take(k));
        let n = strike(s.take(k), step).len() as int;
        assert(strike(s, step).take(n) =~= strike(s.drop_last(), step).take(n));
    }
}

/// Striking keeps the ascending order.
pub proof fn lemma_strike_ascending(s: Seq<int>, step: int)
    requires
        step >= 1,
        ascending(s),
    ensures
        ascending(strike(s, step)),
        forall|i: int| 0 <= i < strike(s, step).len() ==> s.contains(#[trigger] strike(s, step)[i]),
    decreases s.len(),
{
    if s.len() > 0 {
        let head = s.drop_last();
        lemma_strike_ascending(head, step);
        let t = strike(head, step);
        assert forall|i: int| 0 <= i < t.len() implies t[i] < s.last() && s.contains(t[i]) by {
            assert(head.contains(t[i]));
            let j = choose|j: int| 0 <= j < head.len() && head[j] == t[i];
            assert(s[j] == t[i]);
        }
        assert forall|i: int| 0 <= i < strike(s, step).len() implies s.contains(
            #[trigger] strike(s, step)[i],
        ) by {
            if i < t.len() {
                assert(strike(s, step)[i] == t[i]);
            } else {
                assert(s[s.len() - 1] == s.last());
            }
        }
    }
}

/// Striking a list of images is taking the images of the struck list.
pub proof fn lemma_strike_map<A, B>(s: Seq<A>, f: spec_fn(A) -> B, step: int)
    ensures
        strike(s.map_values(f), step) == strike(s, step).map_values(f),
    decreases s.len(),
{
    if s.len() > 0 {
        lemma_strike_map(s.drop_last(), f, step);
        assert(s.map_values(f).drop_last() =~= s.drop_last().map_values(f));
    }
    assert(strike(s.map_values(f), step) =~= strike(s, step).map_values(f));
}

/// Thinning works part by part, the second part with the set flags of the first counted in.
pub proof fn lemma_thin_concat(a: Seq<bool>, b: Seq<bool>, phase: int, step: int)
    ensures
        thin(a + b, phase, step) == thin(a, phase, step) + thin(b, phase + ones(a), step),
{
    assert forall|i: int| 0 <= i < (a + b).len() implies #[trigger] thin(a + b, phase, step)[i] == (thin(
        a,
        phase,
        step,
    ) + thin(b, phase + ones(a), step))[i] by {
        if i < a.len() {
            assert((a + b).take(i + 1) =~= a.take(i + 1));
        } else {
            let j = i - a.len();
            assert((a + b).take(i + 1) =~= a + b.take(j + 1));
            lemma_positions_concat(a, b.take(j + 1));
        }
    }
    assert(thin(a + b, phase, step) =~= thin(a, phase, step) + thin(b, phase + ones(a), step));
}

/// The phase matters only up to multiples of `step`.
pub proof fn lemma_thin_phase(b: Seq<bool>, p: int, q: int, step: int)
    requires
        step >= 1,
        p % step == q % step,
    ensures
        thin(b, p, step) == thin(b, q, step),
{
    assert forall|i: int| 0 <= i < b.len() implies #[trigger] thin(b, p, step)[i] == thin(b, q, step)[i] by {
        let k = ones(b.take(i + 1)) as int;
        vstd::arithmetic::div_mod::lemma_add_mod_noop(p, k, step);
        vstd::arithmetic::div_mod::lemma_add_mod_noop(q, k, step);
    }
    assert(thin(b, p, step) =~= thin(b, q, step));
}

/// The last entry has no influence on the entries before it.
proof fn lemma_thin_drop_last(b: Seq<bool>, phase: int, step: int)
    requires
        b.len() > 0,
    ensures
        thin(b, phase, step).drop_last() == thin(b.drop_last(), phase, step),
{
    let head = b.drop_last();
    assert forall|i: int| 0 <= i < head.len() implies thin(b, phase, step)[i] == #[trigger] thin(
        head,
        phase,
        step,
    )[i] by {
        assert(b.take(i + 1) =~= head.take(i + 1));
    }
    assert(thin(b, phase, step).drop_last() =~= thin(head, phase, step));
}

/// Thinning flags from phase zero strikes every `step`-th entry of the position list.
pub proof fn lemma_thin_strike(b: Seq<bool>, step: int)
    ensures
        positions(thin(b, 0, step)) == strike(positions(b), step),
    decreases b.len(),
{
    if b.len() > 0 {
        lemma_thin_strike(b.drop_last(), step);
        lemma_thin_drop_last(b, 0, step);
        assert(b.take(b.len() as int) =~= b);
        if b.last() {
            assert(positions(b).drop_last() =~= positions(b.drop_last()));
        }
    }
    assert(positions(thin(b, 0, step)) =~= strike(positions(b), step));
}

} // verus!
