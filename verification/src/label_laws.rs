//! What holds of lists of candidates as wholes: the order of labels, repeated lists, bounds, and
//! the terms of a recurrence.
use crate::candidates::{
    admitted, candidates_of, collected, lists_families, lists_family, lists_recurrence, merged, merged_all, noted,
    noted_all, touched, Candidate, CandidateLabel, LabelMap,
};
use crate::config::CandidateFamily;
use crate::families::{
    consecutive_entries, fibonacci_seeds, lucas_seeds, mersenne_entries, mersenne_prime_entries, recurrence_entries,
    repdigit_entries, term, terms, terms_fit, tetranacci_seeds, Entry,
};
use crate::laws::{has_number, labels_in, law_collected, law_merged};
use vstd::prelude::*;

verus! {

/// `s` without the elements that stand earlier in it.
pub open spec fn firsts<A>(s: Seq<A>) -> Seq<A>
    decreases s.len(),
{
    if s.len() == 0 {
        Seq::empty()
    } else {
        let rest = firsts(s.drop_last());
        if rest.contains(s.last()) {
            rest
        } else {
            rest.push(s.last())
        }
    }
}

/// The labels that a list of entries has for `n`, in order.
pub open spec fn entry_labels(entries: Seq<Entry>, n: u64) -> Seq<CandidateLabel>
    decreases entries.len(),
{
    if entries.len() == 0 {
        Seq::empty()
    } else {
        let rest = entry_labels(entries.drop_last(), n);
        if entries.last().1 == n {
            rest.push(entries.last().0)
        } else {
            rest
        }
    }
}

/// The labels that a list of candidates gives `n`, in order.
pub open spec fn given(candidates: Seq<Candidate>, n: u64) -> Seq<CandidateLabel>
    decreases candidates.len(),
{
    if candidates.len() == 0 {
        Seq::empty()
    } else {
        let rest = given(candidates.drop_last(), n);
        if candidates.last().n == n {
            rest + candidates.last().label_seq()
        } else {
            rest
        }
    }
}

/// The labels that several lists of candidates give `n`, those of the first list first.
pub open spec fn given_all(lists: Seq<Vec<Candidate>>, n: u64) -> Seq<CandidateLabel>
    decreases lists.len(),
{
    if lists.len() == 0 {
        Seq::empty()
    } else {
        given_all(lists.drop_last(), n) + given(lists.last()@, n)
    }
}

/// Whether two lists hold the same numbers with the same labels and states, in the same order.
pub open spec fn same_list(a: Seq<Candidate>, b: Seq<Candidate>) -> bool {
    &&& a.len() == b.len()
    &&& forall|i: int|
        0 <= i < a.len() ==> (#[trigger] a[i]).n == b[i].n && a[i].label_seq() == b[i].label_seq() && a[i].state
            == b[i].state
}

/// `firsts` has the same elements, each once.
proof fn lemma_firsts<A>(s: Seq<A>)
    ensures
        firsts(s).no_duplicates(),
        forall|x: A| #[trigger] firsts(s).contains(x) <==> s.contains(x),
    decreases s.len(),
{
    if s.len() > 0 {
        let head = s.drop_last();
        lemma_firsts(head);
        assert(s =~= head.push(s.last()));
        assert forall|x: A| #[trigger] firsts(s).contains(x) <==> s.contains(x) by {
            vstd::seq_lib::lemma_seq_contains_after_push(head, s.last(), x);
            vstd::seq_lib::lemma_seq_contains_after_push(firsts(head), s.last(), x);
            assert(firsts(head).contains(x) <==> head.contains(x));
        }
    }
}

/// Elements without repetition stay.
proof fn lemma_firsts_distinct<A>(s: Seq<A>)
    requires
        s.no_duplicates(),
    ensures
        firsts(s) == s,
    decreases s.len(),
{
    if s.len() > 0 {
        let head = s.drop_last();
        lemma_firsts_distinct(head);
        assert(!head.contains(s.last())) by {
            if head.contains(s.last()) {
                let i = choose|i: int| 0 <= i < head.len() && head[i] == s.last();
                assert(s[i] == s[s.len() - 1]);
            }
        }
        assert(head.push(s.last()) =~= s);
    }
}

/// Elements that have come before add nothing.
proof fn lemma_firsts_repeated<A>(x: Seq<A>, y: Seq<A>, z: Seq<A>)
    requires
        forall|a: A| #[trigger] y.contains(a) ==> x.contains(a),
    ensures
        firsts(x + y + z) == firsts(x + z),
    decreases y.len() + z.len(),
{
    if z.len() > 0 {
        let head = z.drop_last();
        lemma_firsts_repeated(x, y, head);
        assert((x + y + z).drop_last() =~= x + y + head);
        assert((x + z).drop_last() =~= x + head);
    } else if y.len() > 0 {
        let head = y.drop_last();
        assert forall|a: A| #[trigger] head.contains(a) implies x.contains(a) by {
            let i = choose|i: int| 0 <= i < head.len() && head[i] == a;
            assert(y[i] == a);
            assert(y.contains(a));
        }
        lemma_firsts_repeated(x, head, z);
        assert((x + y + z).drop_last() =~= x + head + z);
        assert((x + y + z).last() == y.last());
        assert(y.contains(y.last())) by {
            assert(y[y.len() - 1] == y.last());
        }
        assert(x + z =~= x);
        lemma_firsts(x);
    } else {
        assert(x + y + z =~= x + z);
    }
}

/// Noting a label goes on with the labels of its number and leaves the others alone.
proof fn lemma_note_in_order(m: LabelMap, n: u64, label: CandidateLabel, k: u64, before: Seq<CandidateLabel>)
    requires
        labels_in(m, k) == firsts(before),
    ensures
        labels_in(noted(m, n, label), k) == firsts(
            if k == n {
                before.push(label)
            } else {
                before
            },
        ),
{
    let after = before.push(label);
    assert(after.drop_last() =~= before);
    assert(touched(m, n).contains_key(n));
    if k == n {
        assert(touched(m, n)[n] == firsts(before));
    }
}

/// Noting several labels goes on with the labels of their number and leaves the others alone.
proof fn lemma_note_all_in_order(
    m: LabelMap,
    n: u64,
    labels: Seq<CandidateLabel>,
    k: u64,
    before: Seq<CandidateLabel>,
)
    requires
        labels_in(m, k) == firsts(before),
    ensures
        labels_in(noted_all(m, n, labels), k) == firsts(
            if k == n {
                before + labels
            } else {
                before
            },
        ),
    decreases labels.len(),
{
    if labels.len() == 0 {
        assert(before + labels =~= before);
    } else {
        let head = labels.drop_last();
        lemma_note_all_in_order(m, n, head, k, before);
        let so_far = if k == n {
            before + head
        } else {
            before
        };
        lemma_note_in_order(noted_all(m, n, head), n, labels.last(), k, so_far);
        assert((before + head).push(labels.last()) =~= before + labels);
    }
}

/// Merging a list goes on with the labels that the list gives.
proof fn lemma_merge_in_order(m: LabelMap, candidates: Seq<Candidate>, n: u64, before: Seq<CandidateLabel>)
    requires
        labels_in(m, n) == firsts(before),
    ensures
        labels_in(merged(m, candidates), n) == firsts(before + given(candidates, n)),
    decreases candidates.len(),
{
    if candidates.len() == 0 {
        assert(before + given(candidates, n) =~= before);
    } else {
        let head = candidates.drop_last();
        let last = candidates.last();
        lemma_merge_in_order(m, head, n, before);
        lemma_note_all_in_order(merged(m, head), last.n, last.label_seq(), n, before + given(head, n));
        assert((before + given(head, n)) + last.label_seq() =~= before + (given(head, n) + last.label_seq()));
    }
}

/// The labels of a merged candidate are those that the lists give it, in the order of the lists,
/// each at its first occurrence.
pub proof fn law_merged_in_order(lists: Seq<Vec<Candidate>>, n: u64)
    ensures
        labels_in(merged_all(lists), n) == firsts(given_all(lists, n)),
    decreases lists.len(),
{
    if lists.len() > 0 {
        law_merged_in_order(lists.drop_last(), n);
        lemma_merge_in_order(merged_all(lists.drop_last()), lists.last()@, n, given_all(lists.drop_last(), n));
    }
}

/// The labels of a candidate that a family builds up are those of its entries, in order, each at
/// its first occurrence.
pub proof fn law_collected_in_order(entries: Seq<Entry>, min: u64, max: u64, n: u64)
    ensures
        labels_in(collected(entries, min, max), n) == if admitted(n as int, min, max) {
            firsts(entry_labels(entries, n))
        } else {
            Seq::empty()
        },
    decreases entries.len(),
{
    if entries.len() > 0 {
        let head = entries.drop_last();
        let last = entries.last();
        law_collected_in_order(head, min, max, n);
        law_collected(entries, min, max, n);
        if admitted(n as int, min, max) && admitted(last.1, min, max) {
            lemma_note_in_order(collected(head, min, max), last.1 as u64, last.0, n, entry_labels(head, n));
        }
    }
}

/// The labels of lists in a row are those of the first ones and then those of the others.
proof fn lemma_given_concat(a: Seq<Vec<Candidate>>, b: Seq<Vec<Candidate>>, n: u64)
    ensures
        given_all(a + b, n) == given_all(a, n) + given_all(b, n),
    decreases b.len(),
{
    if b.len() == 0 {
        assert(a + b =~= a);
        assert(given_all(a, n) + given_all(b, n) =~= given_all(a, n));
    } else {
        lemma_given_concat(a, b.drop_last(), n);
        assert((a + b).drop_last() =~= a + b.drop_last());
        assert(given_all(a + b, n) =~= given_all(a, n) + given_all(b, n));
    }
}

/// Equal lists give the same labels.
proof fn lemma_given_same(a: Seq<Candidate>, b: Seq<Candidate>, n: u64)
    requires
        same_list(a, b),
    ensures
        given(a, n) == given(b, n),
    decreases a.len(),
{
    if a.len() > 0 {
        assert(a[a.len() - 1].n == b[b.len() - 1].n);
        assert forall|i: int| 0 <= i < a.drop_last().len() implies (#[trigger] a.drop_last()[i]).n == b.drop_last()[i].n
            && a.drop_last()[i].label_seq() == b.drop_last()[i].label_seq() && a.drop_last()[i].state
            == b.drop_last()[i].state by {
            assert(a[i].n == b[i].n);
        }
        lemma_given_same(a.drop_last(), b.drop_last(), n);
    }
}

/// A list that repeats an earlier one changes nothing.
pub proof fn law_repeated_list_changes_nothing(lists: Seq<Vec<Candidate>>, i: int, j: int)
    requires
        0 <= i < j < lists.len(),
        same_list(lists[i]@, lists[j]@),
    ensures
        merged_all(lists.remove(j)) == merged_all(lists),
{
    let rest = lists.remove(j);
    let m = merged_all(lists);
    let w = merged_all(rest);
    let label = CandidateLabel::Mersenne { exponent: 0 };
    assert forall|n: u64| w.contains_key(n) == m.contains_key(n) by {
        law_merged(lists, n, label);
        law_merged(rest, n, label);
        if m.contains_key(n) {
            let k = choose|k: int| 0 <= k < lists.len() && has_number((#[trigger] lists[k])@, n);
            if k == j {
                let c = choose|c: int| 0 <= c < lists[j]@.len() && (#[trigger] lists[j]@[c]).n == n;
                assert(lists[i]@[c].n == n);
                assert(has_number(rest[i]@, n));
            } else if k < j {
                assert(has_number(rest[k]@, n));
            } else {
                assert(has_number(rest[k - 1]@, n));
            }
        }
        if w.contains_key(n) {
            let k = choose|k: int| 0 <= k < rest.len() && has_number((#[trigger] rest[k])@, n);
            if k < j {
                assert(has_number(lists[k]@, n));
            } else {
                assert(has_number(lists[k + 1]@, n));
            }
        }
    }
    assert forall|n: u64| w.contains_key(n) implies w[n] == m[n] by {
        law_merged_in_order(lists, n);
        law_merged_in_order(rest, n);
        let a = lists.take(j);
        let b = lists.skip(j + 1);
        let one = seq![lists[j]];
        assert(lists =~= a + one + b);
        assert(rest =~= a + b);
        lemma_given_concat(a + one, b, n);
        lemma_given_concat(a, one, n);
        lemma_given_concat(a, b, n);
        assert(one.drop_last() =~= Seq::empty());
        let y = given(lists[j]@, n);
        assert(given_all(one, n) =~= y) by {
            reveal_with_fuel(given_all, 2);
        }
        lemma_given_same(lists[i]@, lists[j]@, n);
        let x = given_all(a, n);
        assert forall|l: CandidateLabel| #[trigger] y.contains(l) implies x.contains(l) by {
            lemma_given_part(a, i, n, l);
        }
        lemma_firsts_repeated(x, y, given_all(b, n));
    }
    assert(w =~= m);
}

/// What one of several lists gives, the lists give.
proof fn lemma_given_part(lists: Seq<Vec<Candidate>>, i: int, n: u64, l: CandidateLabel)
    requires
        0 <= i < lists.len(),
        given(lists[i]@, n).contains(l),
    ensures
        given_all(lists, n).contains(l),
    decreases lists.len(),
{
    let head = given_all(lists.drop_last(), n);
    let tail = given(lists.last()@, n);
    if i < lists.len() - 1 {
        lemma_given_part(lists.drop_last(), i, n, l);
        let k = choose|k: int| 0 <= k < head.len() && head[k] == l;
        assert((head + tail)[k] == l);
    } else {
        let k = choose|k: int| 0 <= k < tail.len() && tail[k] == l;
        assert((head + tail)[head.len() + k] == l);
    }
}

/// What a list of candidates holds fixes the list.
pub proof fn law_candidates_are_fixed(a: Seq<Candidate>, b: Seq<Candidate>, m: LabelMap)
    requires
        candidates_of(a, m),
        candidates_of(b, m),
    ensures
        same_list(a, b),
{
    assert forall|n: u64| #[trigger] has_number(a, n) <==> has_number(b, n) by {
        if has_number(a, n) {
            let i = choose|i: int| 0 <= i < a.len() && (#[trigger] a[i]).n == n;
            assert(m.contains_key(a[i].n));
        }
        if has_number(b, n) {
            let i = choose|i: int| 0 <= i < b.len() && (#[trigger] b[i]).n == n;
            assert(m.contains_key(b[i].n));
        }
    }
    lemma_same_numbers_in_order(a, b);
    assert forall|i: int| 0 <= i < a.len() implies (#[trigger] a[i]).n == b[i].n && a[i].label_seq()
        == b[i].label_seq() && a[i].state == b[i].state by {
        assert(m.contains_key(a[i].n));
        assert(m.contains_key(b[i].n));
    }
}

/// Ascending lists of the same numbers have the same number at every place.
proof fn lemma_same_numbers_in_order(a: Seq<Candidate>, b: Seq<Candidate>)
    requires
        forall|i: int, j: int| 0 <= i < j < a.len() ==> a[i].n < a[j].n,
        forall|i: int, j: int| 0 <= i < j < b.len() ==> b[i].n < b[j].n,
        forall|n: u64| #[trigger] has_number(a, n) <==> has_number(b, n),
    ensures
        a.len() == b.len(),
        forall|i: int| 0 <= i < a.len() ==> (#[trigger] a[i]).n == b[i].n,
    decreases a.len() + b.len(),
{
    if a.len() > 0 && b.len() > 0 {
        let p = a.drop_last();
        let q = b.drop_last();
        assert(has_number(a, a.last().n)) by {
            assert(a[a.len() - 1].n == a.last().n);
        }
        assert(has_number(b, b.last().n)) by {
            assert(b[b.len() - 1].n == b.last().n);
        }
        assert(has_number(b, a.last().n) && has_number(a, b.last().n));
        let i = choose|i: int| 0 <= i < a.len() && (#[trigger] a[i]).n == b.last().n;
        let j = choose|j: int| 0 <= j < b.len() && (#[trigger] b[j]).n == a.last().n;
        assert(a.last().n == b.last().n) by {
            if i < a.len() - 1 {
                assert(a[i].n < a[a.len() - 1].n);
            }
            if j < b.len() - 1 {
                assert(b[j].n < b[b.len() - 1].n);
            }
        }
        lemma_number_of_head(a);
        lemma_number_of_head(b);
        assert forall|n: u64| #[trigger] has_number(p, n) <==> has_number(q, n) by {
            assert(has_number(a, n) <==> has_number(b, n));
        }
        lemma_same_numbers_in_order(p, q);
        assert forall|k: int| 0 <= k < a.len() implies (#[trigger] a[k]).n == b[k].n by {
            if k < p.len() {
                assert(p[k].n == q[k].n);
            }
        }
    } else if a.len() > 0 {
        assert(has_number(a, a[0].n));
        assert(has_number(b, a[0].n));
    } else if b.len() > 0 {
        assert(has_number(b, b[0].n));
        assert(has_number(a, b[0].n));
    }
}

/// An ascending list without its last candidate has all its numbers but the last.
proof fn lemma_number_of_head(a: Seq<Candidate>)
    requires
        a.len() > 0,
        forall|i: int, j: int| 0 <= i < j < a.len() ==> a[i].n < a[j].n,
    ensures
        forall|n: u64| #[trigger] has_number(a.drop_last(), n) <==> has_number(a, n) && n != a.last().n,
{
    let p = a.drop_last();
    assert forall|n: u64| #[trigger] has_number(p, n) <==> has_number(a, n) && n != a.last().n by {
        if has_number(p, n) {
            let i = choose|i: int| 0 <= i < p.len() && (#[trigger] p[i]).n == n;
            assert(a[i].n == n);
            assert(a[i].n < a[a.len() - 1].n);
        }
        if has_number(a, n) && n != a.last().n {
            let i = choose|i: int| 0 <= i < a.len() && (#[trigger] a[i]).n == n;
            assert(p[i].n == n);
        }
    }
}

/// The terms of a sequence that its candidates are taken from, labelled.
pub open spec fn recurrence_list(seeds: Seq<int>, label: spec_fn(u32) -> CandidateLabel) -> Seq<Entry> {
    recurrence_entries(seeds, choose|count: nat| terms_fit(seeds, count), label)
}

/// The labelled numbers that the candidates of a family are taken from.
pub open spec fn family_list(family: CandidateFamily) -> Seq<Entry> {
    match family {
        CandidateFamily::Repdigit => repdigit_entries(),
        CandidateFamily::Mersenne => mersenne_entries(),
        CandidateFamily::MersennePrimeExponent => mersenne_prime_entries(63),
        CandidateFamily::Fibonacci => recurrence_list(
            fibonacci_seeds(),
            |index: u32| CandidateLabel::Fibonacci { index },
        ),
        CandidateFamily::Lucas => recurrence_list(lucas_seeds(), |index: u32| CandidateLabel::Lucas { index }),
        CandidateFamily::Tetranacci => recurrence_list(
            tetranacci_seeds(),
            |index: u32| CandidateLabel::Tetranacci { index },
        ),
        CandidateFamily::ConsecutiveDigits => consecutive_entries(),
    }
}

/// There is only one first term after the seeds that does not fit.
proof fn lemma_terms_fit_once(seeds: Seq<int>, a: nat, b: nat)
    requires
        seeds.len() >= 1,
        forall|i: int| 0 <= i < seeds.len() ==> #[trigger] seeds[i] >= 0,
        terms_fit(seeds, a),
        terms_fit(seeds, b),
    ensures
        a == b,
{
    if a < b {
        crate::families::lemma_terms_prefix(seeds, b, a as int);
        assert(terms(seeds, b)[a as int] <= u64::MAX);
    } else if b < a {
        crate::families::lemma_terms_prefix(seeds, a, b as int);
        assert(terms(seeds, a)[b as int] <= u64::MAX);
    }
}

/// The candidates of a sequence are built up from its list of terms.
proof fn lemma_recurrence_list(
    candidates: Seq<Candidate>,
    seeds: Seq<int>,
    label: spec_fn(u32) -> CandidateLabel,
    min: u64,
    max: u64,
)
    requires
        seeds.len() >= 1,
        forall|i: int| 0 <= i < seeds.len() ==> #[trigger] seeds[i] >= 0,
        lists_recurrence(candidates, seeds, label, min, max),
    ensures
        candidates_of(candidates, collected(recurrence_list(seeds, label), min, max)),
{
    let count = choose|count: nat| #[trigger]
        terms_fit(seeds, count) && candidates_of(
            candidates,
            collected(recurrence_entries(seeds, count, label), min, max),
        );
    lemma_terms_fit_once(seeds, count, choose|count: nat| terms_fit(seeds, count));
}

/// The candidates of a family are built up from its list.
proof fn lemma_family_list(family: CandidateFamily, candidates: Seq<Candidate>, min: u64, max: u64)
    requires
        lists_family(family, candidates, min, max),
    ensures
        candidates_of(candidates, collected(family_list(family), min, max)),
{
    match family {
        CandidateFamily::Fibonacci => {
            let label = |index: u32| CandidateLabel::Fibonacci { index };
            lemma_recurrence_list(candidates, fibonacci_seeds(), label, min, max);
        },
        CandidateFamily::Lucas => {
            let label = |index: u32| CandidateLabel::Lucas { index };
            lemma_recurrence_list(candidates, lucas_seeds(), label, min, max);
        },
        CandidateFamily::Tetranacci => {
            let label = |index: u32| CandidateLabel::Tetranacci { index };
            lemma_recurrence_list(candidates, tetranacci_seeds(), label, min, max);
        },
        _ => {},
    }
}

/// A family gives the same list every time.
pub proof fn law_family_list_is_fixed(
    family: CandidateFamily,
    a: Seq<Candidate>,
    b: Seq<Candidate>,
    min: u64,
    max: u64,
)
    requires
        lists_family(family, a, min, max),
        lists_family(family, b, min, max),
    ensures
        same_list(a, b),
{
    lemma_family_list(family, a, min, max);
    lemma_family_list(family, b, min, max);
    law_candidates_are_fixed(a, b, collected(family_list(family), min, max));
}

/// Whether a candidate lies within the bounds.
pub open spec fn within(min: u64, max: u64) -> spec_fn(Candidate) -> bool {
    |c: Candidate| min <= c.n <= max
}

/// Filtering keeps what it is asked to keep, in order.
proof fn lemma_filter(s: Seq<Candidate>, p: spec_fn(Candidate) -> bool)
    requires
        forall|i: int, j: int| 0 <= i < j < s.len() ==> s[i].n < s[j].n,
    ensures
        forall|i: int, j: int| 0 <= i < j < s.filter(p).len() ==> s.filter(p)[i].n < s.filter(p)[j].n,
        forall|i: int| 0 <= i < s.filter(p).len() ==> p(#[trigger] s.filter(p)[i]) && s.contains(s.filter(p)[i]),
        forall|i: int| 0 <= i < s.len() && p(#[trigger] s[i]) ==> s.filter(p).contains(s[i]),
    decreases s.len(),
{
    reveal(Seq::filter);
    if s.len() > 0 {
        let head = s.drop_last();
        lemma_filter(head, p);
        let f = head.filter(p);
        let g = s.filter(p);
        assert forall|i: int| 0 <= i < f.len() implies s.contains(#[trigger] f[i]) && f[i].n < s.last().n by {
            let k = choose|k: int| 0 <= k < head.len() && head[k] == f[i];
            assert(s[k] == f[i]);
            assert(s[k].n < s[s.len() - 1].n);
        }
        assert(s.contains(s.last())) by {
            assert(s[s.len() - 1] == s.last());
        }
        assert forall|i: int| 0 <= i < g.len() implies p(#[trigger] g[i]) && s.contains(g[i]) by {
            if i < f.len() {
                assert(g[i] == f[i]);
            }
        }
        assert forall|i: int| 0 <= i < s.len() && p(#[trigger] s[i]) implies g.contains(s[i]) by {
            if i < head.len() {
                assert(head[i] == s[i]);
                let k = choose|k: int| 0 <= k < f.len() && f[k] == s[i];
                assert(g[k] == s[i]);
            } else {
                assert(g[g.len() - 1] == s[i]);
            }
        }
    }
}

/// A list within the bounds is what filtering leaves of the whole list.
proof fn lemma_filtered_list(
    bounded: Seq<Candidate>,
    whole: Seq<Candidate>,
    inside: LabelMap,
    all: LabelMap,
    min: u64,
    max: u64,
)
    requires
        candidates_of(bounded, inside),
        candidates_of(whole, all),
        forall|n: u64| #[trigger] inside.contains_key(n) <==> all.contains_key(n) && min <= n <= max,
        forall|n: u64| #[trigger] inside.contains_key(n) ==> inside[n] == all[n],
    ensures
        same_list(bounded, whole.filter(within(min, max))),
{
    let p = within(min, max);
    let kept = whole.filter(p);
    lemma_filter(whole, p);
    assert forall|i: int| 0 <= i < kept.len() implies inside.contains_key((#[trigger] kept[i]).n) && kept[i].is_fresh(
        kept[i].n,
        inside[kept[i].n],
    ) by {
        let k = choose|k: int| 0 <= k < whole.len() && whole[k] == kept[i];
        assert(all.contains_key(whole[k].n));
        assert(p(kept[i]));
    }
    assert forall|n: u64| #[trigger] inside.contains_key(n) implies exists|i: int|
        0 <= i < kept.len() && (#[trigger] kept[i]).n == n by {
        assert(all.contains_key(n));
        let k = choose|k: int| 0 <= k < whole.len() && (#[trigger] whole[k]).n == n;
        assert(p(whole[k]));
        let i = choose|i: int| 0 <= i < kept.len() && kept[i] == whole[k];
        assert(kept[i].n == n);
    }
    law_candidates_are_fixed(bounded, kept, inside);
}

/// The bounds only filter a family's list: what it gives within them is what it gives without
/// bounds, less what lies outside.
pub proof fn law_bounds_only_filter(
    family: CandidateFamily,
    bounded: Seq<Candidate>,
    whole: Seq<Candidate>,
    min: u64,
    max: u64,
)
    requires
        lists_family(family, bounded, min, max),
        lists_family(family, whole, 0, u64::MAX),
    ensures
        same_list(bounded, whole.filter(within(min, max))),
{
    let entries = family_list(family);
    let inside = collected(entries, min, max);
    let all = collected(entries, 0, u64::MAX);
    lemma_family_list(family, bounded, min, max);
    lemma_family_list(family, whole, 0, u64::MAX);
    assert forall|n: u64| #[trigger] inside.contains_key(n) <==> all.contains_key(n) && min <= n <= max by {
        law_collected(entries, min, max, n);
        law_collected(entries, 0, u64::MAX, n);
    }
    assert forall|n: u64| #[trigger] inside.contains_key(n) implies inside[n] == all[n] by {
        law_collected(entries, min, max, n);
        law_collected(entries, 0, u64::MAX, n);
        law_collected_in_order(entries, min, max, n);
        law_collected_in_order(entries, 0, u64::MAX, n);
    }
    lemma_filtered_list(bounded, whole, inside, all, min, max);
}

/// What an ascending list gives a number is what its candidate of that number has.
proof fn lemma_given_once(candidates: Seq<Candidate>, n: u64)
    requires
        forall|i: int, j: int| 0 <= i < j < candidates.len() ==> candidates[i].n < candidates[j].n,
    ensures
        forall|i: int|
            0 <= i < candidates.len() && (#[trigger] candidates[i]).n == n ==> given(candidates, n)
                == candidates[i].label_seq(),
        !has_number(candidates, n) ==> given(candidates, n) == Seq::<CandidateLabel>::empty(),
    decreases candidates.len(),
{
    if candidates.len() > 0 {
        let head = candidates.drop_last();
        lemma_given_once(head, n);
        lemma_number_of_head(candidates);
        assert(has_number(head, n) <==> has_number(candidates, n) && n != candidates.last().n);
        assert(candidates[candidates.len() - 1].n == candidates.last().n);
        if candidates.last().n == n {
            assert(given(candidates, n) =~= candidates.last().label_seq());
        }
        assert forall|i: int| 0 <= i < candidates.len() && (#[trigger] candidates[i]).n == n implies given(
            candidates,
            n,
        ) == candidates[i].label_seq() by {
            if i < head.len() {
                assert(candidates[i].n < candidates[candidates.len() - 1].n);
                assert(head[i].n == n);
            }
        }
    }
}

/// What a list of candidates gives a number is what the map behind it holds.
proof fn lemma_given_of(candidates: Seq<Candidate>, m: LabelMap, n: u64)
    requires
        candidates_of(candidates, m),
    ensures
        given(candidates, n) == labels_in(m, n),
        has_number(candidates, n) <==> m.contains_key(n),
{
    lemma_given_once(candidates, n);
    if has_number(candidates, n) {
        let i = choose|i: int| 0 <= i < candidates.len() && (#[trigger] candidates[i]).n == n;
        assert(m.contains_key(candidates[i].n));
        assert(given(candidates, n) == candidates[i].label_seq());
    }
}

/// Within the bounds, the families' lists give the same labels with and without them.
proof fn lemma_given_within(
    families: Seq<CandidateFamily>,
    inside: Seq<Vec<Candidate>>,
    all: Seq<Vec<Candidate>>,
    min: u64,
    max: u64,
    n: u64,
)
    requires
        lists_families(families, min, max, inside),
        lists_families(families, 0, u64::MAX, all),
        min <= n <= max,
    ensures
        given_all(inside, n) == given_all(all, n),
    decreases families.len(),
{
    if families.len() > 0 {
        let f = families.drop_last();
        let a = inside.drop_last();
        let b = all.drop_last();
        let last = families.len() - 1;
        assert forall|i: int| 0 <= i < a.len() implies lists_family(f[i], (#[trigger] a[i])@, min, max) by {
            assert(inside[i] == a[i]);
        }
        assert forall|i: int| 0 <= i < b.len() implies lists_family(f[i], (#[trigger] b[i])@, 0, u64::MAX) by {
            assert(all[i] == b[i]);
        }
        lemma_given_within(f, a, b, min, max, n);
        let entries = family_list(families[last]);
        assert(lists_family(families[last], inside[last]@, min, max));
        assert(lists_family(families[last], all[last]@, 0, u64::MAX));
        lemma_family_list(families[last], inside[last]@, min, max);
        lemma_family_list(families[last], all[last]@, 0, u64::MAX);
        lemma_given_of(inside[last]@, collected(entries, min, max), n);
        lemma_given_of(all[last]@, collected(entries, 0, u64::MAX), n);
        law_collected_in_order(entries, min, max, n);
        law_collected_in_order(entries, 0, u64::MAX, n);
    }
}

/// One family's list within the bounds has a number exactly where the whole list has it and it
/// is within the bounds.
proof fn lemma_number_within(
    family: CandidateFamily,
    bounded: Seq<Candidate>,
    whole: Seq<Candidate>,
    min: u64,
    max: u64,
    n: u64,
)
    requires
        lists_family(family, bounded, min, max),
        lists_family(family, whole, 0, u64::MAX),
    ensures
        has_number(bounded, n) <==> has_number(whole, n) && min <= n <= max,
{
    let entries = family_list(family);
    lemma_family_list(family, bounded, min, max);
    lemma_family_list(family, whole, 0, u64::MAX);
    lemma_given_of(bounded, collected(entries, min, max), n);
    lemma_given_of(whole, collected(entries, 0, u64::MAX), n);
    law_collected(entries, min, max, n);
    law_collected(entries, 0, u64::MAX, n);
}

/// The bounds only filter the merged list of several families.
pub proof fn law_bounds_only_filter_merged(
    families: Seq<CandidateFamily>,
    inside: Seq<Vec<Candidate>>,
    all: Seq<Vec<Candidate>>,
    bounded: Seq<Candidate>,
    whole: Seq<Candidate>,
    min: u64,
    max: u64,
)
    requires
        lists_families(families, min, max, inside),
        candidates_of(bounded, merged_all(inside)),
        lists_families(families, 0, u64::MAX, all),
        candidates_of(whole, merged_all(all)),
    ensures
        same_list(bounded, whole.filter(within(min, max))),
{
    let p = merged_all(inside);
    let q = merged_all(all);
    let label = CandidateLabel::Mersenne { exponent: 0 };
    assert forall|n: u64| #[trigger] p.contains_key(n) <==> q.contains_key(n) && min <= n <= max by {
        law_merged(inside, n, label);
        law_merged(all, n, label);
        if p.contains_key(n) {
            let k = choose|k: int| 0 <= k < inside.len() && has_number((#[trigger] inside[k])@, n);
            assert(lists_family(families[k], all[k]@, 0, u64::MAX));
            lemma_number_within(families[k], inside[k]@, all[k]@, min, max, n);
            assert(has_number(all[k]@, n));
        }
        if q.contains_key(n) && min <= n <= max {
            let k = choose|k: int| 0 <= k < all.len() && has_number((#[trigger] all[k])@, n);
            assert(lists_family(families[k], inside[k]@, min, max));
            lemma_number_within(families[k], inside[k]@, all[k]@, min, max, n);
            assert(has_number(inside[k]@, n));
        }
    }
    assert forall|n: u64| #[trigger] p.contains_key(n) implies p[n] == q[n] by {
        law_merged_in_order(inside, n);
        law_merged_in_order(all, n);
        lemma_given_within(families, inside, all, min, max, n);
    }
    lemma_filtered_list(bounded, whole, p, q, min, max);
}

/// The labels of those of the first `count` terms that are `n`, in the order of their indices.
pub open spec fn term_labels(
    seeds: Seq<int>,
    label: spec_fn(u32) -> CandidateLabel,
    n: u64,
    count: nat,
) -> Seq<CandidateLabel>
    decreases count,
{
    if count == 0 {
        Seq::empty()
    } else {
        let rest = term_labels(seeds, label, n, (count - 1) as nat);
        if term(seeds, count - 1) == n {
            rest.push(label((count - 1) as u32))
        } else {
            rest
        }
    }
}

/// The labels of the terms are those of their entries, and each is a label of a lower index.
proof fn lemma_term_labels(
    seeds: Seq<int>,
    label: spec_fn(u32) -> CandidateLabel,
    n: u64,
    k: nat,
    count: nat,
)
    requires
        seeds.len() >= 1,
        forall|i: int| 0 <= i < seeds.len() ==> #[trigger] seeds[i] >= 0,
        k <= count <= u32::MAX,
    ensures
        entry_labels(recurrence_entries(seeds, count, label).take(k as int), n) == term_labels(seeds, label, n, k),
        forall|a: int|
            #![trigger term_labels(seeds, label, n, k)[a]]
            0 <= a < term_labels(seeds, label, n, k).len() ==> exists|i: u32|
                i < k && term_labels(seeds, label, n, k)[a] == #[trigger] label(i),
    decreases k,
{
    let entries = recurrence_entries(seeds, count, label);
    if k > 0 {
        let p = (k - 1) as nat;
        lemma_term_labels(seeds, label, n, p, count);
        assert(entries.take(k as int).drop_last() =~= entries.take(p as int));
        crate::families::lemma_terms_prefix(seeds, count, p as int);
        let before = term_labels(seeds, label, n, p);
        let after = term_labels(seeds, label, n, k);
        assert forall|a: int| #![trigger after[a]] 0 <= a < after.len() implies exists|i: u32|
            i < k && after[a] == #[trigger] label(i) by {
            if a < before.len() {
                assert(after[a] == before[a]);
                let i = choose|i: u32| i < p && before[a] == #[trigger] label(i);
                assert(after[a] == label(i));
            } else {
                assert(after[a] == label(p as u32));
            }
        }
    }
}

/// Labels of different indices do not repeat.
proof fn lemma_term_labels_distinct(
    seeds: Seq<int>,
    label: spec_fn(u32) -> CandidateLabel,
    n: u64,
    k: nat,
)
    requires
        seeds.len() >= 1,
        forall|i: int| 0 <= i < seeds.len() ==> #[trigger] seeds[i] >= 0,
        k <= u32::MAX,
        forall|i: u32, j: u32| #[trigger] label(i) == #[trigger] label(j) ==> i == j,
    ensures
        term_labels(seeds, label, n, k).no_duplicates(),
    decreases k,
{
    if k > 0 {
        let p = (k - 1) as nat;
        let before = term_labels(seeds, label, n, p);
        lemma_term_labels_distinct(seeds, label, n, p);
        lemma_term_labels(seeds, label, n, p, k);
        assert(!before.contains(label(p as u32))) by {
            if before.contains(label(p as u32)) {
                let a = choose|a: int| 0 <= a < before.len() && before[a] == label(p as u32);
                let i = choose|i: u32| i < p && before[a] == #[trigger] label(i);
                assert(label(i) == label(p as u32));
            }
        }
    }
}

/// The candidates of a sequence are exactly its odd terms within the bounds, ascending; where
/// different indices have different labels, the labels of a number are those of all the indices
/// at which it is a term, in the order of the indices.
pub proof fn law_recurrence_members(
    candidates: Seq<Candidate>,
    seeds: Seq<int>,
    label: spec_fn(u32) -> CandidateLabel,
    min: u64,
    max: u64,
)
    requires
        seeds.len() >= 2,
        forall|i: int| 0 <= i < seeds.len() ==> #[trigger] seeds[i] >= 0,
        lists_recurrence(candidates, seeds, label, min, max),
        forall|i: u32, j: u32| #[trigger] label(i) == #[trigger] label(j) ==> i == j,
    ensures
        forall|i: int, j: int| 0 <= i < j < candidates.len() ==> candidates[i].n < candidates[j].n,
        forall|n: u64| #[trigger]
            has_number(candidates, n) <==> admitted(n as int, min, max) && (exists|k: int|
                k >= 0 && #[trigger] term(seeds, k) == n),
        exists|count: nat| #[trigger] terms_fit(seeds, count) && (forall|k: int|
            k >= count ==> #[trigger] term(seeds, k) > u64::MAX) && (forall|i: int|
            0 <= i < candidates.len() ==> (#[trigger] candidates[i]).label_seq() == term_labels(
                seeds,
                label,
                candidates[i].n,
                count,
            )),
{
    let count = choose|count: nat| #[trigger]
        terms_fit(seeds, count) && candidates_of(
            candidates,
            collected(recurrence_entries(seeds, count, label), min, max),
        );
    let entries = recurrence_entries(seeds, count, label);
    let m = collected(entries, min, max);
    assert forall|k: int| k >= count implies #[trigger] term(seeds, k) > u64::MAX by {
        crate::families::lemma_terms_stay_large(seeds, count, k);
    }
    assert forall|n: u64| #[trigger]
        has_number(candidates, n) <==> admitted(n as int, min, max) && (exists|k: int|
            k >= 0 && #[trigger] term(seeds, k) == n) by {
        lemma_given_of(candidates, m, n);
        law_collected(entries, min, max, n);
        if m.contains_key(n) {
            let k = choose|k: int| 0 <= k < entries.len() && (#[trigger] entries[k]).1 == n;
            crate::families::lemma_terms_prefix(seeds, count, k);
            assert(term(seeds, k) == n);
        }
        if admitted(n as int, min, max) && exists|k: int| k >= 0 && #[trigger] term(seeds, k) == n {
            let k = choose|k: int| k >= 0 && #[trigger] term(seeds, k) == n;
            assert(k < count);
            crate::families::lemma_terms_prefix(seeds, count, k);
            assert(entries[k].1 == n);
        }
    }
    assert forall|i: int| 0 <= i < candidates.len() implies (#[trigger] candidates[i]).label_seq() == term_labels(
        seeds,
        label,
        candidates[i].n,
        count,
    ) by {
        let n = candidates[i].n;
        assert(m.contains_key(n));
        law_collected(entries, min, max, n);
        law_collected_in_order(entries, min, max, n);
        lemma_term_labels(seeds, label, n, count, count);
        assert(entries.take(count as int) =~= entries);
        lemma_term_labels_distinct(seeds, label, n, count);
        lemma_firsts_distinct(term_labels(seeds, label, n, count));
    }
}

/// Naming a family again changes nothing.
pub proof fn law_repeated_family_changes_nothing(
    families: Seq<CandidateFamily>,
    lists: Seq<Vec<Candidate>>,
    min: u64,
    max: u64,
    i: int,
    j: int,
)
    requires
        lists_families(families, min, max, lists),
        0 <= i < j < families.len(),
        families[i] == families[j],
    ensures
        merged_all(lists.remove(j)) == merged_all(lists),
{
    assert(lists_family(families[i], lists[i]@, min, max));
    assert(lists_family(families[j], lists[j]@, min, max));
    law_family_list_is_fixed(families[i], lists[i]@, lists[j]@, min, max);
    law_repeated_list_changes_nothing(lists, i, j);
}

} // verus!
