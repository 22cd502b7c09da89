//! Candidates for luckiness: members of sparse families of numbers, each with the labels that
//! say where it comes from.
use crate::config::CandidateFamily;
use crate::families::{
    consecutive_entries, fibonacci_seeds, is_prime_u32, lucas_seeds, mersenne_entries, mersenne_prime_entries, next_digit_mod_10, next_term,
    recurrence_entries, repdigit_entries, repunit, run_digit, run_value, term, terms, terms_fit, tetranacci_seeds, total,
    Entry,
};
use crate::text::{decimal, push_decimal};
use std::collections::BTreeMap;
use vstd::arithmetic::power2::pow2;
use vstd::prelude::*;
use vstd::slice::slice_to_vec;
use vstd::std_specs::btree::increasing_seq;
use vstd::std_specs::cmp::OrdSpec;
use vstd::std_specs::iter::IteratorSpec;
use vstd::string::*;

verus! {

/// Which way a run of consecutive digits goes.
#[derive(Debug, Clone, Copy, PartialEq, Eq, Structural)]
pub enum Direction {
    Asc,
    Desc,
}

/// What makes a number a candidate.
#[derive(Debug, Clone, Copy, PartialEq, Eq, Structural)]
pub enum CandidateLabel {
    Repdigit { digit: u8, len: u8 },
    Mersenne { exponent: u32 },
    MersennePrimeExponent { exponent: u32 },
    Fibonacci { index: u32 },
    Lucas { index: u32 },
    Tetranacci { index: u32 },
    ConsecutiveDigits { direction: Direction, start: u8, len: u8 },
}

/// How far the search has come with a candidate.
#[derive(Debug, Clone)]
pub enum CandidateState {
    /// Still at place `rank` of the sieve.
    Pending { rank: u128 },
    /// Settled at place `rank`, below `proof_factor`.
    Lucky { rank: u128, proof_factor: u64 },
    /// Struck at place `rank`, a multiple of `deletion_factor`.
    Composite { rank: u128, deletion_factor: u64 },
    /// The factors at hand did not decide.
    Inconclusive,
}

/// A number whose luckiness is in question.
#[derive(Debug, Clone)]
pub struct Candidate {
    pub n: u64,
    pub labels: Vec<CandidateLabel>,
    pub state: CandidateState,
}

impl Direction {
    /// The short name of the direction.
    pub open spec fn text_spec(self) -> Seq<char> {
        match self {
            Direction::Asc => "asc"@,
            Direction::Desc => "desc"@,
        }
    }

    /// The short name of the direction.
    pub fn text(self) -> (r: &'static str)
        ensures
            r@ == self.text_spec(),
    {
        match self {
            Direction::Asc => "asc",
            Direction::Desc => "desc",
        }
    }
}

impl CandidateLabel {
    /// The name of the family.
    pub open spec fn shape_spec(self) -> Seq<char> {
        match self {
            CandidateLabel::Repdigit { .. } => "repdigit"@,
            CandidateLabel::Mersenne { .. } => "mersenne"@,
            CandidateLabel::MersennePrimeExponent { .. } => "mersenne-prime-exp"@,
            CandidateLabel::Fibonacci { .. } => "fibonacci"@,
            CandidateLabel::Lucas { .. } => "lucas"@,
            CandidateLabel::Tetranacci { .. } => "tetranacci"@,
            CandidateLabel::ConsecutiveDigits { .. } => "consecutive-digits"@,
        }
    }

    /// The label in full: the family with its parameters in brackets.
    pub open spec fn text_spec(self) -> Seq<char> {
        match self {
            CandidateLabel::Repdigit { digit, len } => {
                "repdigit(d="@ + decimal(digit as nat) + ",len="@ + decimal(len as nat) + ")"@
            },
            CandidateLabel::Mersenne { exponent } => "mersenne(k="@ + decimal(exponent as nat) + ")"@,
            CandidateLabel::MersennePrimeExponent { exponent } => {
                "mersenne-prime-exp(p="@ + decimal(exponent as nat) + ")"@
            },
            CandidateLabel::Fibonacci { index } => "fibonacci(k="@ + decimal(index as nat) + ")"@,
            CandidateLabel::Lucas { index } => "lucas(k="@ + decimal(index as nat) + ")"@,
            CandidateLabel::Tetranacci { index } => "tetranacci(k="@ + decimal(index as nat) + ")"@,
            CandidateLabel::ConsecutiveDigits { direction, start, len } => {
                "consecutive-digits("@ + direction.text_spec() + ",start="@ + decimal(start as nat) + ",len="@
                    + decimal(len as nat) + ")"@
            },
        }
    }

    /// The name of the family.
    pub fn shape(&self) -> (r: &'static str)
        ensures
            r@ == self.shape_spec(),
    {
        match self {
            CandidateLabel::Repdigit { .. } => "repdigit",
            CandidateLabel::Mersenne { .. } => "mersenne",
            CandidateLabel::MersennePrimeExponent { .. } => "mersenne-prime-exp",
            CandidateLabel::Fibonacci { .. } => "fibonacci",
            CandidateLabel::Lucas { .. } => "lucas",
            CandidateLabel::Tetranacci { .. } => "tetranacci",
            CandidateLabel::ConsecutiveDigits { .. } => "consecutive-digits",
        }
    }

    /// Appends the label in full.
    fn push_text(&self, out: &mut String)
        ensures
            final(out)@ == old(out)@ + self.text_spec(),
    {
        match *self {
            CandidateLabel::Repdigit { digit, len } => {
                out.append("repdigit(d=");
                push_decimal(out, digit as u128);
                out.append(",len=");
                push_decimal(out, len as u128);
            },
            CandidateLabel::Mersenne { exponent } => {
                out.append("mersenne(k=");
                push_decimal(out, exponent as u128);
            },
            CandidateLabel::MersennePrimeExponent { exponent } => {
                out.append("mersenne-prime-exp(p=");
                push_decimal(out, exponent as u128);
            },
            CandidateLabel::Fibonacci { index } => {
                out.append("fibonacci(k=");
                push_decimal(out, index as u128);
            },
            CandidateLabel::Lucas { index } => {
                out.append("lucas(k=");
                push_decimal(out, index as u128);
            },
            CandidateLabel::Tetranacci { index } => {
                out.append("tetranacci(k=");
                push_decimal(out, index as u128);
            },
            CandidateLabel::ConsecutiveDigits { direction, start, len } => {
                out.append("consecutive-digits(");
                out.append(direction.text());
                out.append(",start=");
                push_decimal(out, start as u128);
                out.append(",len=");
                push_decimal(out, len as u128);
            },
        }
        out.append(")");
        assert(out@ =~= old(out)@ + self.text_spec());
    }

    /// The label in full.
    pub fn text(&self) -> (r: String)
        ensures
            r@ == self.text_spec(),
    {
        let mut out = String::new();
        self.push_text(&mut out);
        assert(out@ =~= self.text_spec());
        out
    }
}

/// The labels' texts, with a semicolon between each two.
pub open spec fn joined_labels(labels: Seq<CandidateLabel>) -> Seq<char>
    decreases labels.len(),
{
    if labels.len() == 0 {
        Seq::empty()
    } else if labels.len() == 1 {
        labels[0].text_spec()
    } else {
        joined_labels(labels.drop_last()) + ";"@ + labels.last().text_spec()
    }
}

/// The state in which the search finds a number: one is lucky from the start, any other number
/// waits at the place that counts the odd numbers up to it.
pub open spec fn start_state(n: u64) -> CandidateState {
    if n == 1 {
        CandidateState::Lucky { rank: 1, proof_factor: 0 }
    } else {
        CandidateState::Pending { rank: ((n + 1) / 2) as u128 }
    }
}

impl Candidate {
    /// The labels, in the order in which they were given.
    pub open spec fn label_seq(&self) -> Seq<CandidateLabel> {
        self.labels@
    }

    /// Whether this is `n` with `labels`, as the search finds it.
    pub open spec fn is_fresh(&self, n: u64, labels: Seq<CandidateLabel>) -> bool {
        &&& self.n == n
        &&& self.label_seq() == labels
        &&& self.state == start_state(n)
    }

    /// A candidate as the search finds it.
    fn new(n: u64, labels: Vec<CandidateLabel>) -> (r: Self)
        ensures
            r.is_fresh(n, labels@),
    {
        let state = if n == 1 {
            CandidateState::Lucky { rank: 1, proof_factor: 0 }
        } else {
            CandidateState::Pending { rank: ((n as u128) + 1) / 2 }
        };
        Candidate { n, labels, state }
    }

    /// A candidate without labels.
    pub fn new_unlabeled(n: u64) -> (r: Self)
        ensures
            r.is_fresh(n, Seq::empty()),
    {
        Candidate::new(n, Vec::new())
    }

    /// Whether the candidate is still undecided.
    pub fn is_pending(&self) -> (r: bool)
        ensures
            r == (self.state is Pending),
    {
        matches!(self.state, CandidateState::Pending { .. })
    }

    /// The place that goes with the state, where the state has one.
    pub fn current_rank(&self) -> (r: Option<u128>)
        ensures
            r == match self.state {
                CandidateState::Pending { rank } => Some(rank),
                CandidateState::Lucky { rank, .. } => Some(rank),
                CandidateState::Composite { rank, .. } => Some(rank),
                CandidateState::Inconclusive => None,
            },
    {
        match &self.state {
            CandidateState::Pending { rank } => Some(*rank),
            CandidateState::Lucky { rank, .. } => Some(*rank),
            CandidateState::Composite { rank, .. } => Some(*rank),
            CandidateState::Inconclusive => None,
        }
    }

    /// The labels in full, with a semicolon between each two, or `unlabeled`.
    pub fn labels_text(&self) -> (r: String)
        ensures
            r@ == if self.label_seq().len() == 0 {
                "unlabeled"@
            } else {
                joined_labels(self.label_seq())
            },
    {
        if self.labels.is_empty() {
            return "unlabeled".to_owned();
        }
        let ghost all = self.labels@;
        let mut out = self.labels[0].text();
        let mut i: usize = 1;
        assert(all.take(1)[0] == all[0]);
        while i < self.labels.len()
            invariant
                all == self.labels@,
                1 <= i <= all.len(),
                out@ == joined_labels(all.take(i as int)),
            decreases all.len() - i,
        {
            out.append(";");
            self.labels[i].push_text(&mut out);
            proof {
                assert(all.take(i + 1).drop_last() =~= all.take(i as int));
                assert(out@ =~= joined_labels(all.take(i + 1)));
            }
            i = i + 1;
        }
        assert(all.take(i as int) =~= all);
        out
    }

    /// The labels, in the order in which they were given.
    pub fn labels(&self) -> (r: &[CandidateLabel])
        ensures
            r@ == self.label_seq(),
    {
        self.labels.as_slice()
    }
}

/// Labels by number, as a family or several build them up.
pub type LabelMap = Map<u64, Seq<CandidateLabel>>;

/// The map with an entry for `n`, empty where there was none.
pub open spec fn touched(m: LabelMap, n: u64) -> LabelMap {
    if m.contains_key(n) {
        m
    } else {
        m.insert(n, Seq::empty())
    }
}

/// The map with `label` noted for `n`, once.
pub open spec fn noted(m: LabelMap, n: u64, label: CandidateLabel) -> LabelMap {
    let t = touched(m, n);
    if t[n].contains(label) {
        t
    } else {
        t.insert(n, t[n].push(label))
    }
}

/// Whether a number may be a candidate: odd, and within the bounds.
pub open spec fn admitted(n: int, min: u64, max: u64) -> bool {
    min <= n <= max && n % 2 == 1
}

/// The map with `label` noted for `n` where `n` may be a candidate.
pub open spec fn added(m: LabelMap, label: CandidateLabel, n: int, min: u64, max: u64) -> LabelMap {
    if admitted(n, min, max) {
        noted(m, n as u64, label)
    } else {
        m
    }
}

/// What a list of labelled numbers builds up within the bounds.
pub open spec fn collected(entries: Seq<Entry>, min: u64, max: u64) -> LabelMap
    decreases entries.len(),
{
    if entries.len() == 0 {
        Map::empty()
    } else {
        added(collected(entries.drop_last(), min, max), entries.last().0, entries.last().1, min, max)
    }
}

/// The map with each of `labels` noted for `n`.
pub open spec fn noted_all(m: LabelMap, n: u64, labels: Seq<CandidateLabel>) -> LabelMap
    decreases labels.len(),
{
    if labels.len() == 0 {
        touched(m, n)
    } else {
        noted(noted_all(m, n, labels.drop_last()), n, labels.last())
    }
}

/// The map with the labels of each of `candidates` noted for its number.
pub open spec fn merged(m: LabelMap, candidates: Seq<Candidate>) -> LabelMap
    decreases candidates.len(),
{
    if candidates.len() == 0 {
        m
    } else {
        noted_all(merged(m, candidates.drop_last()), candidates.last().n, candidates.last().label_seq())
    }
}

/// The map of several lists of candidates, merged in order.
pub open spec fn merged_all(lists: Seq<Vec<Candidate>>) -> LabelMap
    decreases lists.len(),
{
    if lists.len() == 0 {
        Map::empty()
    } else {
        merged(merged_all(lists.drop_last()), lists.last()@)
    }
}

/// Whether `candidates` lists the numbers of `m`, in ascending order, each once, fresh and with
/// its labels.
pub open spec fn candidates_of(candidates: Seq<Candidate>, m: LabelMap) -> bool {
    &&& forall|i: int, j: int| 0 <= i < j < candidates.len() ==> candidates[i].n < candidates[j].n
    &&& forall|i: int|
        0 <= i < candidates.len() ==> m.contains_key((#[trigger] candidates[i]).n) && candidates[i].is_fresh(
            candidates[i].n,
            m[candidates[i].n],
        )
    &&& forall|n: u64| #[trigger]
        m.contains_key(n) ==> exists|i: int| 0 <= i < candidates.len() && (#[trigger] candidates[i]).n == n
}

/// Numbers that a map keeps in order ascend.
proof fn lemma_keys_ascend(keys: Seq<u64>)
    requires
        increasing_seq(keys),
    ensures
        forall|i: int, j: int| 0 <= i < j < keys.len() ==> keys[i] < keys[j],
{
    assert forall|i: int, j: int| 0 <= i < j < keys.len() implies keys[i] < keys[j] by {
        assert(keys[i].cmp_spec(&keys[j]) is Less);
    }
}

/// Labels by number, under construction.
struct CandidateBuilder {
    labels_by_n: BTreeMap<u64, Vec<CandidateLabel>>,
}

impl CandidateBuilder {
    /// Whether the builder holds exactly what `m` holds.
    spec fn holds(&self, m: LabelMap) -> bool {
        &&& self.labels_by_n@.dom() == m.dom()
        &&& forall|n: u64| #[trigger] m.contains_key(n) ==> self.labels_by_n@[n]@ == m[n]
    }

    /// A builder that holds nothing.
    fn empty() -> (r: Self)
        ensures
            r.holds(Map::empty()),
    {
        let r = CandidateBuilder { labels_by_n: BTreeMap::new() };
        assert(r.labels_by_n@.dom() =~= Map::<u64, Seq<CandidateLabel>>::empty().dom());
        r
    }

    /// Makes sure that `n` has an entry.
    fn touch(&mut self, n: u64, Ghost(m): Ghost<LabelMap>)
        requires
            old(self).holds(m),
        ensures
            final(self).holds(touched(m, n)),
    {
        if !self.labels_by_n.contains_key(&n) {
            let none: Vec<CandidateLabel> = Vec::new();
            assert(none@ =~= Seq::empty());
            self.labels_by_n.insert(n, none);
            assert(self.labels_by_n@.dom() =~= touched(m, n).dom());
        }
    }

    /// Notes `label` for `n`, once.
    fn note(&mut self, n: u64, label: CandidateLabel, Ghost(m): Ghost<LabelMap>)
        requires
            old(self).holds(m),
        ensures
            final(self).holds(noted(m, n, label)),
    {
        let mut labels: Vec<CandidateLabel> = match self.labels_by_n.remove(&n) {
            Some(labels) => labels,
            None => Vec::new(),
        };
        assert(labels@ =~= touched(m, n)[n]);
        if !has_label(&labels, label) {
            labels.push(label);
        }
        self.labels_by_n.insert(n, labels);
        proof {
            let u = noted(m, n, label);
            assert(self.labels_by_n@.dom() =~= u.dom());
            assert forall|k: u64| #[trigger] u.contains_key(k) implies self.labels_by_n@[k]@ == u[k] by {
                if k != n {
                    assert(m.contains_key(k));
                }
            }
        }
    }

    /// Notes `label` for `n` where `n` is odd and within the bounds.
    fn add(&mut self, label: CandidateLabel, n: u128, min: u64, max: u64, Ghost(m): Ghost<LabelMap>)
        requires
            old(self).holds(m),
        ensures
            final(self).holds(added(m, label, n as int, min, max)),
    {
        if n > u64::MAX as u128 || n < min as u128 || n > max as u128 {
            return;
        }
        let n: u64 = n as u64;
        if n != 1 && n % 2 == 0 {
            return;
        }
        self.note(n, label, Ghost(m));
    }

    /// Takes in the entry with index `i` of a family.
    fn add_entry(
        &mut self,
        label: CandidateLabel,
        n: u128,
        min: u64,
        max: u64,
        Ghost(entries): Ghost<Seq<Entry>>,
        Ghost(i): Ghost<int>,
    )
        requires
            old(self).holds(collected(entries.take(i), min, max)),
            0 <= i < entries.len(),
            entries[i] == (label, n as int),
        ensures
            final(self).holds(collected(entries.take(i + 1), min, max)),
    {
        self.add(label, n, min, max, Ghost(collected(entries.take(i), min, max)));
        assert(entries.take(i + 1).drop_last() =~= entries.take(i));
    }

    /// Notes the labels of each of `candidates` for its number.
    fn extend(&mut self, candidates: &Vec<Candidate>, Ghost(m): Ghost<LabelMap>)
        requires
            old(self).holds(m),
        ensures
            final(self).holds(merged(m, candidates@)),
    {
        let mut i: usize = 0;
        let ghost all = candidates@;
        assert(all.take(0) =~= Seq::empty());
        while i < candidates.len()
            invariant
                all == candidates@,
                i <= all.len(),
                self.holds(merged(m, all.take(i as int))),
            decreases all.len() - i,
        {
            let candidate: &Candidate = &candidates[i];
            let ghost base = merged(m, all.take(i as int));
            let ghost given = candidate.labels@;
            self.touch(candidate.n, Ghost(base));
            let mut j: usize = 0;
            assert(given.take(0) =~= Seq::empty());
            while j < candidate.labels.len()
                invariant
                    given == candidate.labels@,
                    j <= given.len(),
                    self.holds(noted_all(base, candidate.n, given.take(j as int))),
                decreases given.len() - j,
            {
                self.note(
                    candidate.n,
                    candidate.labels[j],
                    Ghost(noted_all(base, candidate.n, given.take(j as int))),
                );
                assert(given.take(j + 1).drop_last() =~= given.take(j as int));
                j = j + 1;
            }
            proof {
                assert(given.take(j as int) =~= given);
                assert(all.take(i + 1).drop_last() =~= all.take(i as int));
            }
            i = i + 1;
        }
        assert(all.take(i as int) =~= all);
    }

    /// The candidates, in ascending order.
    fn into_candidates(self, Ghost(m): Ghost<LabelMap>) -> (r: Vec<Candidate>)
        requires
            self.holds(m),
        ensures
            candidates_of(r@, m),
    {
        let mut out: Vec<Candidate> = Vec::new();
        let entries = self.labels_by_n.iter();
        let ghost listed = entries.remaining();
        let ghost keys = listed.map_values(|entry: (&u64, &Vec<CandidateLabel>)| *entry.0);
        for entry in it: entries
            invariant
                it.seq() == listed,
                out@.len() == it.index(),
                forall|k: int|
                    0 <= k < out@.len() ==> (#[trigger] out@[k]).is_fresh(*listed[k].0, (*listed[k].1)@),
        {
            let labels: Vec<CandidateLabel> = slice_to_vec(entry.1.as_slice());
            out.push(Candidate::new(*entry.0, labels));
        }
        proof {
            lemma_keys_ascend(keys);
            assert forall|i: int, j: int| 0 <= i < j < out@.len() implies out@[i].n < out@[j].n by {
                assert(keys[i] < keys[j]);
            }
            assert forall|k: int| 0 <= k < out@.len() implies m.contains_key((#[trigger] out@[k]).n)
                && out@[k].is_fresh(out@[k].n, m[out@[k].n]) by {
                assert(self.labels_by_n@.contains_key(*listed[k].0));
            }
            assert forall|n: u64| #[trigger] m.contains_key(n) implies exists|k: int|
                0 <= k < out@.len() && (#[trigger] out@[k]).n == n by {
                assert(self.labels_by_n@.contains_key(n));
                let entry = (&n, &self.labels_by_n@[n]);
                assert(listed.contains(entry));
                let k = choose|k: int| 0 <= k < listed.len() && listed[k] == entry;
                assert(out@[k].n == n);
            }
        }
        out
    }
}

/// Whether `label` is among `labels`.
fn has_label(labels: &Vec<CandidateLabel>, label: CandidateLabel) -> (r: bool)
    ensures
        r == labels@.contains(label),
{
    let mut i: usize = 0;
    while i < labels.len()
        invariant
            i <= labels@.len(),
            forall|k: int| 0 <= k < i ==> labels@[k] != label,
        decreases labels@.len() - i,
    {
        if labels[i] == label {
            assert(labels@[i as int] == label);
            return true;
        }
        i = i + 1;
    }
    false
}

/// Whether `lists` holds what each of the generators may give for the bounds.
pub open spec fn generated<F: Fn(u64, u64) -> Vec<Candidate>>(
    generators: Seq<F>,
    min: u64,
    max: u64,
    lists: Seq<Vec<Candidate>>,
) -> bool {
    &&& lists.len() == generators.len()
    &&& forall|i: int|
        0 <= i < lists.len() ==> call_ensures(generators[i], (min, max), #[trigger] lists[i])
}

/// The candidates that the generators give for the bounds, merged: each number once, in
/// ascending order, with all its labels.
pub fn generate_candidates<F: Fn(u64, u64) -> Vec<Candidate>>(min: u64, max: u64, generators: &[F]) -> (r: Vec<
    Candidate,
>)
    requires
        forall|i: int| 0 <= i < generators@.len() ==> call_requires(#[trigger] generators@[i], (min, max)),
    ensures
        exists|lists: Seq<Vec<Candidate>>| #[trigger]
            generated(generators@, min, max, lists) && candidates_of(r@, merged_all(lists)),
{
    let mut out = CandidateBuilder::empty();
    let ghost mut lists: Seq<Vec<Candidate>> = Seq::empty();
    let mut i: usize = 0;
    while i < generators.len()
        invariant
            i <= generators@.len(),
            forall|k: int| 0 <= k < generators@.len() ==> call_requires(#[trigger] generators@[k], (min, max)),
            generated(generators@.take(i as int), min, max, lists),
            out.holds(merged_all(lists)),
        decreases generators@.len() - i,
    {
        let list: Vec<Candidate> = (generators[i])(min, max);
        out.extend(&list, Ghost(merged_all(lists)));
        proof {
            let before = lists;
            lists = lists.push(list);
            assert(lists.drop_last() =~= before);
            let g = generators@.take(i + 1);
            assert forall|k: int| 0 <= k < lists.len() implies call_ensures(g[k], (min, max), #[trigger] lists[k]) by {
                if k < i {
                    assert(lists[k] == before[k]);
                    assert(generators@.take(i as int)[k] == g[k]);
                }
            }
        }
        i = i + 1;
    }
    assert(generators@.take(i as int) =~= generators@);
    out.into_candidates(Ghost(merged_all(lists)))
}

/// The repdigits of odd digits, of up to twenty digits, within the bounds.
pub fn repdigits(min: u64, max: u64) -> (r: Vec<Candidate>)
    ensures
        candidates_of(r@, collected(repdigit_entries(), min, max)),
{
    let mut out = CandidateBuilder::empty();
    let ghost entries = repdigit_entries();
    assert(entries.take(0) =~= Seq::empty());
    let mut ones: u128 = 0;
    let mut len: u8 = 1;
    while len <= 20
        invariant
            1 <= len <= 21,
            ones == repunit((len - 1) as nat),
            entries == repdigit_entries(),
            out.holds(collected(entries.take(5 * (len - 1)), min, max)),
        decreases 21 - len,
    {
        proof {
            crate::families::lemma_repunit_range((len - 1) as nat);
            crate::families::lemma_repunit_range(len as nat);
        }
        ones = ones * 10 + 1;
        let mut k: u8 = 0;
        while k < 5
            invariant
                1 <= len <= 20,
                k <= 5,
                ones == repunit(len as nat),
                ones <= 11_111_111_111_111_111_111,
                entries == repdigit_entries(),
                out.holds(collected(entries.take(5 * (len - 1) + k), min, max)),
            decreases 5 - k,
        {
            let digit: u8 = 2 * k + 1;
            let ghost i = 5 * (len - 1) + k;
            assert(ones * digit <= 99_999_999_999_999_999_999) by (nonlinear_arith)
                requires
                    0 <= ones <= 11_111_111_111_111_111_111,
                    0 <= digit <= 9,
            ;
            let n: u128 = ones * digit as u128;
            assert(entries[i] == (CandidateLabel::Repdigit { digit, len }, n as int));
            out.add_entry(CandidateLabel::Repdigit { digit, len }, n, min, max, Ghost(entries), Ghost(i));
            k = k + 1;
        }
        len = len + 1;
    }
    assert(entries.take(100) =~= entries);
    out.into_candidates(Ghost(collected(entries, min, max)))
}

/// The numbers one below a power of two, up to the 64th, within the bounds.
pub fn mersennes(min: u64, max: u64) -> (r: Vec<Candidate>)
    ensures
        candidates_of(r@, collected(mersenne_entries(), min, max)),
{
    let mut out = CandidateBuilder::empty();
    let ghost entries = mersenne_entries();
    assert(entries.take(0) =~= Seq::empty());
    let mut power: u128 = 1;
    proof {
        vstd::arithmetic::power2::lemma2_to64();
    }
    let mut exponent: u32 = 1;
    while exponent <= 64
        invariant
            1 <= exponent <= 65,
            power == pow2((exponent - 1) as nat),
            entries == mersenne_entries(),
            out.holds(collected(entries.take(exponent - 1), min, max)),
        decreases 65 - exponent,
    {
        proof {
            crate::families::lemma_pow2_range((exponent - 1) as nat);
            crate::families::lemma_pow2_range(exponent as nat);
        }
        power = power * 2;
        out.add_entry(
            CandidateLabel::Mersenne { exponent },
            power - 1,
            min,
            max,
            Ghost(entries),
            Ghost(exponent - 1),
        );
        exponent = exponent + 1;
    }
    assert(entries.take(64) =~= entries);
    out.into_candidates(Ghost(collected(entries, min, max)))
}

/// The numbers one below a power of two with a prime exponent up to 64, within the bounds.
pub fn mersenne_prime_exponents(min: u64, max: u64) -> (r: Vec<Candidate>)
    ensures
        candidates_of(r@, collected(mersenne_prime_entries(63), min, max)),
{
    let mut out = CandidateBuilder::empty();
    let mut power: u128 = 2;
    proof {
        vstd::arithmetic::power2::lemma2_to64();
    }
    let mut exponent: u32 = 2;
    while exponent <= 64
        invariant
            2 <= exponent <= 65,
            power == pow2((exponent - 1) as nat),
            out.holds(collected(mersenne_prime_entries((exponent - 2) as nat), min, max)),
        decreases 65 - exponent,
    {
        proof {
            crate::families::lemma_pow2_range((exponent - 1) as nat);
            crate::families::lemma_pow2_range(exponent as nat);
        }
        power = power * 2;
        if is_prime_u32(exponent) {
            let ghost k = (exponent - 1) as nat;
            let ghost rest = mersenne_prime_entries((k - 1) as nat);
            out.add(
                CandidateLabel::MersennePrimeExponent { exponent },
                power - 1,
                min,
                max,
                Ghost(collected(rest, min, max)),
            );
            assert(mersenne_prime_entries(k).drop_last() =~= rest);
        }
        exponent = exponent + 1;
    }
    out.into_candidates(Ghost(collected(mersenne_prime_entries(63), min, max)))
}

/// Whether `candidates` lists the terms within the bounds of the sequence that starts with
/// `seeds`, each labelled by its index.
pub open spec fn lists_recurrence(
    candidates: Seq<Candidate>,
    seeds: Seq<int>,
    label: spec_fn(u32) -> CandidateLabel,
    min: u64,
    max: u64,
) -> bool {
    exists|count: nat| #[trigger]
        terms_fit(seeds, count) && candidates_of(
            candidates,
            collected(recurrence_entries(seeds, count, label), min, max),
        )
}

/// The Fibonacci numbers within the bounds.
pub fn fibonacci(min: u64, max: u64) -> (r: Vec<Candidate>)
    ensures
        lists_recurrence(r@, fibonacci_seeds(), |index: u32| CandidateLabel::Fibonacci { index }, min, max),
{
    let label = |index: u32| -> (l: CandidateLabel)
        ensures
            l == (CandidateLabel::Fibonacci { index }),
        { CandidateLabel::Fibonacci { index } };
    let seeds: [u128; 2] = [0, 1];
    proof {
        reveal_with_fuel(total, 3);
        assert(as_ints(seeds@) =~= fibonacci_seeds());
    }
    recurrence(label, &seeds, min, max, Ghost(|index: u32| CandidateLabel::Fibonacci { index }))
}

/// The Lucas numbers within the bounds.
pub fn lucas(min: u64, max: u64) -> (r: Vec<Candidate>)
    ensures
        lists_recurrence(r@, lucas_seeds(), |index: u32| CandidateLabel::Lucas { index }, min, max),
{
    let label = |index: u32| -> (l: CandidateLabel)
        ensures
            l == (CandidateLabel::Lucas { index }),
        { CandidateLabel::Lucas { index } };
    let seeds: [u128; 2] = [2, 1];
    proof {
        reveal_with_fuel(total, 3);
        assert(as_ints(seeds@) =~= lucas_seeds());
    }
    recurrence(label, &seeds, min, max, Ghost(|index: u32| CandidateLabel::Lucas { index }))
}

/// The tetranacci numbers within the bounds.
pub fn tetranacci(min: u64, max: u64) -> (r: Vec<Candidate>)
    ensures
        lists_recurrence(r@, tetranacci_seeds(), |index: u32| CandidateLabel::Tetranacci { index }, min, max),
{
    let label = |index: u32| -> (l: CandidateLabel)
        ensures
            l == (CandidateLabel::Tetranacci { index }),
        { CandidateLabel::Tetranacci { index } };
    let seeds: [u128; 4] = [0, 0, 0, 1];
    proof {
        reveal_with_fuel(total, 5);
        assert(as_ints(seeds@) =~= tetranacci_seeds());
    }
    recurrence(label, &seeds, min, max, Ghost(|index: u32| CandidateLabel::Tetranacci { index }))
}

/// Machine numbers as integers.
pub open spec fn as_ints(s: Seq<u128>) -> Seq<int> {
    Seq::new(s.len(), |i: int| s[i] as int)
}

/// The sum of a list of numbers, where it stays within `u128`.
fn checked_total(s: &Vec<u128>) -> (r: Option<u128>)
    ensures
        r matches Some(sum) ==> sum == total(as_ints(s@)),
        r is None ==> total(as_ints(s@)) > u128::MAX,
{
    let mut sum: u128 = 0;
    let mut i: usize = 0;
    let ghost all = as_ints(s@);
    assert(all.take(0) =~= Seq::empty());
    while i < s.len()
        invariant
            i <= s@.len(),
            all == as_ints(s@),
            sum == total(all.take(i as int)),
        decreases s@.len() - i,
    {
        assert(all.take(i + 1).drop_last() =~= all.take(i as int));
        match sum.checked_add(s[i]) {
            Some(next) => {
                sum = next;
            },
            None => {
                proof {
                    lemma_total_grows(all, i + 1);
                }
                return None;
            },
        }
        i = i + 1;
    }
    assert(all.take(i as int) =~= all);
    Some(sum)
}

/// The sum of a list of non-negative numbers is no smaller than that of its beginning.
proof fn lemma_total_grows(s: Seq<int>, k: int)
    requires
        0 <= k <= s.len(),
        forall|i: int| 0 <= i < s.len() ==> #[trigger] s[i] >= 0,
    ensures
        total(s.take(k)) <= total(s),
    decreases s.len() - k,
{
    if k < s.len() {
        lemma_total_grows(s, k + 1);
        assert(s.take(k + 1).drop_last() =~= s.take(k));
    } else {
        assert(s.take(k) =~= s);
    }
}

/// The members within the bounds of the sequence that starts with `seeds` and goes on with the
/// sum of as many terms as there are seeds, up to the last that fits `u64`. Seeds that do not fit
/// are passed over.
fn recurrence<F: Fn(u32) -> CandidateLabel>(
    label: F,
    seeds: &[u128],
    min: u64,
    max: u64,
    Ghost(make): Ghost<spec_fn(u32) -> CandidateLabel>,
) -> (r: Vec<Candidate>)
    requires
        forall|i: u32| call_requires(label, (i,)),
        forall|i: u32, l: CandidateLabel| call_ensures(label, (i,), l) ==> l == make(i),
        1 <= seeds@.len() <= u32::MAX - 128,
        total(as_ints(seeds@)) > u64::MAX || seeds@.len() >= 2 && total(as_ints(seeds@)) >= 1,
    ensures
        lists_recurrence(r@, as_ints(seeds@), make, min, max),
{
    let mut out = CandidateBuilder::empty();
    let ghost s = as_ints(seeds@);
    let ghost w = s.len() as int;
    let mut window: Vec<u128> = slice_to_vec(seeds);
    let mut index: u32 = 0;
    proof {
        assert(recurrence_entries(s, 0, make) =~= Seq::empty());
    }
    while (index as usize) < seeds.len()
        invariant
            s == as_ints(seeds@),
            w == s.len() == seeds@.len(),
            1 <= w <= u32::MAX - 128,
            index <= w,
            window@ == seeds@,
            forall|i: u32| call_requires(label, (i,)),
            forall|i: u32, l: CandidateLabel| call_ensures(label, (i,), l) ==> l == make(i),
            out.holds(collected(recurrence_entries(s, index as nat, make), min, max)),
        decreases w - index,
    {
        let l: CandidateLabel = label(index);
        let ghost k = index as nat;
        out.add(l, window[index as usize], min, max, Ghost(collected(recurrence_entries(s, k, make), min, max)));
        proof {
            let next = recurrence_entries(s, k + 1, make);
            assert(terms(s, k + 1) =~= s.take(k as int + 1));
            assert(terms(s, k) =~= s.take(k as int));
            assert(next.drop_last() =~= recurrence_entries(s, k, make));
            assert(next.last() == (l, seeds@[k as int] as int));
        }
        index = index + 1;
    }
    proof {
        assert(terms(s, w as nat) =~= s);
        assert(s.skip(0) =~= s);
    }
    loop
        invariant
            s == as_ints(seeds@),
            w == s.len(),
            1 <= w <= u32::MAX - 128,
            total(s) > u64::MAX || w >= 2 && total(s) >= 1,
            forall|i: int| 0 <= i < s.len() ==> #[trigger] s[i] >= 0,
            w <= index <= w + 128,
            terms(s, w as nat) == s,
            total(s) > u64::MAX ==> index == w,
            terms(s, index as nat).len() == index,
            forall|k: int| w <= k < index ==> #[trigger] terms(s, index as nat)[k] <= u64::MAX,
            as_ints(window@) == terms(s, index as nat).skip(index - w),
            forall|i: u32| call_requires(label, (i,)),
            forall|i: u32, l: CandidateLabel| call_ensures(label, (i,), l) ==> l == make(i),
            out.holds(collected(recurrence_entries(s, index as nat, make), min, max)),
        ensures
            terms_fit(s, index as nat),
            out.holds(collected(recurrence_entries(s, index as nat, make), min, max)),
        decreases w + 200 - index,
    {
        let ghost k = index as nat;
        let ghost before = terms(s, k);
        proof {
            crate::families::lemma_terms(s, k);
            crate::families::lemma_terms(s, k + 1);
            assert(terms(s, k + 1) == before.push(next_term(before, w)));
            assert(term(s, k as int) == total(as_ints(window@)));
            assert(s.skip(0) =~= s);
        }
        let n: u128 = match checked_total(&window) {
            Some(n) => n,
            None => {
                break;
            },
        };
        if n > u64::MAX as u128 {
            break;
        }
        let l: CandidateLabel = label(index);
        out.add(l, n, min, max, Ghost(collected(recurrence_entries(s, k, make), min, max)));
        let ghost old_window = window@;
        let _first: u128 = window.remove(0);
        window.push(n);
        proof {
            let next = recurrence_entries(s, k + 1, make);
            assert(next.drop_last() =~= recurrence_entries(s, k, make));
            assert(next.last() == (l, n as int));
            assert forall|j: int| w <= j < k + 1 implies #[trigger] terms(s, k + 1)[j] <= u64::MAX by {
                if j < k {
                    assert(terms(s, k + 1)[j] == before[j]);
                }
            }
            crate::families::lemma_terms_end(s, k + 1);
            assert(as_ints(window@) =~= terms(s, k + 1).skip(k + 1 - w)) by {
                assert forall|j: int| 0 <= j < w implies as_ints(window@)[j] == #[trigger] terms(s, k + 1).skip(
                    k + 1 - w,
                )[j] by {
                    if j < w - 1 {
                        assert(window@[j] == old_window[j + 1]);
                        assert(as_ints(old_window)[j + 1] == before.skip(k - w)[j + 1]);
                    }
                }
            }
        }
        index = index + 1;
    }
    out.into_candidates(Ghost(collected(recurrence_entries(s, index as nat, make), min, max)))
}

/// The numbers of two to twenty consecutive digits, going round between nine and zero, within
/// the bounds.
pub fn consecutive_digits(min: u64, max: u64) -> (r: Vec<Candidate>)
    ensures
        candidates_of(r@, collected(consecutive_entries(), min, max)),
{
    let mut out = CandidateBuilder::empty();
    let ghost entries = consecutive_entries();
    assert(entries.take(0) =~= Seq::empty());
    let mut start: u8 = 1;
    while start <= 9
        invariant
            1 <= start <= 10,
            entries == consecutive_entries(),
            out.holds(collected(entries.take(38 * (start - 1)), min, max)),
        decreases 10 - start,
    {
        let mut way: u8 = 0;
        while way < 2
            invariant
                1 <= start <= 9,
                way <= 2,
                entries == consecutive_entries(),
                out.holds(collected(entries.take(38 * (start - 1) + 19 * way), min, max)),
            decreases 2 - way,
        {
            let direction = if way == 0 {
                Direction::Desc
            } else {
                Direction::Asc
            };
            let step: i8 = if way == 0 {
                -1
            } else {
                1
            };
            let mut n: u128 = start as u128;
            let mut digit: u8 = start;
            let mut len: u8 = 2;
            while len <= 20
                invariant
                    1 <= start <= 9,
                    way < 2,
                    2 <= len <= 21,
                    direction == if way == 0 {
                        Direction::Desc
                    } else {
                        Direction::Asc
                    },
                    step == if way == 0 {
                        -1int
                    } else {
                        1int
                    },
                    digit == run_digit(start as int, direction, len - 2),
                    digit < 10,
                    n == run_value(start as int, direction, (len - 1) as nat),
                    entries == consecutive_entries(),
                    out.holds(collected(entries.take(38 * (start - 1) + 19 * way + (len - 2)), min, max)),
                decreases 21 - len,
            {
                digit = next_digit_mod_10(digit, step);
                proof {
                    crate::families::lemma_run_digit_next(start as int, direction, len - 2);
                    crate::families::lemma_consecutive_entry(start as int, direction, len as int);
                    crate::families::lemma_run_range(start as int, direction, (len - 1) as nat);
                    crate::families::lemma_repunit_range((len - 1) as nat);
                }
                n = n * 10 + digit as u128;
                let label = CandidateLabel::ConsecutiveDigits { direction, start, len };
                let ghost i = 38 * (start - 1) + 19 * way + (len - 2);
                assert(entries[i] == (label, n as int));
                out.add_entry(label, n, min, max, Ghost(entries), Ghost(i));
                len = len + 1;
            }
            way = way + 1;
        }
        start = start + 1;
    }
    assert(entries.take(342) =~= entries);
    out.into_candidates(Ghost(collected(entries, min, max)))
}

/// Whether `candidates` is what a family gives for the bounds.
pub open spec fn lists_family(
    family: CandidateFamily,
    candidates: Seq<Candidate>,
    min: u64,
    max: u64,
) -> bool {
    match family {
        CandidateFamily::Repdigit => candidates_of(candidates, collected(repdigit_entries(), min, max)),
        CandidateFamily::Mersenne => candidates_of(candidates, collected(mersenne_entries(), min, max)),
        CandidateFamily::MersennePrimeExponent => candidates_of(
            candidates,
            collected(mersenne_prime_entries(63), min, max),
        ),
        CandidateFamily::Fibonacci => lists_recurrence(
            candidates,
            fibonacci_seeds(),
            |index: u32| CandidateLabel::Fibonacci { index },
            min,
            max,
        ),
        CandidateFamily::Lucas => lists_recurrence(
            candidates,
            lucas_seeds(),
            |index: u32| CandidateLabel::Lucas { index },
            min,
            max,
        ),
        CandidateFamily::Tetranacci => lists_recurrence(
            candidates,
            tetranacci_seeds(),
            |index: u32| CandidateLabel::Tetranacci { index },
            min,
            max,
        ),
        CandidateFamily::ConsecutiveDigits => candidates_of(
            candidates,
            collected(consecutive_entries(), min, max),
        ),
    }
}

/// The members of one family within the bounds.
pub fn family_members(family: CandidateFamily, min: u64, max: u64) -> (r: Vec<Candidate>)
    ensures
        lists_family(family, r@, min, max),
{
    match family {
        CandidateFamily::Repdigit => repdigits(min, max),
        CandidateFamily::Mersenne => mersennes(min, max),
        CandidateFamily::MersennePrimeExponent => mersenne_prime_exponents(min, max),
        CandidateFamily::Fibonacci => fibonacci(min, max),
        CandidateFamily::Lucas => lucas(min, max),
        CandidateFamily::Tetranacci => tetranacci(min, max),
        CandidateFamily::ConsecutiveDigits => consecutive_digits(min, max),
    }
}

/// Whether `lists` holds what each of the families gives for the bounds.
pub open spec fn lists_families(
    families: Seq<CandidateFamily>,
    min: u64,
    max: u64,
    lists: Seq<Vec<Candidate>>,
) -> bool {
    &&& lists.len() == families.len()
    &&& forall|i: int| 0 <= i < lists.len() ==> lists_family(families[i], (#[trigger] lists[i])@, min, max)
}

/// The members of the families within the bounds, merged: each number once, in ascending order,
/// with all its labels.
pub fn family_candidates(min: u64, max: u64, families: &[CandidateFamily]) -> (r: Vec<Candidate>)
    ensures
        exists|lists: Seq<Vec<Candidate>>| #[trigger]
            lists_families(families@, min, max, lists) && candidates_of(r@, merged_all(lists)),
{
    let mut out = CandidateBuilder::empty();
    let ghost mut lists: Seq<Vec<Candidate>> = Seq::empty();
    let mut i: usize = 0;
    while i < families.len()
        invariant
            i <= families@.len(),
            lists_families(families@.take(i as int), min, max, lists),
            out.holds(merged_all(lists)),
        decreases families@.len() - i,
    {
        let list: Vec<Candidate> = family_members(families[i], min, max);
        out.extend(&list, Ghost(merged_all(lists)));
        proof {
            let before = lists;
            lists = lists.push(list);
            assert(lists.drop_last() =~= before);
            let f = families@.take(i + 1);
            assert forall|k: int| 0 <= k < lists.len() implies lists_family(f[k], (#[trigger] lists[k])@, min, max) by {
                if k < i {
                    assert(lists[k] == before[k]);
                    assert(families@.take(i as int)[k] == f[k]);
                }
            }
        }
        i = i + 1;
    }
    assert(families@.take(i as int) =~= families@);
    out.into_candidates(Ghost(merged_all(lists)))
}

} // verus!
