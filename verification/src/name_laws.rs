//! What the names of families, lists of them and the texts of labels say.
use crate::candidates::{joined_labels, Candidate, CandidateLabel, Direction};
use crate::config::{
    available_family_names, dedup_families, families_in, family_names, joined_names, parse_family_list,
    ArgsError, ArgsErrorView, CandidateFamily,
};
use crate::args_laws::{firsts_of, lemma_deduped_firsts};
use crate::laws::family_has_label;
use crate::text::{decimal, is_space, split_on, trimmed};
use crate::text_laws::{is_core, law_rejoined_splits, law_trimmed_core, rejoined};
use vstd::prelude::*;

verus! {

/// The names that stand for a family, the one under which it is listed first.
pub open spec fn names_of(family: CandidateFamily) -> Seq<Seq<char>> {
    match family {
        CandidateFamily::Repdigit => seq!["repdigit"@, "repdigits"@],
        CandidateFamily::Mersenne => seq!["mersenne"@, "mersennes"@],
        CandidateFamily::MersennePrimeExponent => {
            seq!["mersenne-prime-exp"@, "mersenne-prime-exponent"@, "prime-mersenne"@]
        },
        CandidateFamily::Fibonacci => seq!["fibonacci"@, "fib"@],
        CandidateFamily::Lucas => seq!["lucas"@],
        CandidateFamily::Tetranacci => seq!["tetranacci"@],
        CandidateFamily::ConsecutiveDigits => seq!["consecutive-digits"@, "digit-run"@, "digit-runs"@],
    }
}

/// No name stands for two families.
proof fn lemma_names_differ()
    ensures
        "all"@.len() == 3,
        "all"@[0] == 'a',
        "fib"@.len() == 3,
        "fib"@[0] == 'f',
        "lucas"@.len() == 5,
        "repdigit"@.len() == 8,
        "mersenne"@.len() == 8,
        "repdigit"@[0] == 'r',
        "mersenne"@[0] == 'm',
        "repdigits"@.len() == 9,
        "mersennes"@.len() == 9,
        "fibonacci"@.len() == 9,
        "digit-run"@.len() == 9,
        "repdigits"@[0] == 'r',
        "mersennes"@[0] == 'm',
        "fibonacci"@[0] == 'f',
        "digit-run"@[0] == 'd',
        "tetranacci"@.len() == 10,
        "digit-runs"@.len() == 10,
        "tetranacci"@[0] == 't',
        "digit-runs"@[0] == 'd',
        "prime-mersenne"@.len() == 14,
        "mersenne-prime-exp"@.len() == 18,
        "consecutive-digits"@.len() == 18,
        "mersenne-prime-exp"@[0] == 'm',
        "consecutive-digits"@[0] == 'c',
        "mersenne-prime-exponent"@.len() == 23,
{
    reveal_strlit("all");
    reveal_strlit("fib");
    reveal_strlit("lucas");
    reveal_strlit("repdigit");
    reveal_strlit("mersenne");
    reveal_strlit("repdigits");
    reveal_strlit("mersennes");
    reveal_strlit("fibonacci");
    reveal_strlit("digit-run");
    reveal_strlit("tetranacci");
    reveal_strlit("digit-runs");
    reveal_strlit("prime-mersenne");
    reveal_strlit("mersenne-prime-exp");
    reveal_strlit("consecutive-digits");
    reveal_strlit("mersenne-prime-exponent");
}

/// Which names a family has.
proof fn lemma_names_of(family: CandidateFamily, name: Seq<char>)
    ensures
        names_of(family).contains(name) <==> match family {
            CandidateFamily::Repdigit => name == "repdigit"@ || name == "repdigits"@,
            CandidateFamily::Mersenne => name == "mersenne"@ || name == "mersennes"@,
            CandidateFamily::MersennePrimeExponent => {
                name == "mersenne-prime-exp"@ || name == "mersenne-prime-exponent"@ || name == "prime-mersenne"@
            },
            CandidateFamily::Fibonacci => name == "fibonacci"@ || name == "fib"@,
            CandidateFamily::Lucas => name == "lucas"@,
            CandidateFamily::Tetranacci => name == "tetranacci"@,
            CandidateFamily::ConsecutiveDigits => {
                name == "consecutive-digits"@ || name == "digit-run"@ || name == "digit-runs"@
            },
        },
{
    let names = names_of(family);
    if names.len() > 0 && name == names[0] {
        assert(names.contains(name));
    }
    if names.len() > 1 && name == names[1] {
        assert(names.contains(name));
    }
    if names.len() > 2 && name == names[2] {
        assert(names.contains(name));
    }
}

/// A name stands for the family of whose names it is one, and for none where it is none.
pub proof fn law_family_parse(name: &str, family: CandidateFamily, r: Option<CandidateFamily>)
    requires
        call_ensures(CandidateFamily::parse, (name,), r),
    ensures
        r == Some(family) <==> names_of(family).contains(name@),
{
    lemma_names_differ();
    lemma_names_of(family, name@);
}

/// A family is listed under the first of its names, which stands for it.
pub proof fn law_family_name(family: CandidateFamily, name: &'static str, r: Option<CandidateFamily>)
    requires
        call_ensures(CandidateFamily::name, (family,), name),
        call_ensures(CandidateFamily::parse, (name,), r),
    ensures
        name@ == names_of(family)[0],
        r == Some(family),
{
    lemma_names_differ();
}

/// Whether `families` is what one part of a list says: nothing where it is blank, every family
/// where it is `all`, and otherwise the family whose name it is, white space around it left aside.
pub open spec fn part_says(part: Seq<char>, families: Seq<CandidateFamily>) -> bool {
    let name = trimmed(part);
    if name.len() == 0 {
        families.len() == 0
    } else if name == "all"@ {
        families == seq![
            CandidateFamily::Repdigit,
            CandidateFamily::Mersenne,
            CandidateFamily::MersennePrimeExponent,
            CandidateFamily::Fibonacci,
            CandidateFamily::Lucas,
            CandidateFamily::Tetranacci,
            CandidateFamily::ConsecutiveDigits,
        ]
    } else {
        families.len() == 1 && names_of(families[0]).contains(name)
    }
}

/// Whether `families` is what the parts of a list say, one after the other.
pub open spec fn parts_say(parts: Seq<Seq<char>>, families: Seq<CandidateFamily>) -> bool {
    exists|lists: Seq<Seq<CandidateFamily>>| #[trigger] each_says(parts, lists) && families == lists.flatten()
}

/// Whether each of `lists` is what the part at its place says.
pub open spec fn each_says(parts: Seq<Seq<char>>, lists: Seq<Seq<CandidateFamily>>) -> bool {
    &&& lists.len() == parts.len()
    &&& forall|k: int| 0 <= k < parts.len() ==> part_says(#[trigger] parts[k], lists[k])
}

/// Whether part `k` is the first that says nothing that is known, and is `name`.
pub open spec fn part_fails(parts: Seq<Seq<char>>, k: int, name: Seq<char>) -> bool {
    &&& 0 <= k < parts.len()
    &&& name == trimmed(parts[k])
    &&& name.len() > 0
    &&& name != "all"@
    &&& forall|family: CandidateFamily| !(#[trigger] names_of(family)).contains(name)
    &&& exists|families: Seq<CandidateFamily>| #[trigger] parts_say(parts.take(k), families)
}

/// What a name stands for is the family of whose names it is one.
proof fn lemma_named(name: Seq<char>, family: CandidateFamily)
    ensures
        CandidateFamily::named(name) == Some(family) <==> names_of(family).contains(name),
{
    lemma_names_differ();
    lemma_names_of(family, name);
}

/// One more list at the end.
proof fn lemma_flatten_push(lists: Seq<Seq<CandidateFamily>>, last: Seq<CandidateFamily>)
    ensures
        lists.push(last).flatten() == lists.flatten() + last,
{
    lists.push(last).lemma_flatten_and_flatten_alt_are_equivalent();
    lists.lemma_flatten_and_flatten_alt_are_equivalent();
    assert(lists.push(last).drop_last() =~= lists);
}

/// The parts of a list say what their names stand for.
proof fn lemma_parts(parts: Seq<Seq<char>>)
    ensures
        families_in(parts) is Ok ==> parts_say(parts, families_in(parts)->Ok_0),
        families_in(parts) is Err ==> exists|k: int| #[trigger] part_fails(parts, k, families_in(parts)->Err_0),
    decreases parts.len(),
{
    if parts.len() == 0 {
        let lists = Seq::<Seq<CandidateFamily>>::empty();
        assert(lists.flatten() =~= Seq::empty());
        assert(each_says(parts, lists) && lists.flatten() == Seq::<CandidateFamily>::empty());
    } else {
        let n = parts.len() - 1;
        let t = parts.drop_last();
        lemma_parts(t);
        assert(parts.take(n) =~= t);
        match families_in(t) {
            Err(name) => {
                let k = choose|k: int| #[trigger] part_fails(t, k, name);
                assert(t.take(k) =~= parts.take(k));
                assert(families_in(parts)->Err_0 == name);
                assert(part_fails(parts, k, families_in(parts)->Err_0));
            },
            Ok(before) => {
                let name = trimmed(parts.last());
                let lists = choose|lists: Seq<Seq<CandidateFamily>>| #[trigger]
                    each_says(t, lists) && before == lists.flatten();
                match families_in(parts) {
                    Err(_) => {
                        assert forall|family: CandidateFamily| !(#[trigger] names_of(family)).contains(name) by {
                            lemma_named(name, family);
                        }
                        assert(parts_say(parts.take(n), before));
                        assert(families_in(parts)->Err_0 == name);
                        assert(part_fails(parts, n, families_in(parts)->Err_0));
                    },
                    Ok(families) => {
                        let last = families.skip(before.len() as int);
                        assert(families =~= before + last);
                        if name.len() > 0 && name == "all"@ {
                            assert(last =~= CandidateFamily::all_spec());
                        } else if name.len() > 0 {
                            lemma_named(name, last[0]);
                        }
                        let more = lists.push(last);
                        lemma_flatten_push(lists, last);
                        assert forall|k: int| 0 <= k < parts.len() implies part_says(#[trigger] parts[k], more[k]) by {
                            if k < n {
                                assert(part_says(t[k], lists[k]));
                            }
                        }
                        assert(each_says(parts, more) && families == more.flatten());
                    },
                }
            },
        }
    }
}

/// A list of names, with commas between its parts, stands for what its parts say, one after the
/// other; it is refused exactly where a part says nothing that is known, by the first such part.
pub proof fn law_parse_family_list(value: &str, parts: Seq<Seq<char>>, r: Result<Vec<CandidateFamily>, ArgsError>)
    requires
        call_ensures(parse_family_list, (value,), r),
        parts.len() >= 1,
        rejoined(parts, ',') == value@,
        forall|k: int| 0 <= k < parts.len() ==> !#[trigger] parts[k].contains(','),
    ensures
        match r {
            Ok(families) => parts_say(parts, families@),
            Err(error) => exists|k: int, name: Seq<char>| #[trigger]
                part_fails(parts, k, name) && error@ == (ArgsErrorView::UnknownFamily { name }),
        },
{
    law_rejoined_splits(parts, ',');
    lemma_parts(parts);
    if r is Err {
        let name = families_in(parts)->Err_0;
        let k = choose|k: int| #[trigger] part_fails(parts, k, name);
        assert(part_fails(parts, k, name));
    }
}

/// The names of the families, as the parts of a list.
spec fn name_parts(families: Seq<CandidateFamily>, blanks: nat) -> Seq<Seq<char>> {
    Seq::new(
        families.len(),
        |i: int|
            if i > 0 && blanks > 0 {
                seq![' '] + families[i].name_spec()
            } else {
                families[i].name_spec()
            },
    )
}

/// Whether `c` stands nowhere in the first `k` characters.
spec fn lacks(s: Seq<char>, c: char, k: int) -> bool
    decreases k,
{
    k <= 0 || s[k - 1] != c && lacks(s, c, k - 1)
}

proof fn lemma_lacks(s: Seq<char>, c: char, k: int)
    requires
        lacks(s, c, k),
    ensures
        forall|i: int| 0 <= i < k ==> s[i] != c,
    decreases k,
{
    if k > 0 {
        lemma_lacks(s, c, k - 1);
    }
}

/// The listed names hold no comma and neither begin nor end with white space.
proof fn lemma_listed_name(family: CandidateFamily)
    ensures
        family.name_spec().len() > 0,
        !family.name_spec().contains(','),
        !is_space(family.name_spec()[0]),
        !is_space(family.name_spec().last()),
        family.name_spec() != "all"@,
{
    lemma_names_differ();
    reveal_strlit("lucas");
    reveal_strlit("repdigit");
    reveal_strlit("mersenne");
    reveal_strlit("fibonacci");
    reveal_strlit("tetranacci");
    reveal_strlit("mersenne-prime-exp");
    reveal_strlit("consecutive-digits");
    let name = family.name_spec();
    assert(lacks(name, ',', name.len() as int)) by {
        reveal_with_fuel(lacks, 20);
    }
    lemma_lacks(name, ',', name.len() as int);
}

/// The names with a comma between each two are the parts put together.
proof fn lemma_joined(families: Seq<CandidateFamily>, sep: Seq<char>, blanks: nat)
    requires
        families.len() >= 1,
        sep == if blanks > 0 {
            seq![',', ' ']
        } else {
            seq![',']
        },
    ensures
        joined_names(families, sep) == rejoined(name_parts(families, blanks), ','),
    decreases families.len(),
{
    let parts = name_parts(families, blanks);
    if families.len() == 1 {
        assert(parts[0] == families[0].name_spec());
    } else {
        let t = families.drop_last();
        let before = name_parts(t, blanks);
        lemma_joined(t, sep, blanks);
        let last = parts.last();
        assert(parts =~= before.push(last));
        lemma_rejoined_push(before, last, ',');
        assert(joined_names(families, sep) =~= rejoined(parts, ','));
    }
}

/// One more part at the end.
proof fn lemma_rejoined_push(parts: Seq<Seq<char>>, last: Seq<char>, sep: char)
    requires
        parts.len() >= 1,
    ensures
        rejoined(parts.push(last), sep) == rejoined(parts, sep).push(sep) + last,
    decreases parts.len(),
{
    let more = parts.push(last);
    if parts.len() == 1 {
        assert(more.skip(1) =~= seq![last]);
        assert(rejoined(more.skip(1), sep) == last);
        assert(rejoined(more, sep) =~= parts[0].push(sep) + last);
    } else {
        let rest = parts.skip(1);
        lemma_rejoined_push(rest, last, sep);
        assert(more.skip(1) =~= rest.push(last));
        assert(rejoined(more, sep) =~= rejoined(parts, sep).push(sep) + last);
    }
}

/// The parts made of listed names stand for the families.
#[verifier::rlimit(40)]
#[verifier::spinoff_prover]
proof fn lemma_name_parts(families: Seq<CandidateFamily>, blanks: nat)
    ensures
        families_in(name_parts(families, blanks)) == Ok::<Seq<CandidateFamily>, Seq<char>>(families),
        forall|k: int| 0 <= k < families.len() ==> !#[trigger] name_parts(families, blanks)[k].contains(','),
    decreases families.len(),
{
    let parts = name_parts(families, blanks);
    assert forall|k: int| 0 <= k < families.len() implies !#[trigger] parts[k].contains(',') by {
        lemma_listed_name(families[k]);
        if parts[k].contains(',') {
            let i = choose|i: int| 0 <= i < parts[k].len() && parts[k][i] == ',';
            let name = families[k].name_spec();
            if parts[k].len() > name.len() {
                assert(i > 0);
                assert(name[i - 1] == ',');
            } else {
                assert(name[i] == ',');
            }
        }
    }
    if families.len() > 0 {
        let t = families.drop_last();
        lemma_name_parts(t, blanks);
        assert(parts.drop_last() =~= name_parts(t, blanks));
        let part = parts.last();
        let family = families.last();
        let name = family.name_spec();
        lemma_listed_name(family);
        let a = part.len() - name.len();
        assert(part.subrange(a, part.len() as int) =~= name);
        assert forall|i: int| 0 <= i < a implies is_space(#[trigger] part[i]) by {
            assert(part[i] == ' ');
        }
        assert(part[a] == name[0]);
        assert(part[part.len() - 1] == name.last());
        assert(is_core(part, a, part.len() as int, name));
        law_trimmed_core(part, a, part.len() as int, name);
        crate::config::law_name_parses(family);
        assert(t.push(family) =~= families);
    } else {
        assert(families =~= Seq::empty());
    }
}

/// The names of families, written as a list, stand for those families.
pub proof fn law_names_are_read_back(
    families: &[CandidateFamily],
    list: String,
    value: &str,
    r: Result<Vec<CandidateFamily>, ArgsError>,
)
    requires
        call_ensures(family_names, (families,), list),
        value@ == list@,
        call_ensures(parse_family_list, (value,), r),
    ensures
        r is Ok,
        r->Ok_0@ == families@,
{
    reveal_strlit(",");
    assert(","@ =~= seq![',']);
    if families@.len() == 0 {
        let parts = seq![Seq::<char>::empty()];
        assert(split_on(value@, ',') =~= parts);
        assert(parts.drop_last() =~= Seq::empty());
        assert(families_in(parts.drop_last()) == Ok::<Seq<CandidateFamily>, Seq<char>>(Seq::empty()));
        assert(trimmed(parts.last()) =~= Seq::empty());
        assert(families@ =~= Seq::empty());
    } else {
        let parts = name_parts(families@, 0);
        lemma_joined(families@, ","@, 0);
        lemma_name_parts(families@, 0);
        law_rejoined_splits(parts, ',');
    }
}

/// Every family is among all, once.
proof fn lemma_all_families()
    ensures
        CandidateFamily::all_spec().no_duplicates(),
        forall|family: CandidateFamily| #[trigger] CandidateFamily::all_spec().contains(family),
{
    let all = CandidateFamily::all_spec();
    assert forall|family: CandidateFamily| #[trigger] all.contains(family) by {
        match family {
            CandidateFamily::Repdigit => assert(all[0] == family),
            CandidateFamily::Mersenne => assert(all[1] == family),
            CandidateFamily::MersennePrimeExponent => assert(all[2] == family),
            CandidateFamily::Fibonacci => assert(all[3] == family),
            CandidateFamily::Lucas => assert(all[4] == family),
            CandidateFamily::Tetranacci => assert(all[5] == family),
            CandidateFamily::ConsecutiveDigits => assert(all[6] == family),
        }
    }
}

/// What `all` says.
proof fn lemma_all_says()
    ensures
        part_says("all"@, CandidateFamily::all_spec()),
{
    reveal_strlit("all");
    assert("all"@.subrange(0, 3) =~= "all"@);
    assert(is_core("all"@, 0, 3, "all"@));
    law_trimmed_core("all"@, 0, 3, "all"@);
}

/// The list of available names stands for all families, as `all` does, and each family is among
/// them once.
pub proof fn law_available_names(list: String, value: &str, r: Result<Vec<CandidateFamily>, ArgsError>)
    requires
        call_ensures(available_family_names, (), list),
        value@ == list@,
        call_ensures(parse_family_list, (value,), r),
    ensures
        r is Ok,
        part_says("all"@, r->Ok_0@),
        r->Ok_0@.no_duplicates(),
        forall|family: CandidateFamily| #[trigger] r->Ok_0@.contains(family),
{
    reveal_strlit(", ");
    assert(", "@ =~= seq![',', ' ']);
    let all = CandidateFamily::all_spec();
    assert(all.len() == 7);
    let parts = name_parts(all, 1);
    lemma_joined(all, ", "@, 1);
    lemma_name_parts(all, 1);
    law_rejoined_splits(parts, ',');
    lemma_all_families();
    lemma_all_says();
}

/// Dropping repeated families keeps each once, in the order in which they first stand.
pub proof fn law_dedup_families(families: &mut Vec<CandidateFamily>)
    requires
        call_ensures(dedup_families, (families,), ()),
    ensures
        firsts_of(old(families)@, final(families)@),
{
    lemma_deduped_firsts(old(families)@);
}

/// The parameters of a label in words, in order.
pub open spec fn parameters_of(l: CandidateLabel) -> Seq<Seq<char>> {
    match l {
        CandidateLabel::Repdigit { digit, len } => {
            seq!["d="@ + decimal(digit as nat), "len="@ + decimal(len as nat)]
        },
        CandidateLabel::ConsecutiveDigits { direction, start, len } => {
            seq![
                if direction == Direction::Asc {
                    "asc"@
                } else {
                    "desc"@
                },
                "start="@ + decimal(start as nat),
                "len="@ + decimal(len as nat),
            ]
        },
        CandidateLabel::MersennePrimeExponent { exponent } => seq!["p="@ + decimal(exponent as nat)],
        CandidateLabel::Mersenne { exponent } => seq!["k="@ + decimal(exponent as nat)],
        CandidateLabel::Fibonacci { index } => seq!["k="@ + decimal(index as nat)],
        CandidateLabel::Lucas { index } => seq!["k="@ + decimal(index as nat)],
        CandidateLabel::Tetranacci { index } => seq!["k="@ + decimal(index as nat)],
    }
}

/// A label is named after its family.
pub proof fn law_label_shape(family: CandidateFamily, l: CandidateLabel, shape: &'static str, name: &'static str)
    requires
        family_has_label(family, l),
        call_ensures(CandidateLabel::shape, (&l,), shape),
        call_ensures(CandidateFamily::name, (family,), name),
    ensures
        shape@ == name@,
{
}

/// The text of a label is its family and, in brackets and with a comma between each two, its
/// parameters.
pub proof fn law_label_text(l: CandidateLabel, shape: &'static str, r: String)
    requires
        call_ensures(CandidateLabel::shape, (&l,), shape),
        call_ensures(CandidateLabel::text, (&l,), r),
    ensures
        r@ == shape@ + seq!['('] + rejoined(parameters_of(l), ',') + seq![')'],
{
    lemma_text_parts();
    let parameters = parameters_of(l);
    reveal_with_fuel(rejoined, 4);
    if parameters.len() >= 2 {
        assert(parameters.skip(1)[0] == parameters[1]);
    }
    if parameters.len() == 3 {
        assert(parameters.skip(1).skip(1)[0] == parameters[2]);
        assert(rejoined(parameters, ',') =~= parameters[0].push(',') + (parameters[1].push(',') + parameters[2]));
    } else if parameters.len() == 2 {
        assert(rejoined(parameters, ',') =~= parameters[0].push(',') + parameters[1]);
    }
    assert(r@ =~= shape@ + seq!['('] + rejoined(parameters, ',') + seq![')']);
}

/// The pieces of the labels' texts, character by character.
proof fn lemma_text_parts()
    ensures
        ")"@ == seq![')'],
        "repdigit(d="@ == "repdigit"@ + seq!['('] + "d="@,
        ",len="@ == seq![','] + "len="@,
        ",start="@ == seq![','] + "start="@,
        "mersenne(k="@ == "mersenne"@ + seq!['('] + "k="@,
        "mersenne-prime-exp(p="@ == "mersenne-prime-exp"@ + seq!['('] + "p="@,
        "fibonacci(k="@ == "fibonacci"@ + seq!['('] + "k="@,
        "lucas(k="@ == "lucas"@ + seq!['('] + "k="@,
        "tetranacci(k="@ == "tetranacci"@ + seq!['('] + "k="@,
        "consecutive-digits("@ == "consecutive-digits"@ + seq!['('],
{
    reveal_strlit(")");
    reveal_strlit("d=");
    reveal_strlit("k=");
    reveal_strlit("p=");
    reveal_strlit("len=");
    reveal_strlit(",len=");
    reveal_strlit("start=");
    reveal_strlit(",start=");
    reveal_strlit("lucas");
    reveal_strlit("repdigit");
    reveal_strlit("mersenne");
    reveal_strlit("fibonacci");
    reveal_strlit("tetranacci");
    reveal_strlit("mersenne-prime-exp");
    reveal_strlit("consecutive-digits");
    reveal_strlit("repdigit(d=");
    reveal_strlit("mersenne(k=");
    reveal_strlit("mersenne-prime-exp(p=");
    reveal_strlit("fibonacci(k=");
    reveal_strlit("lucas(k=");
    reveal_strlit("tetranacci(k=");
    reveal_strlit("consecutive-digits(");
    assert(")"@ =~= seq![')']);
    assert("repdigit(d="@ =~= "repdigit"@ + seq!['('] + "d="@);
    assert(",len="@ =~= seq![','] + "len="@);
    assert(",start="@ =~= seq![','] + "start="@);
    assert("mersenne(k="@ =~= "mersenne"@ + seq!['('] + "k="@);
    assert("mersenne-prime-exp(p="@ =~= "mersenne-prime-exp"@ + seq!['('] + "p="@);
    assert("fibonacci(k="@ =~= "fibonacci"@ + seq!['('] + "k="@);
    assert("lucas(k="@ =~= "lucas"@ + seq!['('] + "k="@);
    assert("tetranacci(k="@ =~= "tetranacci"@ + seq!['('] + "k="@);
    assert("consecutive-digits("@ =~= "consecutive-digits"@ + seq!['(']);
}

/// The labels' texts put together are the parts put together.
proof fn lemma_joined_labels(labels: Seq<CandidateLabel>, parts: Seq<Seq<char>>)
    requires
        labels.len() >= 1,
        parts == Seq::new(labels.len(), |i: int| labels[i].text_spec()),
        ";"@ == seq![';'],
    ensures
        joined_labels(labels) == rejoined(parts, ';'),
    decreases labels.len(),
{
    if labels.len() > 1 {
        let t = labels.drop_last();
        let before = parts.drop_last();
        assert(before =~= Seq::new(t.len(), |i: int| t[i].text_spec()));
        lemma_joined_labels(t, before);
        assert(parts =~= before.push(parts.last()));
        lemma_rejoined_push(before, parts.last(), ';');
        assert(joined_labels(labels) =~= rejoined(parts, ';'));
    }
}

/// The text of a candidate's labels is the labels' texts, in order, with a semicolon between each
/// two; a candidate without labels says so. `texts` are the texts of the labels.
pub proof fn law_labels_text(candidate: Candidate, texts: Seq<String>, r: String)
    requires
        call_ensures(Candidate::labels_text, (&candidate,), r),
        texts.len() == candidate.label_seq().len(),
        forall|i: int|
            0 <= i < texts.len() ==> call_ensures(
                CandidateLabel::text,
                (&candidate.label_seq()[i],),
                #[trigger] texts[i],
            ),
    ensures
        texts.len() == 0 ==> r@ == "unlabeled"@,
        texts.len() > 0 ==> r@ == rejoined(Seq::new(texts.len(), |i: int| texts[i]@), ';'),
{
    reveal_strlit(";");
    assert(";"@ =~= seq![';']);
    if texts.len() > 0 {
        let labels = candidate.label_seq();
        let parts = Seq::new(texts.len(), |i: int| texts[i]@);
        assert(parts =~= Seq::new(labels.len(), |i: int| labels[i].text_spec())) by {
            assert forall|i: int| 0 <= i < texts.len() implies texts[i]@ == labels[i].text_spec() by {
                assert(call_ensures(CandidateLabel::text, (&labels[i],), texts[i]));
            }
        }
        lemma_joined_labels(labels, parts);
    }
}

} // verus!
