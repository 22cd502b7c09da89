//! What a listing of the machine's memory says.
use crate::sizing::{
    available_kib, first_labelled, first_word, line_kib, mem_available_bytes, mem_available_kib, memory_label,
};
use crate::text::{is_space, read_number};
use crate::text_laws::{
    law_one_reading, law_rejoined_splits, lemma_read_number, lemma_trim_start, rejoined, spells, unsigned,
};
use vstd::prelude::*;

verus! {

/// Whether a line begins with the label of the available memory.
pub open spec fn is_labelled(line: Seq<char>) -> bool {
    line.len() >= 13 && line.take(13) == "MemAvailable:"@
}

/// Whether line `k` is the first with the label.
pub open spec fn is_first_labelled(lines: Seq<Seq<char>>, k: int) -> bool {
    &&& 0 <= k < lines.len()
    &&& is_labelled(lines[k])
    &&& forall|j: int| 0 <= j < k ==> !is_labelled(#[trigger] lines[j])
}

/// Whether `a .. b` is the first word behind the label: only white space stands before it and none
/// in it, and it goes up to white space or the end.
pub open spec fn is_first_word(line: Seq<char>, a: int, b: int) -> bool {
    &&& 13 <= a < b <= line.len()
    &&& forall|i: int| 13 <= i < a ==> is_space(#[trigger] line[i])
    &&& forall|i: int| a <= i < b ==> !is_space(#[trigger] line[i])
    &&& b < line.len() ==> is_space(line[b])
}

/// Whether the first word behind the label of `line` is `a .. b` and stands for `v`.
pub open spec fn gives(line: Seq<char>, a: int, b: int, v: int) -> bool {
    is_first_word(line, a, b) && spells(unsigned(line.subrange(a, b)), v) && v <= u128::MAX
}

/// The first word ends at white space or at the end.
proof fn lemma_first_word(s: Seq<char>) -> (e: int)
    ensures
        0 <= e <= s.len(),
        first_word(s) == s.take(e),
        forall|i: int| 0 <= i < e ==> !is_space(#[trigger] s[i]),
        e < s.len() ==> is_space(s[e]),
    decreases s.len(),
{
    if s.len() == 0 || is_space(s[0]) {
        assert(s.take(0) =~= Seq::empty());
        0
    } else {
        let t = s.skip(1);
        let e = lemma_first_word(t);
        assert(seq![s[0]] + t.take(e) =~= s.take(e + 1));
        assert forall|i: int| 0 <= i < e + 1 implies !is_space(#[trigger] s[i]) by {
            if i > 0 {
                assert(t[i - 1] == s[i]);
            }
        }
        if e + 1 < s.len() {
            assert(t[e] == s[e + 1]);
        }
        e + 1
    }
}

/// What a labelled line gives.
proof fn lemma_line(line: Seq<char>)
    requires
        is_labelled(line),
    ensures
        line_kib(line) matches Some(v) ==> exists|a: int, b: int| #[trigger] gives(line, a, b, v as int),
        forall|a: int, b: int, v: int| #[trigger] gives(line, a, b, v) ==> line_kib(line) == Some(v as nat) && v >= 0,
{
    let rest = line.skip(13);
    let a = lemma_trim_start(rest);
    let s = rest.skip(a);
    let e = lemma_first_word(s);
    let word = s.take(e);
    let from = 13 + a;
    let to = from + e;
    assert(word =~= line.subrange(from, to));
    lemma_read_number(word, u128::MAX as nat);
    assert forall|i: int| 13 <= i < from implies is_space(#[trigger] line[i]) by {
        assert(rest[i - 13] == line[i]);
    }
    assert forall|i: int| from <= i < to implies !is_space(#[trigger] line[i]) by {
        assert(s[i - from] == line[i]);
    }
    if to < line.len() {
        assert(s[e] == line[to]);
    }
    if line_kib(line) is Some {
        assert(gives(line, from, to, line_kib(line)->0 as int));
    }
    assert forall|c: int, d: int, v: int| #[trigger] gives(line, c, d, v) implies line_kib(line) == Some(v as nat)
        && v >= 0 by {
        assert(!is_space(line[c]));
        assert(c == from) by {
            if c < from {
                assert(is_space(line[c]));
            }
            if from < c {
                assert(is_space(line[from]));
                assert(rest[a] == line[from]);
            }
        }
        assert(d == to) by {
            if d < to {
                assert(!is_space(line[d]));
            }
            if to < d {
                assert(is_space(line[to]));
            }
        }
        if read_number(word, u128::MAX as nat) is Err {
            law_one_reading(word, u128::MAX as int, v, read_number(word, u128::MAX as nat)->Err_0);
        }
    }
}

/// The line that counts is the first with the label.
proof fn lemma_lines(lines: Seq<Seq<char>>)
    ensures
        forall|k: int| #[trigger] is_first_labelled(lines, k) ==> first_labelled(lines) == line_kib(lines[k]),
        first_labelled(lines) is Some ==> exists|k: int| #[trigger] is_first_labelled(lines, k),
    decreases lines.len(),
{
    reveal_strlit("MemAvailable:");
    if lines.len() > 0 {
        let line = lines[0];
        assert(is_labelled(line) <==> memory_label().is_prefix_of(line)) by {
            if line.len() >= 13 {
                assert(line.take(13) =~= line.subrange(0, 13));
            }
        }
        let rest = lines.skip(1);
        lemma_lines(rest);
        assert forall|k: int| #[trigger] is_first_labelled(lines, k) implies first_labelled(lines) == line_kib(
            lines[k],
        ) by {
            if k > 0 {
                assert(!is_labelled(lines[0]));
                assert(is_first_labelled(rest, k - 1)) by {
                    assert forall|j: int| 0 <= j < k - 1 implies !is_labelled(#[trigger] rest[j]) by {
                        assert(rest[j] == lines[j + 1]);
                    }
                }
            }
        }
        if first_labelled(lines) is Some {
            if is_labelled(line) {
                assert(is_first_labelled(lines, 0));
            } else {
                let k = choose|k: int| #[trigger] is_first_labelled(rest, k);
                assert forall|j: int| 0 <= j < k + 1 implies !is_labelled(#[trigger] lines[j]) by {
                    if j > 0 {
                        assert(lines[j] == rest[j - 1]);
                    }
                }
                assert(is_first_labelled(lines, k + 1));
            }
        }
    }
}

/// The available memory is the number that stands first behind the label, in the first line that
/// begins with it; where there is no such line, or no such number in it, nothing is known. `lines`
/// are the lines of the listing.
pub proof fn law_mem_available_kib(meminfo: &str, lines: Seq<Seq<char>>, r: Option<u128>)
    requires
        call_ensures(mem_available_kib, (meminfo,), r),
        lines.len() >= 1,
        rejoined(lines, '\n') == meminfo@,
        forall|k: int| 0 <= k < lines.len() ==> !#[trigger] lines[k].contains('\n'),
    ensures
        r is Some ==> exists|k: int, a: int, b: int|
            #![trigger is_first_labelled(lines, k), gives(lines[k], a, b, r->0 as int)]
            is_first_labelled(lines, k) && gives(lines[k], a, b, r->0 as int),
        forall|k: int, a: int, b: int, v: int|
            #![trigger is_first_labelled(lines, k), gives(lines[k], a, b, v)]
            is_first_labelled(lines, k) && gives(lines[k], a, b, v) ==> r is Some && r->0 == v,
{
    law_rejoined_splits(lines, '\n');
    assert(available_kib(meminfo@) == first_labelled(lines));
    lemma_lines(lines);
    if r is Some {
        let k = choose|k: int| #[trigger] is_first_labelled(lines, k);
        lemma_line(lines[k]);
        let (a, b) = choose|a: int, b: int| #[trigger] gives(lines[k], a, b, r->0 as int);
        assert(is_first_labelled(lines, k) && gives(lines[k], a, b, r->0 as int));
    }
    assert forall|k: int, a: int, b: int, v: int|
        #![trigger is_first_labelled(lines, k), gives(lines[k], a, b, v)]
        is_first_labelled(lines, k) && gives(lines[k], a, b, v) implies r is Some && r->0 == v by {
        lemma_line(lines[k]);
    }
}

/// The bytes are those of the KiB.
pub proof fn law_mem_available_bytes(meminfo: &str, kib: Option<u128>, bytes: Option<u128>)
    requires
        call_ensures(mem_available_kib, (meminfo,), kib),
        call_ensures(mem_available_bytes, (meminfo,), bytes),
    ensures
        kib is Some <==> bytes is Some,
        kib is Some ==> bytes->0 == 1024 * kib->0,
{
}

} // verus!
