//! Deleting by a scan over all words, sixteen bits at a time through a table of actions.
use crate::bits::{flags, prefix_ones, word_bit, word_flags};
use crate::lists::{ones, positions, strike, thin};
use crate::sieve::{survivors, LuckySieve};
use vstd::math::{max, min};
use vstd::prelude::*;

verus! {

/// The largest step that the table of actions is built for.
pub const U16_SCAN_MAX_STEP: u64 = 2048;

/// The least number of words for which a scan pays.
pub const SCAN_MIN_WORDS: u64 = 1_000_000;

/// From this number of words on a scan pays for fewer deletions.
pub const SCAN_LARGE_WORDS: u64 = 100_000_000;

/// Words per deletion from which a scan pays, in a small sieve.
pub const SCAN_SMALL_DELETION_WORD_DIVISOR: u64 = 4;

/// Words per deletion from which a scan pays, in a large sieve.
pub const SCAN_LARGE_DELETION_WORD_DIVISOR: u64 = 16;

/// The highest factor that is deleted by scanning unless the caller chooses otherwise.
pub const SCAN_THRESHOLD: u64 = 511;

/// Where one part of a scan starts: the numbers left before it, modulo the step.
#[derive(Debug, Clone, Copy)]
pub struct ScanRange {
    pub start_rank_mod: u64,
}

/// The bits of a sixteen-bit chunk, the lowest first.
pub open spec fn chunk_flags(chunk: u16) -> Seq<bool> {
    Seq::new(16, |i: int| (chunk >> (i as u16)) & 1 == 1)
}

/// The chunk that an action leaves.
pub open spec fn action_chunk(action: u32) -> u16 {
    (action & 0xFFFF) as u16
}

/// How many bits an action clears.
pub open spec fn action_deleted(action: u32) -> int {
    ((action >> 16) & 0x1F) as int
}

/// The phase that an action hands to the next chunk.
pub open spec fn action_phase(action: u32) -> int {
    (action >> 21) as int
}

/// Whether `action` is what deleting every `step`-th set bit does to `chunk` when `phase` set
/// bits have gone by since the last deletion.
pub open spec fn action_for(step: int, phase: int, chunk: u16, action: u32) -> bool {
    let total = phase + ones(chunk_flags(chunk));
    &&& chunk_flags(action_chunk(action)) == thin(chunk_flags(chunk), phase, step)
    &&& action_deleted(action) == total / step
    &&& action_phase(action) == total % step
}

/// Whether `actions` is the whole table for `step`.
pub open spec fn action_table(step: int, actions: Seq<u32>) -> bool {
    &&& actions.len() == step * 65536
    &&& forall|phase: int, chunk: int|
        0 <= phase < step && 0 <= chunk < 65536 ==> action_for(
            step,
            phase,
            chunk as u16,
            #[trigger] actions[phase * 65536 + chunk],
        )
}

/// Setting one more bit of a mask sets that bit and no other.
proof fn lemma_set_bit(mask: u64, bit: u64, j: u64)
    requires
        bit < 64,
        j < 64,
    ensures
        word_bit(mask | (1u64 << bit), j as int) == (j == bit || word_bit(mask, j as int)),
{
    assert((((mask | (1u64 << bit)) >> j) & 1 == 1) == (j == bit || (mask >> j) & 1 == 1)) by (bit_vector)
        requires
            bit < 64,
            j < 64,
    ;
}

/// The words that keep, among all bits, those whose one-based index is no multiple of three;
/// they repeat after three words.
pub fn initial_keep_masks_for_three() -> (masks: [u64; 3])
    ensures
        forall|w: int, b: int|
            0 <= w < 3 && 0 <= b < 64 ==> #[trigger] word_bit(masks@[w], b) == ((64 * w + b + 1) % 3 != 0),
{
    let mut masks: [u64; 3] = [0u64, 0u64, 0u64];
    let mut word_mod: usize = 0;
    while word_mod < 3
        invariant
            word_mod <= 3,
            forall|w: int, b: int|
                0 <= w < word_mod && 0 <= b < 64 ==> #[trigger] word_bit(masks@[w], b) == ((64 * w + b + 1) % 3
                    != 0),
        decreases 3 - word_mod,
    {
        let mut mask: u64 = 0;
        let mut bit: usize = 0;
        proof {
            assert forall|b: int| 0 <= b < 64 implies !#[trigger] word_bit(0u64, b) by {
                let j = b as u64;
                assert((0u64 >> j) & 1 == 0) by (bit_vector);
            }
        }
        while bit < 64
            invariant
                bit <= 64,
                word_mod < 3,
                forall|b: int|
                    0 <= b < 64 ==> #[trigger] word_bit(mask, b) == (b < bit && (64 * word_mod + b + 1) % 3 != 0),
            decreases 64 - bit,
        {
            let rank_mod: usize = (word_mod * 64 + bit + 1) % 3;
            let ghost before = mask;
            if rank_mod != 0 {
                mask = mask | (1u64 << (bit as u64));
            }
            proof {
                assert forall|b: int| 0 <= b < 64 implies #[trigger] word_bit(mask, b) == (b < bit + 1 && (64
                    * word_mod + b + 1) % 3 != 0) by {
                    assert(word_bit(before, b) == (b < bit && (64 * word_mod + b + 1) % 3 != 0));
                    lemma_set_bit(before, bit as u64, b as u64);
                }
            }
            bit = bit + 1;
        }
        masks[word_mod] = mask;
        word_mod = word_mod + 1;
    }
    masks
}

/// `(p + o) / step` splits into what `p` alone gives and what its remainder adds.
proof fn lemma_div_split(p: int, o: int, step: int)
    requires
        p >= 0,
        o >= 0,
        step >= 1,
    ensures
        (p + o) / step == p / step + (p % step + o) / step,
        (p + o) % step == (p % step + o) % step,
{
    vstd::arithmetic::div_mod::lemma_fundamental_div_mod(p, step);
    vstd::arithmetic::div_mod::lemma_fundamental_div_mod(p % step + o, step);
    let a = p / step;
    let b = (p % step + o) / step;
    assert(step * (a + b) == step * a + step * b) by (nonlinear_arith);
    crate::lists::lemma_quotient(p + o, step, a + b, (p % step + o) % step);
}

/// The action for one chunk at one phase, packed: the chunk that is left in the low sixteen bits,
/// the number of deletions in the next five, and the new phase above.
pub fn pack_u16_action(step: u16, phase: u16, chunk: u16) -> (action: u32)
    requires
        1 <= step <= U16_SCAN_MAX_STEP,
        phase < step,
    ensures
        action_for(step as int, phase as int, chunk, action),
{
    let mut rank_mod: u16 = phase;
    let mut out: u16 = chunk;
    let mut deleted: u32 = 0;
    let ghost f = chunk_flags(chunk);
    let ghost l = step as int;
    let ghost want = thin(f, phase as int, l);
    proof {
        assert(f.take(0) =~= Seq::empty());
        crate::lists::lemma_quotient(phase as int, l, 0, phase as int);
    }
    let mut bit: u16 = 0;
    while bit < 16
        invariant
            bit <= 16,
            f == chunk_flags(chunk),
            l == step,
            want == thin(f, phase as int, l),
            1 <= step <= U16_SCAN_MAX_STEP,
            rank_mod < step,
            phase < step,
            rank_mod == (phase + ones(f.take(bit as int))) % l,
            deleted == (phase + ones(f.take(bit as int))) / l,
            deleted <= bit,
            forall|i: int| 0 <= i < bit ==> #[trigger] chunk_flags(out)[i] == want[i],
            forall|i: int| bit <= i < 16 ==> #[trigger] chunk_flags(out)[i] == f[i],
        decreases 16 - bit,
    {
        let mask: u16 = 1u16 << bit;
        let ghost before = out;
        let ghost p = phase + ones(f.take(bit as int));
        proof {
            assert((chunk & mask == 0) == ((chunk >> bit) & 1 != 1)) by (bit_vector)
                requires
                    mask == 1u16 << bit,
                    bit < 16,
            ;
            assert((chunk & mask == 0) == !f[bit as int]);
            crate::lists::lemma_ones_step(f, bit as int);
            lemma_div_split(p, 1, l);
        }
        if chunk & mask != 0 {
            rank_mod = rank_mod + 1;
            if rank_mod == step {
                out = out & !mask;
                rank_mod = 0;
                deleted = deleted + 1;
                proof {
                    crate::lists::lemma_quotient(l, l, 1, 0);
                    assert forall|i: int| 0 <= i < 16 implies #[trigger] chunk_flags(out)[i] == (i != bit
                        && chunk_flags(before)[i]) by {
                        let j = i as u16;
                        assert(((out >> j) & 1 == 1) == (j != bit && (before >> j) & 1 == 1)) by (bit_vector)
                            requires
                                out == before & !mask,
                                mask == 1u16 << bit,
                                bit < 16,
                                j < 16,
                        ;
                    }
                }
            } else {
                proof {
                    crate::lists::lemma_quotient(rank_mod as int, l, 0, rank_mod as int);
                }
            }
        }
        proof {
            assert forall|i: int| 0 <= i < bit + 1 implies #[trigger] chunk_flags(out)[i] == want[i] by {
                assert(i < bit ==> chunk_flags(before)[i] == want[i]);
                assert(i == bit ==> chunk_flags(before)[i] == f[i]);
            }
            assert forall|i: int| bit + 1 <= i < 16 implies #[trigger] chunk_flags(out)[i] == f[i] by {
                assert(chunk_flags(before)[i] == f[i]);
            }
        }
        bit = bit + 1;
    }
    let action: u32 = (out as u32) | (deleted << 16) | ((rank_mod as u32) << 21);
    proof {
        assert(f.take(16) =~= f);
        assert(chunk_flags(out) =~= want);
        assert((action & 0xFFFF) as u16 == out && (action >> 16) & 0x1F == deleted && action >> 21 == rank_mod)
            by (bit_vector)
            requires
                action == (out as u32) | (deleted << 16) | ((rank_mod as u32) << 21),
                deleted <= 16,
                rank_mod < 2048,
        ;
    }
    action
}

/// The table of actions for `step`: for each phase, one action for each chunk.
pub fn build_u16_actions(step: u16) -> (actions: Vec<u32>)
    requires
        step <= U16_SCAN_MAX_STEP,
    ensures
        action_table(step as int, actions@),
{
    let step_usize: usize = step as usize;
    let mut actions: Vec<u32> = Vec::with_capacity(step_usize * 65_536);
    let mut phase: u16 = 0;
    while phase < step
        invariant
            phase <= step <= U16_SCAN_MAX_STEP,
            actions@.len() == phase * 65536,
            forall|p: int, c: int|
                0 <= p < phase && 0 <= c < 65536 ==> action_for(
                    step as int,
                    p,
                    c as u16,
                    #[trigger] actions@[p * 65536 + c],
                ),
        decreases step - phase,
    {
        let mut chunk: u32 = 0;
        while chunk < 65536
            invariant
                phase < step <= U16_SCAN_MAX_STEP,
                chunk <= 65536,
                actions@.len() == phase * 65536 + chunk,
                forall|p: int, c: int|
                    0 <= p < phase && 0 <= c < 65536 || p == phase && 0 <= c < chunk ==> action_for(
                        step as int,
                        p,
                        c as u16,
                        #[trigger] actions@[p * 65536 + c],
                    ),
            decreases 65536 - chunk,
        {
            let action: u32 = pack_u16_action(step, phase, chunk as u16);
            let ghost before = actions@;
            actions.push(action);
            proof {
                assert forall|p: int, c: int|
                    0 <= p < phase && 0 <= c < 65536 || p == phase && 0 <= c < chunk + 1 implies action_for(
                    step as int,
                    p,
                    c as u16,
                    #[trigger] actions@[p * 65536 + c],
                ) by {
                    if p == phase && c == chunk {
                    } else {
                        assert(actions@[p * 65536 + c] == before[p * 65536 + c]);
                    }
                }
            }
            chunk = chunk + 1;
        }
        phase = phase + 1;
    }
    actions
}

/// The sixteen flags of a word from bit `16 * k` on are those of its `k`-th chunk.
proof fn lemma_word_chunk(w: u64, k: u64, chunk: u16)
    requires
        k < 4,
        chunk == ((w >> ((16 * k) as u64)) & 0xFFFF) as u16,
    ensures
        word_flags(w).subrange(16 * k, 16 * k + 16) == chunk_flags(chunk),
{
    assert forall|i: int| 0 <= i < 16 implies #[trigger] word_flags(w).subrange(16 * k, 16 * k + 16)[i]
        == chunk_flags(chunk)[i] by {
        let j = i as u16;
        let b = (16 * k + i) as u64;
        assert(((w >> b) & 1 == 1) == ((chunk >> j) & 1 == 1)) by (bit_vector)
            requires
                k < 4,
                j < 16,
                b == 16 * k + j,
                chunk == ((w >> ((16 * k) as u64)) & 0xFFFF) as u16,
        ;
    }
    assert(word_flags(w).subrange(16 * k, 16 * k + 16) =~= chunk_flags(chunk));
}

/// Putting a chunk above the chunks already in a word.
proof fn lemma_put_chunk(w: u64, k: u64, chunk: u16, next: u64)
    requires
        k < 4,
        forall|i: int| 16 * k <= i < 64 ==> !#[trigger] word_flags(w)[i],
        next == w | ((chunk as u64) << ((16 * k) as u64)),
    ensures
        word_flags(next).take(16 * k + 16) == word_flags(w).take(16 * k as int) + chunk_flags(chunk),
        forall|i: int| 16 * k + 16 <= i < 64 ==> !#[trigger] word_flags(next)[i],
{
    assert forall|i: int| 0 <= i < 64 implies #[trigger] word_flags(next)[i] == (word_flags(w)[i] || (16 * k <= i
        < 16 * k + 16 && chunk_flags(chunk)[i - 16 * k])) by {
        let b = i as u64;
        if 16 * k <= i < 16 * k + 16 {
            let j = (i - 16 * k) as u16;
            assert(((next >> b) & 1 == 1) == ((w >> b) & 1 == 1 || (chunk >> j) & 1 == 1)) by (bit_vector)
                requires
                    k < 4,
                    j < 16,
                    b == 16 * k + j,
                    next == w | ((chunk as u64) << ((16 * k) as u64)),
            ;
        } else {
            assert(((next >> b) & 1 == 1) == ((w >> b) & 1 == 1)) by (bit_vector)
                requires
                    k < 4,
                    b < 64,
                    b < 16 * k || b >= 16 * k + 16,
                    next == w | ((chunk as u64) << ((16 * k) as u64)),
            ;
        }
    }
    assert(word_flags(next).take(16 * k + 16) =~= word_flags(w).take(16 * k as int) + chunk_flags(chunk));
}

/// A phase below the step passes at most one multiple of it for each set bit.
proof fn lemma_cleared(phase: int, o: int, step: int)
    requires
        0 <= phase < step,
        o >= 0,
    ensures
        0 <= (phase + o) / step <= o,
        0 <= (phase + o) % step < step,
    decreases o,
{
    if o == 0 {
        crate::lists::lemma_quotient(phase, step, 0, phase);
    } else {
        lemma_cleared(phase, o - 1, step);
        crate::lists::lemma_div_next(phase + o, step);
        vstd::arithmetic::div_mod::lemma_fundamental_div_mod(phase + o, step);
    }
}

/// Deletes every `step`-th set bit of one word by the table, from phase `phase`; hands back the
/// word that is left, the number of deletions and the new phase.
fn scan_word(word: u64, phase: usize, step: u16, actions: &[u32]) -> (r: (u64, u64, usize))
    requires
        1 <= step <= U16_SCAN_MAX_STEP,
        phase < step,
        action_table(step as int, actions@),
    ensures
        word_flags(r.0) == thin(word_flags(word), phase as int, step as int),
        r.1 == (phase + ones(word_flags(word))) / step as int,
        r.2 == (phase + ones(word_flags(word))) % step as int,
        r.1 <= 64,
        r.2 < step,
{
    let mut rank_mod: usize = phase;
    let mut deleted: u64 = 0;
    let mut new_word: u64 = 0;
    let mut chunk_idx: u64 = 0;
    let ghost f = word_flags(word);
    let ghost l = step as int;
    proof {
        assert(f.take(0) =~= Seq::empty());
        assert(thin(f.take(0), phase as int, l) =~= Seq::empty());
        assert(word_flags(0).take(0) =~= Seq::empty());
        crate::lists::lemma_quotient(phase as int, l, 0, phase as int);
        assert forall|i: int| 0 <= i < 64 implies !#[trigger] word_flags(0)[i] by {
            let b = i as u64;
            assert((0u64 >> b) & 1 == 0) by (bit_vector);
        }
    }
    while chunk_idx < 4
        invariant
            chunk_idx <= 4,
            1 <= step <= U16_SCAN_MAX_STEP,
            phase < step,
            action_table(step as int, actions@),
            f == word_flags(word),
            l == step,
            rank_mod < step,
            rank_mod == (phase + ones(f.take(16 * chunk_idx as int))) % l,
            deleted == (phase + ones(f.take(16 * chunk_idx as int))) / l,
            deleted <= 16 * chunk_idx,
            word_flags(new_word).take(16 * chunk_idx as int) == thin(f.take(16 * chunk_idx as int), phase as int, l),
            forall|i: int| 16 * chunk_idx <= i < 64 ==> !#[trigger] word_flags(new_word)[i],
        decreases 4 - chunk_idx,
    {
        let shift: u64 = chunk_idx * 16;
        let chunk: u64 = (word >> shift) & 0xFFFF;
        assert(chunk <= 0xFFFF) by (bit_vector)
            requires
                chunk == (word >> shift) & 0xFFFF,
        ;
        assert(rank_mod * 65536 + chunk < actions@.len());
        let action: u32 = actions[rank_mod * 65_536 + chunk as usize];
        let new_chunk: u32 = action & 0xFFFF;
        let cleared: u32 = (action >> 16) & 0x1F;
        let next_mod: u32 = action >> 21;
        let ghost k = chunk_idx;
        let ghost c = chunk as u16;
        let ghost head = f.take(16 * k as int);
        let ghost part = chunk_flags(c);
        let ghost p = phase + ones(head);
        proof {
            assert(actions@[rank_mod as int * 65536 + chunk as int] == action);
            assert(action_for(l, rank_mod as int, c, action));
            assert(cleared <= 31) by (bit_vector)
                requires
                    cleared == (action >> 16) & 0x1F,
            ;
            assert(new_chunk <= 0xFFFF) by (bit_vector)
                requires
                    new_chunk == action & 0xFFFF,
            ;
            assert(c == ((word >> ((16 * k) as u64)) & 0xFFFF) as u16);
            lemma_word_chunk(word, k, c);
            assert(f.take(16 * k + 16) =~= head + part);
            crate::lists::lemma_positions_concat(head, part);
            crate::lists::lemma_thin_concat(head, part, phase as int, l);
            assert((p % l) % l == p % l) by {
                crate::lists::lemma_quotient(p % l, l, 0, p % l);
            }
            crate::lists::lemma_thin_phase(part, p, rank_mod as int, l);
            lemma_div_split(p, ones(part) as int, l);
            crate::lists::lemma_positions(part);
            lemma_cleared(rank_mod as int, ones(part) as int, l);
            let next = new_word | ((new_chunk as u64) << shift);
            assert(next == new_word | (((new_chunk as u16) as u64) << ((16 * k) as u64)));
            lemma_put_chunk(new_word, k, new_chunk as u16, next);
        }
        deleted = deleted + cleared as u64;
        rank_mod = next_mod as usize;
        new_word = new_word | ((new_chunk as u64) << shift);
        chunk_idx = chunk_idx + 1;
    }
    proof {
        assert(f.take(64) =~= f);
        assert(word_flags(new_word).take(64) =~= word_flags(new_word));
    }
    (new_word, deleted, rank_mod)
}

/// The words of a scan split over `threads` workers: how many each gets.
pub open spec fn chunk_words_for(total_words: int, threads: int) -> int {
    let t = min(max(threads, 1), max(total_words, 1));
    (total_words + t - 1) / t
}

/// Whether `range` starts part `k` of a scan in parts of `chunk` words.
pub open spec fn range_starts(bits: Seq<u64>, chunk: int, step: int, k: int, range: ScanRange) -> bool {
    &&& 0 <= k * chunk < bits.len()
    &&& range.start_rank_mod == prefix_ones(bits, k * chunk) % step
}

/// Whether `ranges` starts every part of a scan in parts of `chunk` words.
pub open spec fn ranges_for(bits: Seq<u64>, chunk: int, step: int, ranges: Seq<ScanRange>) -> bool {
    &&& ranges.len() == (bits.len() + chunk - 1) / chunk
    &&& forall|k: int| 0 <= k < ranges.len() ==> range_starts(bits, chunk, step, k, #[trigger] ranges[k])
}

/// How many words each of `threads` workers gets, the last one perhaps fewer.
pub fn scan_chunk_words(total_words: usize, threads: usize) -> (r: usize)
    ensures
        r == chunk_words_for(total_words as int, threads as int),
        total_words >= 1 ==> 1 <= r <= total_words,
{
    let at_most: usize = if total_words > 1 {
        total_words
    } else {
        1
    };
    let at_least: usize = if threads > 1 {
        threads
    } else {
        1
    };
    let t: usize = if at_least < at_most {
        at_least
    } else {
        at_most
    };
    let whole: usize = total_words / t;
    let rest: usize = total_words % t;
    proof {
        let n = total_words as int;
        let tt = t as int;
        vstd::arithmetic::div_mod::lemma_fundamental_div_mod(n, tt);
        if rest == 0 {
            if tt > 1 {
                crate::lists::lemma_quotient(n + tt - 1, tt, whole as int, tt - 1);
            } else {
                crate::lists::lemma_quotient(n, tt, whole as int, 0);
            }
        } else {
            assert(tt * (whole + 1) == tt * whole + tt) by (nonlinear_arith);
            crate::lists::lemma_quotient(n + tt - 1, tt, whole + 1, rest - 1);
        }
        assert(n >= 1 ==> (whole >= 1 || rest != 0)) by (nonlinear_arith)
            requires
                n == tt * whole + rest,
        ;
        assert(whole <= n && (rest > 0 ==> whole + 1 <= n)) by (nonlinear_arith)
            requires
                n == tt * whole + rest,
                tt >= 1,
                rest < tt,
                whole >= 0,
                tt <= n || (n == 0 && tt == 1),
        ;
    }
    if rest > 0 {
        whole + 1
    } else {
        whole
    }
}

/// Deletes every `step`-th set bit of the words `from .. to`, when the phase before them is
/// `start_rank_mod`. Hands back how many bits it cleared and the phase after them.
fn scan_delete_words(
    bits: &mut [u64],
    from: usize,
    to: usize,
    start_rank_mod: u64,
    step: u16,
    actions: &[u32],
) -> (r: (u64, u64))
    requires
        1 <= step <= U16_SCAN_MAX_STEP,
        start_rank_mod < step,
        action_table(step as int, actions@),
        from <= to <= old(bits)@.len(),
        ones(flags(old(bits)@.subrange(from as int, to as int))) <= u64::MAX,
    ensures
        final(bits)@.len() == old(bits)@.len(),
        forall|i: int|
            0 <= i < from || to <= i < old(bits)@.len() ==> #[trigger] final(bits)@[i] == old(bits)@[i],
        flags(final(bits)@.subrange(from as int, to as int)) == thin(
            flags(old(bits)@.subrange(from as int, to as int)),
            start_rank_mod as int,
            step as int,
        ),
        r.0 == (start_rank_mod + ones(flags(old(bits)@.subrange(from as int, to as int)))) / step as int,
        r.1 == (start_rank_mod + ones(flags(old(bits)@.subrange(from as int, to as int)))) % step as int,
{
    let mut rank_mod: usize = start_rank_mod as usize;
    let mut deleted: u64 = 0;
    let ghost whole = bits@.subrange(from as int, to as int);
    let ghost l = step as int;
    let ghost start = start_rank_mod as int;
    proof {
        assert(flags(bits@.subrange(from as int, from as int)) =~= Seq::empty());
        assert(thin(flags(bits@.subrange(from as int, from as int)), start, l) =~= Seq::empty());
        assert(whole.take(0) =~= bits@.subrange(from as int, from as int));
        crate::lists::lemma_quotient(start, l, 0, start);
        crate::bits::lemma_prefix_monotone(whole, 0, 0);
    }
    let mut i: usize = from;
    while i < to
        invariant
            from <= i <= to <= bits@.len(),
            bits@.len() == old(bits)@.len(),
            1 <= step <= U16_SCAN_MAX_STEP,
            start_rank_mod < step,
            start == start_rank_mod,
            l == step,
            action_table(step as int, actions@),
            whole == old(bits)@.subrange(from as int, to as int),
            ones(flags(whole)) <= u64::MAX,
            rank_mod < step,
            rank_mod == (start + prefix_ones(whole, i - from)) % l,
            deleted == (start + prefix_ones(whole, i - from)) / l,
            forall|j: int|
                0 <= j < from || i <= j < old(bits)@.len() ==> #[trigger] bits@[j] == old(bits)@[j],
            flags(bits@.subrange(from as int, i as int)) == thin(flags(whole.take(i - from)), start, l),
        decreases to - i,
    {
        let old_word: u64 = bits[i];
        let ghost before = bits@;
        let ghost head = flags(whole.take(i - from));
        let ghost part = word_flags(old_word);
        let ghost p = start + ones(head);
        let (new_word, cleared, next_mod) = scan_word(old_word, rank_mod, step, actions);
        proof {
            assert(whole[i - from] == old_word);
            assert(whole.take(i - from + 1) =~= whole.take(i - from).push(old_word));
            crate::bits::lemma_flags_push(whole.take(i - from), old_word);
            crate::bits::lemma_prefix_step(whole, i - from);
            crate::bits::lemma_prefix_monotone(whole, i - from + 1, whole.len() as int);
            crate::lists::lemma_thin_concat(head, part, start, l);
            crate::lists::lemma_quotient(p % l, l, 0, p % l);
            crate::lists::lemma_thin_phase(part, p, rank_mod as int, l);
            lemma_div_split(p, ones(part) as int, l);
            lemma_cleared(start, prefix_ones(whole, i - from + 1), l);
        }
        deleted = deleted + cleared;
        rank_mod = next_mod;
        bits[i] = new_word;
        proof {
            assert(bits@.subrange(from as int, i + 1) =~= before.subrange(from as int, i as int).push(new_word));
            crate::bits::lemma_flags_push(before.subrange(from as int, i as int), new_word);
        }
        i = i + 1;
    }
    proof {
        assert(whole.take(whole.len() as int) =~= whole);
    }
    (deleted, rank_mod as u64)
}

/// Deletes every `step`-th set bit of a run of words by the table of actions, when the phase
/// before the run is `start_rank_mod`. Hands back how many bits it cleared and the phase after
/// the run.
pub fn scan_delete_block_u16(bits: &mut [u64], start_rank_mod: u64, step: u16, actions: &[u32]) -> (r: (u64, u64))
    requires
        1 <= step <= U16_SCAN_MAX_STEP,
        start_rank_mod < step,
        action_table(step as int, actions@),
        ones(flags(old(bits)@)) <= u64::MAX,
    ensures
        final(bits)@.len() == old(bits)@.len(),
        flags(final(bits)@) == thin(flags(old(bits)@), start_rank_mod as int, step as int),
        r.0 == (start_rank_mod + ones(flags(old(bits)@))) / step as int,
        r.1 == (start_rank_mod + ones(flags(old(bits)@))) % step as int,
{
    let len: usize = bits.len();
    let ghost before = bits@;
    proof {
        assert(before.subrange(0, len as int) =~= before);
    }
    let r: (u64, u64) = scan_delete_words(bits, 0, len, start_rank_mod, step, actions);
    proof {
        assert(bits@.subrange(0, len as int) =~= bits@);
    }
    r
}

/// Deletes every `step`-th set bit of a run of words by the table of actions, when the phase
/// before the run is `start_rank_mod`, and says how many bits it cleared.
pub fn scan_delete_range_u16(bits: &mut [u64], start_rank_mod: u64, step: u16, actions: &[u32]) -> (deleted: u64)
    requires
        1 <= step <= U16_SCAN_MAX_STEP,
        start_rank_mod < step,
        action_table(step as int, actions@),
        ones(flags(old(bits)@)) <= u64::MAX,
    ensures
        final(bits)@.len() == old(bits)@.len(),
        flags(final(bits)@) == thin(flags(old(bits)@), start_rank_mod as int, step as int),
        deleted == (start_rank_mod + ones(flags(old(bits)@))) / step as int,
{
    scan_delete_block_u16(bits, start_rank_mod, step, actions).0
}

/// A scan may be cut anywhere: the second part goes on from the phase that the first one ends
/// with, and the deletions of the parts add up.
pub proof fn law_scan_in_parts(a: Seq<u64>, b: Seq<u64>, phase: int, step: int)
    requires
        0 <= phase < step,
    ensures
        ({
            let total = phase + ones(flags(a));
            &&& thin(flags(a + b), phase, step) == thin(flags(a), phase, step) + thin(flags(b), total % step, step)
            &&& (phase + ones(flags(a + b))) / step == total / step + (total % step + ones(flags(b))) / step
            &&& (phase + ones(flags(a + b))) % step == (total % step + ones(flags(b))) % step
        }),
{
    let total = phase + ones(flags(a));
    crate::bits::lemma_flags_concat(a, b);
    crate::lists::lemma_positions_concat(flags(a), flags(b));
    crate::lists::lemma_thin_concat(flags(a), flags(b), phase, step);
    crate::lists::lemma_quotient(total % step, step, 0, total % step);
    crate::lists::lemma_thin_phase(flags(b), total, total % step, step);
    lemma_div_split(total, ones(flags(b)) as int, step);
}

/// Keeps, of each word, the bits of the mask for its index; `start_word` is the index of the
/// first.
pub fn apply_keep_masks(bits: &mut [u64], start_word: usize, keep_masks: [u64; 3])
    requires
        start_word + old(bits)@.len() <= usize::MAX,
    ensures
        final(bits)@.len() == old(bits)@.len(),
        forall|i: int|
            0 <= i < old(bits)@.len() ==> #[trigger] final(bits)@[i] == old(bits)@[i] & keep_masks@[(start_word + i)
                % 3],
{
    let len: usize = bits.len();
    let mut offset: usize = 0;
    while offset < len
        invariant
            offset <= len == bits@.len(),
            bits@.len() == old(bits)@.len(),
            start_word + len <= usize::MAX,
            forall|i: int|
                0 <= i < offset ==> #[trigger] bits@[i] == old(bits)@[i] & keep_masks@[(start_word + i) % 3],
            forall|i: int| offset <= i < len ==> #[trigger] bits@[i] == old(bits)@[i],
        decreases len - offset,
    {
        let mask: u64 = keep_masks[(start_word + offset) % 3];
        bits[offset] = bits[offset] & mask;
        offset = offset + 1;
    }
}

/// Where as many flags hold as there are places below `n`, and none from `n` on, all below hold.
proof fn lemma_full_below(b: Seq<bool>, n: int, i: int)
    requires
        0 <= n <= b.len(),
        ones(b) == n,
        forall|j: int| n <= j < b.len() ==> !#[trigger] b[j],
        0 <= i < n,
    ensures
        b[i],
        ones(b.take(i + 1)) == i + 1,
    decreases b.len(),
{
    let head = b.drop_last();
    crate::lists::lemma_positions(head);
    if n < b.len() {
        assert(!b[b.len() - 1]);
        assert forall|j: int| n <= j < head.len() implies !#[trigger] head[j] by {
            assert(!b[j]);
        }
        lemma_full_below(head, n, i);
        assert(head.take(i + 1) =~= b.take(i + 1));
    } else {
        assert(b.last());
        if i < n - 1 {
            lemma_full_below(head, n - 1, i);
            assert(head.take(i + 1) =~= b.take(i + 1));
        } else {
            assert(b.take(i + 1) =~= b);
        }
    }
}

/// What masking by index keeps of one flag, when each mask keeps what the index is no multiple of
/// three for.
proof fn lemma_masked_bit(words: Seq<u64>, masked: Seq<u64>, masks: Seq<u64>, i: int)
    requires
        masked.len() == words.len(),
        forall|w: int| 0 <= w < words.len() ==> #[trigger] masked[w] == words[w] & masks[w % 3],
        forall|w: int, b: int|
            0 <= w < 3 && 0 <= b < 64 ==> #[trigger] word_bit(masks[w], b) == ((64 * w + b + 1) % 3 != 0),
        0 <= i < 64 * words.len(),
    ensures
        flags(masked)[i] == (flags(words)[i] && (i + 1) % 3 != 0),
{
    let w = words[i / 64];
    let v = masked[i / 64];
    let r = (i / 64) % 3;
    let m = masks[r];
    let j = (i % 64) as u64;
    assert(v == w & m);
    assert(((v >> j) & 1 == 1) == ((w >> j) & 1 == 1 && (m >> j) & 1 == 1)) by (bit_vector)
        requires
            v == w & m,
            j < 64,
    ;
    assert(word_bit(m, i % 64) == ((64 * r + i % 64 + 1) % 3 != 0));
    assert((64 * r + i % 64 + 1) % 3 == (i + 1) % 3);
}

impl LuckySieve {
    /// Bits thinned by `step` are the list with every `step`-th number struck.
    proof fn lemma_thinned(&self, bits: Seq<u64>, step: int)
        requires
            self.shaped(),
            bits.len() == self.bits@.len(),
            flags(bits) == thin(flags(self.bits@), 0, step),
        ensures
            survivors(bits) == strike(self@, step),
            forall|i: int| self.n_odds <= i < 64 * bits.len() ==> !#[trigger] flags(bits)[i],
    {
        let b = flags(self.bits@);
        crate::lists::lemma_thin_strike(b, step);
        crate::lists::lemma_strike_map(positions(b), |i: int| 2 * i + 1, step);
        assert forall|i: int| self.n_odds <= i < 64 * bits.len() implies !#[trigger] flags(bits)[i] by {
            assert(!b[i]);
        }
    }

    /// Where a scan over `threads` parts starts each of them.
    pub fn scan_ranges(&self, threads: usize, step: u64) -> (ranges: Vec<ScanRange>)
        requires
            self.wf(),
            step >= 1,
        ensures
            ranges_for(
                self.bits@,
                chunk_words_for(self.bits@.len() as int, threads as int),
                step as int,
                ranges@,
            ),
    {
        let total_words: usize = self.bits.len();
        let chunk_words: usize = scan_chunk_words(total_words, threads);
        let mut ranges: Vec<ScanRange> = Vec::new();
        let ghost total = total_words as int;
        let ghost chunk = chunk_words as int;
        let mut start_word: usize = 0;
        assert(0 * chunk == 0) by (nonlinear_arith);
        while start_word < total_words
            invariant
                self.wf(),
                step >= 1,
                total_words == self.bits@.len(),
                total == total_words,
                chunk == chunk_words,
                1 <= chunk_words <= total_words,
                start_word == ranges@.len() * chunk,
                start_word < total + chunk,
                forall|k: int| 0 <= k < ranges@.len() ==> range_starts(self.bits@, chunk, step as int, k, #[trigger] ranges@[k]),
            decreases total + chunk - start_word,
        {
            let count: u64 = self.prefix_word_count(start_word);
            let ghost n = ranges@.len() as int;
            ranges.push(ScanRange { start_rank_mod: count % step });
            assert((n + 1) * chunk == n * chunk + chunk) by (nonlinear_arith);
            start_word = start_word + chunk_words;
        }
        proof {
            let n = ranges@.len() as int;
            assert(chunk * n == n * chunk) by (nonlinear_arith);
            crate::lists::lemma_quotient(total + chunk - 1, chunk, n, total + chunk - 1 - n * chunk);
        }
        ranges
    }

    /// Deletes every `step`-th number by a scan over `threads` parts. The tree and the count of
    /// what is left are not touched: `rebuild_tree` and the caller bring them up to date.
    pub fn delete_every_by_u16_scan(&mut self, step: u64, threads: usize) -> (deleted: u64)
        requires
            old(self).wf(),
            1 <= step <= U16_SCAN_MAX_STEP,
        ensures
            final(self).shaped(),
            final(self).n_odds == old(self).n_odds,
            final(self).alive == old(self).alive,
            final(self).tree@ == old(self).tree@,
            final(self)@ == strike(old(self)@, step as int),
            deleted == old(self)@.len() as int / step as int,
    {
        let actions: Vec<u32> = build_u16_actions(step as u16);
        let ranges: Vec<ScanRange> = self.scan_ranges(threads, step);
        let total_words: usize = self.bits.len();
        let chunk_words: usize = scan_chunk_words(total_words, threads);
        let mut deleted: u64 = 0;
        let mut from: usize = 0;
        let mut k: usize = 0;
        let ghost words = self.bits@;
        let ghost l = step as int;
        proof {
            self.lemma_view();
            assert(flags(words.take(0)) =~= Seq::empty());
            assert(thin(flags(words.take(0)), 0, l) =~= Seq::empty());
            crate::lists::lemma_quotient(0, l, 0, 0);
            crate::bits::lemma_prefix_monotone(words, 0, 0);
            Self::lemma_range_count(total_words as int, chunk_words as int, ranges@.len() as int);
        }
        while k < ranges.len()
            invariant
                1 <= step <= U16_SCAN_MAX_STEP,
                l == step,
                action_table(l, actions@),
                self.bits@.len() == words.len() == total_words,
                self.n_odds == old(self).n_odds,
                self.alive == old(self).alive,
                self.tree@ == old(self).tree@,
                words == old(self).bits@,
                ones(flags(words)) <= u64::MAX,
                1 <= chunk_words <= total_words,
                8 * total_words <= isize::MAX,
                k <= ranges@.len(),
                ranges_for(words, chunk_words as int, l, ranges@),
                ranges@.len() * chunk_words >= total_words,
                from == if k * chunk_words < total_words {
                    k * chunk_words
                } else {
                    total_words as int
                },
                flags(self.bits@.take(from as int)) == thin(flags(words.take(from as int)), 0, l),
                forall|i: int| from <= i < total_words ==> #[trigger] self.bits@[i] == words[i],
                deleted == prefix_ones(words, from as int) / l,
            decreases ranges@.len() - k,
        {
            let to: usize = if total_words - from > chunk_words {
                from + chunk_words
            } else {
                total_words
            };
            let ghost before = self.bits@;
            let ghost part = words.subrange(from as int, to as int);
            let ghost p = prefix_ones(words, from as int);
            proof {
                assert(range_starts(words, chunk_words as int, l, k as int, ranges@[k as int]));
                vstd::arithmetic::div_mod::lemma_fundamental_div_mod(p, l);
                assert(words.take(to as int) =~= words.take(from as int) + part);
                assert(before.subrange(from as int, to as int) =~= part);
                crate::bits::lemma_flags_concat(words.take(from as int), part);
                crate::lists::lemma_positions_concat(flags(words.take(from as int)), flags(part));
                crate::bits::lemma_prefix_monotone(words, to as int, words.len() as int);
                crate::bits::lemma_prefix_monotone(words, 0, from as int);
                crate::lists::lemma_thin_concat(flags(words.take(from as int)), flags(part), 0, l);
                crate::lists::lemma_quotient(p % l, l, 0, p % l);
                crate::lists::lemma_thin_phase(flags(part), p, p % l, l);
                lemma_div_split(p, ones(flags(part)) as int, l);
                lemma_cleared(0, prefix_ones(words, to as int), l);
                assert((k + 1) * chunk_words == k * chunk_words + chunk_words) by (nonlinear_arith);
            }
            let (cleared, _phase) = scan_delete_words(
                self.bits.as_mut_slice(),
                from,
                to,
                ranges[k].start_rank_mod,
                step as u16,
                actions.as_slice(),
            );
            proof {
                assert(self.bits@.take(from as int) =~= before.take(from as int));
                assert(self.bits@.take(to as int) =~= self.bits@.take(from as int) + self.bits@.subrange(
                    from as int,
                    to as int,
                ));
                crate::bits::lemma_flags_concat(
                    self.bits@.take(from as int),
                    self.bits@.subrange(from as int, to as int),
                );
            }
            deleted = deleted + cleared;
            from = to;
            k = k + 1;
        }
        proof {
            assert(self.bits@.take(total_words as int) =~= self.bits@);
            assert(words.take(total_words as int) =~= words);
            old(self).lemma_thinned(self.bits@, l);
        }
        deleted
    }

    /// As many ranges as it takes cover all words.
    proof fn lemma_range_count(total: int, chunk: int, n: int)
        requires
            total >= 1,
            chunk >= 1,
            n == (total + chunk - 1) / chunk,
        ensures
            n * chunk >= total,
    {
        vstd::arithmetic::div_mod::lemma_fundamental_div_mod(total + chunk - 1, chunk);
        assert(chunk * n == n * chunk) by (nonlinear_arith);
    }

    /// Deletes every third number of a fresh sieve by masks. The tree and the count of what is
    /// left are not touched.
    pub fn delete_initial_every_three(&mut self) -> (deleted: u64)
        requires
            old(self).wf(),
            old(self).alive == old(self).n_odds,
        ensures
            final(self).shaped(),
            final(self).n_odds == old(self).n_odds,
            final(self).alive == old(self).alive,
            final(self).tree@ == old(self).tree@,
            final(self)@ == strike(old(self)@, 3),
            deleted == old(self)@.len() as int / 3,
    {
        let keep_masks: [u64; 3] = initial_keep_masks_for_three();
        let deleted: u64 = self.n_odds / 3;
        let ghost words = self.bits@;
        apply_keep_masks(self.bits.as_mut_slice(), 0, keep_masks);
        proof {
            let b = flags(words);
            let after = flags(self.bits@);
            old(self).lemma_view();
            assert forall|i: int| 0 <= i < b.len() implies after[i] == #[trigger] thin(b, 0, 3)[i] by {
                lemma_masked_bit(words, self.bits@, keep_masks@, i);
                if b[i] {
                    assert(i < old(self).n_odds);
                    lemma_full_below(b, old(self).n_odds as int, i);
                }
            }
            assert(after =~= thin(b, 0, 3));
            old(self).lemma_thinned(self.bits@, 3);
        }
        deleted
    }

    /// Whether a scan is the better way to delete every `step`-th number.
    pub open spec fn scan_pays(&self, step: int, deletions: int, scan_threshold: int) -> bool {
        let words = self.bits@.len() as int;
        let divisor = if words >= SCAN_LARGE_WORDS {
            SCAN_LARGE_DELETION_WORD_DIVISOR as int
        } else {
            SCAN_SMALL_DELETION_WORD_DIVISOR as int
        };
        &&& step <= scan_threshold
        &&& step <= U16_SCAN_MAX_STEP
        &&& words >= SCAN_MIN_WORDS
        &&& deletions >= words / divisor
        &&& deletions >= 1
    }

    /// Whether deleting every `step`-th number, `deletions` in all, is done by a scan.
    pub fn should_scan_delete(&self, step: u64, deletions: u64, scan_threshold: u64) -> (r: bool)
        ensures
            r == self.scan_pays(step as int, deletions as int, scan_threshold as int),
    {
        if step > scan_threshold || step > U16_SCAN_MAX_STEP {
            return false;
        }
        let words: u64 = self.bits.len() as u64;
        if words < SCAN_MIN_WORDS {
            return false;
        }
        let share: u64 = words / self.scan_deletion_word_divisor();
        let min_deletions: u64 = if share > 1 {
            share
        } else {
            1
        };
        deletions >= min_deletions
    }

    /// How many words per deletion make a scan pay, by the size of the sieve.
    pub fn scan_deletion_word_divisor(&self) -> (r: u64)
        ensures
            r == if self.bits@.len() >= SCAN_LARGE_WORDS {
                SCAN_LARGE_DELETION_WORD_DIVISOR
            } else {
                SCAN_SMALL_DELETION_WORD_DIVISOR
            },
    {
        if self.bits.len() as u64 >= SCAN_LARGE_WORDS {
            SCAN_LARGE_DELETION_WORD_DIVISOR
        } else {
            SCAN_SMALL_DELETION_WORD_DIVISOR
        }
    }

    /// Takes over the result of a scan that deleted `deleted` numbers: the count of what is left
    /// and the tree.
    pub fn finish_scan(&mut self, deleted: u64)
        requires
            old(self).shaped(),
            old(self).alive >= deleted,
            old(self)@.len() == old(self).alive - deleted,
        ensures
            final(self).wf(),
            final(self).bits@ == old(self).bits@,
            final(self).n_odds == old(self).n_odds,
    {
        self.alive = self.alive - deleted;
        self.rebuild_tree();
    }

    /// Strikes every number whose place is a multiple of `step` by a scan over all words.
    pub fn delete_every_by_scan(&mut self, step: u64, expected_deletions: u64, threads: usize) -> (deleted: u64)
        requires
            old(self).wf(),
            1 <= step <= U16_SCAN_MAX_STEP,
            expected_deletions == old(self).alive as int / step as int,
        ensures
            final(self).wf(),
            final(self).n_odds == old(self).n_odds,
            final(self)@ == strike(old(self)@, step as int),
            deleted == expected_deletions,
            final(self).alive == old(self).alive - deleted,
    {
        let deleted: u64 = if step == 3 && self.alive == self.n_odds {
            self.delete_initial_every_three()
        } else {
            self.delete_every_by_u16_scan(step, threads)
        };
        proof {
            crate::lists::lemma_strike_len(old(self)@, step as int);
            lemma_cleared(0, old(self).alive as int, step as int);
        }
        self.finish_scan(deleted);
        deleted
    }

    /// Strikes every number whose place is a multiple of `step`, by a scan where that pays and
    /// one by one elsewhere.
    pub fn delete_every_with_scan(&mut self, step: u64, threads: usize, scan_threshold: u64) -> (deleted: u64)
        requires
            old(self).wf(),
            step >= 1,
        ensures
            final(self).wf(),
            final(self).n_odds == old(self).n_odds,
            final(self)@ == strike(old(self)@, step as int),
            deleted == old(self)@.len() as int / step as int,
            final(self).alive == old(self).alive - deleted,
    {
        let deletions: u64 = self.alive / step;
        if self.should_scan_delete(step, deletions, scan_threshold) {
            return self.delete_every_by_scan(step, deletions, threads);
        }
        self.delete_every(step)
    }
}

} // verus!
