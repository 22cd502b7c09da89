//! The sieve over odd numbers: a bitset of what is left, and a tree of counts to find and clear
//! the number at any place.
use crate::bits::{flags, highest_power_of_two_at_most, low, lowbit, popcount, prefix_ones, select_in_word};
use crate::fenwick::{covers, node_ones, tree_built_to, tree_counts};
use crate::lists::{ascending, ones, positions, strike};
use crate::lucky::odds;
use std::collections::TryReserveError;
use vstd::prelude::*;

verus! {

/// Why a sieve could not be made.
#[derive(Debug)]
pub enum SieveError {
    /// The sieve would hold no odd number.
    EmptySieve,
    /// The number of words does not fit `usize` on this target.
    TooManyWords { needed: u64 },
    /// The bitset could not be allocated.
    Bitset { words: usize, cause: TryReserveError },
    /// The tree of counts could not be allocated.
    Tree { words: usize, cause: TryReserveError },
}

/// The odd numbers up to `2 * n_odds - 1` that have not been struck.
pub struct LuckySieve {
    /// Bit `i` stands for the odd number `2 * i + 1`.
    pub bits: Vec<u64>,
    /// The tree of counts over the words of `bits`.
    pub tree: Vec<u64>,
    /// How many odd numbers the sieve started from.
    pub n_odds: u64,
    /// How many of them are left.
    pub alive: u64,
}

/// The odd numbers whose bits are set, in ascending order.
pub open spec fn survivors(bits: Seq<u64>) -> Seq<int> {
    positions(flags(bits)).map_values(|i: int| 2 * i + 1)
}

impl View for LuckySieve {
    type V = Seq<int>;

    /// The odd numbers that are left, in ascending order.
    open spec fn view(&self) -> Seq<int> {
        survivors(self.bits@)
    }
}

/// A request for room that was not met.
#[derive(Debug)]
pub struct Refusal {
    /// How many words were asked for.
    pub words: usize,
    pub cause: TryReserveError,
}

/// Asks for room for `additional` more words with `Vec::try_reserve_exact`. The call leaves the
/// contents alone; where it succeeds, the room asked for is within the largest allocation that
/// a vector may have; where it fails, the refusal says how much was asked for. Whether a request
/// within that limit succeeds is up to the allocator.
#[verifier::external_body]
fn reserve_words(words: &mut Vec<u64>, additional: usize) -> (r: Result<(), Refusal>)
    ensures
        final(words)@ == old(words)@,
        r is Ok ==> 8 * (old(words)@.len() + additional) <= isize::MAX,
        r matches Err(refusal) ==> refusal.words == additional,
{
    match words.try_reserve_exact(additional) {
        Ok(()) => Ok(()),
        Err(cause) => Err(Refusal { words: additional, cause }),
    }
}

/// Whether `r` is what came of one request to the allocator for exactly `words` words.
pub closed spec fn answered(words: usize, r: Result<Vec<u64>, Refusal>) -> bool {
    exists|v: &mut Vec<u64>, answer: Result<(), Refusal>| #[trigger]
        call_ensures(reserve_words, (v, words), answer) && match answer {
            Ok(_) => r is Ok,
            Err(refusal) => r == Err::<Vec<u64>, Refusal>(refusal),
        }
}

/// An answer is one to a request for as many words as it is the answer for.
proof fn lemma_answered(words: usize, r: Result<Vec<u64>, Refusal>)
    requires
        answered(words, r),
    ensures
        exists|v: &mut Vec<u64>, answer: Result<(), Refusal>| #[trigger]
            call_ensures(reserve_words, (v, words), answer) && (answer is Ok <==> r is Ok) && (
            answer matches Err(refusal) ==> r == Err::<Vec<u64>, Refusal>(refusal)),
        r matches Err(refusal) ==> refusal.words == words,
{
}

/// An empty vector with room for `words` words, where the allocator gives it.
fn room_for(words: usize) -> (r: Result<Vec<u64>, Refusal>)
    ensures
        answered(words, r),
        r matches Ok(room) ==> room@.len() == 0 && 8 * words <= isize::MAX,
        r matches Err(refusal) ==> refusal.words == words,
{
    let mut room: Vec<u64> = Vec::new();
    match reserve_words(&mut room, words) {
        Ok(_) => Ok(room),
        Err(refusal) => Err(refusal),
    }
}

/// How many words hold `n_odds` bits.
pub open spec fn words_for(n_odds: int) -> int {
    (n_odds + 63) / 64
}

/// Whether `error` is why a sieve of `n_odds` odd numbers could not be made.
pub open spec fn failure_of(error: SieveError, n_odds: int) -> bool {
    match error {
        SieveError::EmptySieve => n_odds == 0,
        SieveError::TooManyWords { needed } => needed == words_for(n_odds) && needed > usize::MAX,
        SieveError::Bitset { words, .. } => words == words_for(n_odds),
        SieveError::Tree { words, .. } => words == words_for(n_odds) + 1,
    }
}

/// Whether `bits` and `tree` are the allocator's answers to the two requests that a sieve of
/// `n_odds` odd numbers takes; the second is made only where the first is met.
pub open spec fn asked_for(
    n_odds: u64,
    bits: Result<Vec<u64>, Refusal>,
    tree: Result<Vec<u64>, Refusal>,
) -> bool {
    &&& answered(words_for(n_odds as int) as usize, bits)
    &&& bits is Ok ==> answered((words_for(n_odds as int) + 1) as usize, tree)
}

/// A sieve of at least one odd number whose words can be counted is refused only where the
/// allocator refuses a request: one for as few words as hold a bit for each number, or, where
/// that is met, one for a word more. The error has the size and the cause of that very request.
/// Where both requests are met there is a sieve of all the numbers.
pub proof fn law_refused_by_the_allocator_alone(n_odds: u64, r: Result<LuckySieve, SieveError>)
    requires
        n_odds >= 1,
        n_odds <= 64 * usize::MAX,
        call_ensures(LuckySieve::new, (n_odds,), r),
    ensures
        match r {
            Ok(sieve) => {
                &&& sieve.wf()
                &&& sieve.alive == n_odds
                &&& sieve@.len() == n_odds
                &&& forall|i: int| 0 <= i < n_odds ==> #[trigger] sieve@[i] == 2 * i + 1
            },
            Err(SieveError::Bitset { words, cause }) => {
                &&& 64 * (words - 1) < n_odds <= 64 * words
                &&& answered(words, Err(Refusal { words, cause }))
            },
            Err(SieveError::Tree { words, cause }) => {
                &&& 64 * (words - 2) < n_odds <= 64 * (words - 1)
                &&& answered(words, Err(Refusal { words, cause }))
                &&& exists|room: Vec<u64>| #[trigger] answered((words - 1) as usize, Ok(room))
            },
            Err(_) => false,
        },
{
    let (bits, tree) = choose|bits: Result<Vec<u64>, Refusal>, tree: Result<Vec<u64>, Refusal>| #[trigger]
        asked_for(n_odds, bits, tree) && match (bits, tree) {
            (Err(refusal), _) => r == Err::<LuckySieve, SieveError>(
                SieveError::Bitset { words: refusal.words, cause: refusal.cause },
            ),
            (Ok(_), Err(refusal)) => r == Err::<LuckySieve, SieveError>(
                SieveError::Tree { words: refusal.words, cause: refusal.cause },
            ),
            (Ok(_), Ok(_)) => r is Ok,
        };
    match (bits, tree) {
        (Err(refusal), _) => {
            assert(refusal == Refusal { words: refusal.words, cause: refusal.cause });
        },
        (Ok(room), Err(refusal)) => {
            assert(answered((refusal.words - 1) as usize, Ok(room)));
            assert(refusal == Refusal { words: refusal.words, cause: refusal.cause });
        },
        _ => {},
    }
}

/// Flags that hold exactly below `n` list the indices below `n`.
proof fn lemma_positions_below(b: Seq<bool>, n: int)
    requires
        0 <= n <= b.len(),
        forall|i: int| 0 <= i < b.len() ==> #[trigger] b[i] == (i < n),
    ensures
        positions(b) == Seq::new(n as nat, |i: int| i),
    decreases b.len(),
{
    if b.len() > 0 {
        let head = b.drop_last();
        assert forall|i: int| 0 <= i < head.len() implies #[trigger] head[i] == (i < n) by {
            assert(b[i] == (i < n));
        }
        if n == b.len() {
            lemma_positions_below(head, n - 1);
        } else {
            lemma_positions_below(head, n);
        }
        assert(b.last() == (b.len() - 1 < n));
    }
    assert(positions(b) =~= Seq::new(n as nat, |i: int| i));
}

/// Where no flag from `n` on holds, at most `n` flags hold.
proof fn lemma_ones_below(b: Seq<bool>, n: int)
    requires
        0 <= n <= b.len(),
        forall|i: int| n <= i < b.len() ==> !#[trigger] b[i],
    ensures
        ones(b) <= n,
    decreases b.len(),
{
    if n < b.len() {
        assert(!b[b.len() - 1]);
        assert forall|i: int| n <= i < b.drop_last().len() implies !#[trigger] b.drop_last()[i] by {
            assert(!b[i]);
        }
        lemma_ones_below(b.drop_last(), n);
    } else {
        crate::lists::lemma_positions(b);
    }
}

impl LuckySieve {
    /// Whether the parts have the sizes that `n_odds` calls for and no bit past it is set.
    pub open spec fn shaped(&self) -> bool {
        &&& self.n_odds >= 1
        &&& self.bits@.len() == words_for(self.n_odds as int)
        &&& self.tree@.len() == self.bits@.len() + 1
        &&& 8 * self.bits@.len() <= isize::MAX
        &&& forall|i: int| self.n_odds <= i < 64 * self.bits@.len() ==> !#[trigger] flags(self.bits@)[i]
    }

    /// Whether the sieve is consistent: its counts are those of its bits.
    pub open spec fn wf(&self) -> bool {
        &&& self.shaped()
        &&& self.alive == self@.len()
        &&& tree_counts(self.bits@, self.tree@)
    }

    /// What a consistent sieve holds: an ascending list of odd numbers in range.
    pub proof fn lemma_view(&self)
        requires
            self.shaped(),
        ensures
            ascending(self@),
            self@.len() <= self.n_odds,
            self@.len() == ones(flags(self.bits@)),
            self@.len() == prefix_ones(self.bits@, self.bits@.len() as int),
            forall|i: int|
                0 <= i < self@.len() ==> 1 <= #[trigger] self@[i] <= 2 * self.n_odds - 1 && self@[i] % 2 == 1,
    {
        let b = flags(self.bits@);
        crate::lists::lemma_positions(b);
        lemma_ones_below(b, self.n_odds as int);
        crate::bits::lemma_prefix_monotone(self.bits@, 0, 0);
        assert forall|i: int| 0 <= i < self@.len() implies 1 <= #[trigger] self@[i] <= 2 * self.n_odds - 1
            && self@[i] % 2 == 1 by {
            assert(b[positions(b)[i]]);
        }
    }

    /// A sieve of the first `n_odds` odd numbers, none of them struck.
    pub fn new(n_odds: u64) -> (r: Result<Self, SieveError>)
        ensures
            n_odds == 0 <==> r is Err && r->Err_0 is EmptySieve,
            match r {
                Ok(sieve) => {
                    &&& sieve.wf()
                    &&& sieve.n_odds == n_odds
                    &&& sieve@ == odds(n_odds as nat)
                },
                Err(error) => failure_of(error, n_odds as int),
            },
            n_odds > 0 && words_for(n_odds as int) > usize::MAX ==> r is Err && r->Err_0 is TooManyWords,
            n_odds > 0 && words_for(n_odds as int) <= usize::MAX ==> exists|
                bits: Result<Vec<u64>, Refusal>,
                tree: Result<Vec<u64>, Refusal>,
            | #[trigger]
                asked_for(n_odds, bits, tree) && match (bits, tree) {
                    (Err(refusal), _) => r == Err::<Self, SieveError>(
                        SieveError::Bitset { words: refusal.words, cause: refusal.cause },
                    ),
                    (Ok(_), Err(refusal)) => r == Err::<Self, SieveError>(
                        SieveError::Tree { words: refusal.words, cause: refusal.cause },
                    ),
                    (Ok(_), Ok(_)) => r is Ok,
                },
    {
        if n_odds == 0 {
            return Err(SieveError::EmptySieve);
        }
        let wide_words: u64 = (n_odds - 1) / 64 + 1;
        if wide_words > usize::MAX as u64 {
            return Err(SieveError::TooManyWords { needed: wide_words });
        }
        let words: usize = wide_words as usize;
        let bits: Result<Vec<u64>, Refusal> = room_for(words);
        let tree: Result<Vec<u64>, Refusal> = match bits {
            Ok(_) => room_for(words + 1),
            Err(_) => Ok(Vec::new()),
        };
        assert(asked_for(n_odds, bits, tree));
        Self::in_room(n_odds, bits, tree)
    }

    /// A sieve of the first `n_odds` odd numbers in the room that the allocator gave for the
    /// bitset and for the tree, where it gave both.
    pub fn in_room(
        n_odds: u64,
        bits: Result<Vec<u64>, Refusal>,
        tree: Result<Vec<u64>, Refusal>,
    ) -> (r: Result<Self, SieveError>)
        requires
            n_odds >= 1,
            words_for(n_odds as int) <= usize::MAX,
            bits is Ok ==> bits->Ok_0@.len() == 0 && words_for(n_odds as int) < usize::MAX,
            bits is Ok && tree is Ok ==> tree->Ok_0@.len() == 0 && 8 * (words_for(n_odds as int) + 1) <= isize::MAX,
        ensures
            match (bits, tree) {
                (Err(refusal), _) => r == Err::<Self, SieveError>(
                    SieveError::Bitset { words: refusal.words, cause: refusal.cause },
                ),
                (Ok(_), Err(refusal)) => r == Err::<Self, SieveError>(
                    SieveError::Tree { words: refusal.words, cause: refusal.cause },
                ),
                (Ok(_), Ok(_)) => {
                    &&& r is Ok
                    &&& r->Ok_0.wf()
                    &&& r->Ok_0.n_odds == n_odds
                    &&& r->Ok_0@ == odds(n_odds as nat)
                },
            },
    {
        let words: usize = ((n_odds - 1) / 64 + 1) as usize;
        let mut bits: Vec<u64> = match bits {
            Ok(bits) => bits,
            Err(refusal) => {
                return Err(SieveError::Bitset { words: refusal.words, cause: refusal.cause });
            },
        };
        let mut tree: Vec<u64> = match tree {
            Ok(tree) => tree,
            Err(refusal) => {
                return Err(SieveError::Tree { words: refusal.words, cause: refusal.cause });
            },
        };
        bits.resize(words, !0u64);
        let used_bits_in_last: u64 = (n_odds - 1) % 64 + 1;
        if used_bits_in_last < 64 {
            proof {
                assert(1u64 << used_bits_in_last >= 1) by (bit_vector)
                    requires
                        used_bits_in_last < 64,
                ;
            }
            let mask: u64 = (1u64 << used_bits_in_last) - 1;
            let last: usize = bits.len() - 1;
            bits[last] = mask;
        }
        proof {
            Self::lemma_fresh_flags(bits@, n_odds, used_bits_in_last);
        }
        tree.resize(words + 1, 0);

        let mut sieve = LuckySieve { bits, tree, n_odds, alive: n_odds };
        sieve.rebuild_tree();
        proof {
            lemma_positions_below(flags(sieve.bits@), n_odds as int);
            assert(sieve@ =~= odds(n_odds as nat));
        }
        Ok(sieve)
    }

    /// The flags of a fresh bitset hold exactly below `n_odds`.
    proof fn lemma_fresh_flags(bits: Seq<u64>, n_odds: u64, used: u64)
        requires
            n_odds >= 1,
            bits.len() == words_for(n_odds as int),
            used == (n_odds - 1) % 64 + 1,
            forall|w: int| 0 <= w < bits.len() - 1 ==> #[trigger] bits[w] == !0u64,
            used == 64 ==> bits[bits.len() - 1] == !0u64,
            used < 64 ==> bits[bits.len() - 1] == (1u64 << used) - 1,
        ensures
            forall|i: int| 0 <= i < 64 * bits.len() ==> #[trigger] flags(bits)[i] == (i < n_odds),
    {
        assert forall|i: int| 0 <= i < 64 * bits.len() implies #[trigger] flags(bits)[i] == (i < n_odds) by {
            let j = (i % 64) as u64;
            let w = bits[i / 64];
            if w == !0u64 {
                assert((w >> j) & 1 == 1) by (bit_vector)
                    requires
                        w == !0u64,
                        j < 64,
                ;
            }
            if i / 64 == bits.len() - 1 && used < 64 {
                assert(((w >> j) & 1 == 1) == (j < used)) by (bit_vector)
                    requires
                        w == (1u64 << used) - 1,
                        used < 64,
                        j < 64,
                ;
            }
        }
    }

    /// The largest number that the sieve can hold, or the largest `u64` less one where the
    /// doubling leaves `u64`.
    pub fn value_limit(&self) -> (r: u64)
        ensures
            2 * self.n_odds <= u64::MAX ==> r == if self.n_odds == 0 {
                0int
            } else {
                2 * self.n_odds - 1
            },
            2 * self.n_odds > u64::MAX ==> r == u64::MAX - 1,
    {
        let doubled: u64 = match self.n_odds.checked_mul(2) {
            Some(v) => v,
            None => u64::MAX,
        };
        doubled.saturating_sub(1)
    }

    /// The bytes that the bitset and the tree take.
    pub fn memory_bytes(&self) -> (r: u128)
        ensures
            r == 8 * (self.bits@.len() + self.tree@.len()),
    {
        ((self.bits.len() as u128) + (self.tree.len() as u128)) * 8
    }

    /// Fills the nodes of words `from .. to` with the counts of those words alone.
    pub fn rebuild_counts(&mut self, from: usize, to: usize)
        requires
            old(self).shaped(),
            from <= to <= old(self).bits@.len(),
        ensures
            final(self).bits@ == old(self).bits@,
            final(self).n_odds == old(self).n_odds,
            final(self).alive == old(self).alive,
            final(self).tree@.len() == old(self).tree@.len(),
            final(self).tree@[0] == 0,
            forall|j: int| from < j <= to ==> #[trigger] final(self).tree@[j] == popcount(final(self).bits@[j - 1]),
            forall|j: int|
                (1 <= j <= from || to < j < final(self).tree@.len()) ==> #[trigger] final(self).tree@[j] == old(
                    self,
                ).tree@[j],
    {
        self.tree[0] = 0;
        let mut i: usize = from;
        while i < to
            invariant
                from <= i <= to <= self.bits@.len(),
                self.bits@ == old(self).bits@,
                self.n_odds == old(self).n_odds,
                self.alive == old(self).alive,
                self.tree@.len() == old(self).tree@.len(),
                self.tree@.len() == self.bits@.len() + 1,
                self.tree@[0] == 0,
                forall|j: int| from < j <= i ==> #[trigger] self.tree@[j] == popcount(self.bits@[j - 1]),
                forall|j: int|
                    (1 <= j <= from || i < j < self.tree@.len()) ==> #[trigger] self.tree@[j] == old(self).tree@[j],
            decreases to - i,
        {
            let count: u32 = self.bits[i].count_ones();
            self.tree[i + 1] = count as u64;
            i = i + 1;
        }
    }

    /// Lets the nodes `from .. to` hand their counts up, in ascending order.
    pub fn rebuild_sums(&mut self, from: usize, to: usize)
        requires
            old(self).shaped(),
            1 <= from <= to <= old(self).bits@.len() + 1,
            tree_built_to(old(self).bits@, old(self).tree@, from as int),
        ensures
            final(self).bits@ == old(self).bits@,
            final(self).n_odds == old(self).n_odds,
            final(self).alive == old(self).alive,
            tree_built_to(final(self).bits@, final(self).tree@, to as int),
    {
        let words: usize = self.bits.len();
        let mut i: usize = from;
        proof {
            self.lemma_view();
        }
        while i < to
            invariant
                1 <= from <= i <= to <= words + 1,
                words == self.bits@.len(),
                8 * words <= isize::MAX,
                prefix_ones(self.bits@, words as int) <= u64::MAX,
                self.bits@ == old(self).bits@,
                self.n_odds == old(self).n_odds,
                self.alive == old(self).alive,
                tree_built_to(self.bits@, self.tree@, i as int),
            decreases to - i,
        {
            let ghost before = self.tree@;
            let parent: usize = i + lowbit(i);
            if parent <= words {
                proof {
                    crate::fenwick::lemma_built_range(self.bits@, self.tree@, i);
                }
                self.tree[parent] = self.tree[parent] + self.tree[i];
            }
            proof {
                crate::fenwick::lemma_hand_up(self.bits@, before, self.tree@, i);
            }
            i = i + 1;
        }
    }

    /// Makes the tree count the bits as they are.
    pub fn rebuild_tree(&mut self)
        requires
            old(self).shaped(),
        ensures
            final(self).shaped(),
            final(self).bits@ == old(self).bits@,
            final(self).n_odds == old(self).n_odds,
            final(self).alive == old(self).alive,
            tree_counts(final(self).bits@, final(self).tree@),
    {
        let words: usize = self.bits.len();
        self.rebuild_counts(0, words);
        self.rebuild_sums(1, words + 1);
        proof {
            crate::fenwick::lemma_tree_complete(self.bits@, self.tree@);
        }
    }

    /// How many numbers are left in the first `words` words.
    pub fn prefix_word_count(&self, words: usize) -> (sum: u64)
        requires
            self.wf(),
            words <= self.bits@.len(),
        ensures
            sum == prefix_ones(self.bits@, words as int),
            sum <= self.alive,
    {
        proof {
            self.lemma_view();
            crate::bits::lemma_prefix_monotone(self.bits@, words as int, self.bits@.len() as int);
        }
        let mut i: usize = words;
        let mut sum: u64 = 0;
        while i > 0
            invariant
                self.wf(),
                i <= words <= self.bits@.len(),
                sum + prefix_ones(self.bits@, i as int) == prefix_ones(self.bits@, words as int),
                prefix_ones(self.bits@, words as int) <= u64::MAX,
            decreases i,
        {
            proof {
                crate::bits::lemma_low_range(i);
                crate::bits::lemma_prefix_monotone(self.bits@, 0, i - low(i));
                assert(self.tree@[i as int] == node_ones(self.bits@, i as int));
            }
            sum = sum + self.tree[i];
            i = i - lowbit(i);
        }
        proof {
            crate::bits::lemma_prefix_monotone(self.bits@, 0, 0);
        }
        sum
    }

    /// The one-based index, among all odd numbers, of the number at place `rank`.
    pub fn select(&self, rank: u64) -> (r: Option<u64>)
        requires
            self.wf(),
        ensures
            r is Some <==> 1 <= rank <= self@.len(),
            r matches Some(odd_index) ==> 1 <= odd_index <= self.n_odds && 2 * odd_index - 1 == self@[rank - 1],
    {
        if rank == 0 || rank > self.alive {
            return None;
        }
        let words: usize = self.bits.len();
        let mut idx: usize = 0;
        let mut bit: usize = highest_power_of_two_at_most(words);
        let mut remaining: u64 = rank;
        proof {
            self.lemma_view();
            let start = bit;
            assert(0usize & (start | (start - 1) as usize) == 0) by (bit_vector);
            crate::bits::lemma_prefix_monotone(self.bits@, 0, 0);
        }
        while bit != 0
            invariant
                self.wf(),
                words == self.bits@.len(),
                8 * words <= isize::MAX,
                bit <= words,
                idx <= words,
                bit > 0 ==> low(bit) == bit && idx & (bit | (bit - 1) as usize) == 0,
                1 <= remaining <= rank,
                prefix_ones(self.bits@, idx as int) + remaining == rank,
                bit > 0 ==> idx + 2 * bit > words || rank <= prefix_ones(self.bits@, idx + 2 * bit),
                bit == 0 ==> idx + 1 > words || rank <= prefix_ones(self.bits@, idx + 1),
                rank <= prefix_ones(self.bits@, words as int),
            decreases bit,
        {
            let ghost start = idx;
            let next: usize = idx + bit;
            proof {
                crate::fenwick::lemma_descent_node(idx, bit);
                crate::fenwick::lemma_descent_halve(idx, bit);
                if next <= words {
                    assert(self.tree@[next as int] == node_ones(self.bits@, next as int));
                }
            }
            if next <= words && self.tree[next] < remaining {
                idx = next;
                remaining = remaining - self.tree[next];
            }
            bit = bit >> 1;
        }
        proof {
            if idx == words {
                assert(false);
            }
            crate::bits::lemma_prefix_step(self.bits@, idx as int);
        }
        let word_idx: usize = idx;
        let bit_idx: u32 = select_in_word(self.bits[word_idx], remaining as u32);
        proof {
            let b = flags(self.bits@);
            let p = 64 * word_idx + bit_idx;
            crate::bits::lemma_flags_take(self.bits@, word_idx as int, bit_idx as int);
            crate::lists::lemma_position_of(b, p);
            assert(positions(b)[rank - 1] == p);
            assert(p < self.n_odds);
        }
        Some((word_idx as u64) * 64 + (bit_idx as u64) + 1)
    }

    /// Strikes the number with one-based odd index `odd_index`, if it is still there.
    pub fn clear(&mut self, odd_index: u64)
        requires
            old(self).wf(),
            1 <= odd_index <= old(self).n_odds,
        ensures
            final(self).wf(),
            final(self).n_odds == old(self).n_odds,
            final(self)@ == old(self)@.remove_value(2 * odd_index - 1),
    {
        let zero_based: u64 = odd_index - 1;
        let word_idx: usize = (zero_based / 64) as usize;
        let bit_idx: u64 = zero_based % 64;
        let mask: u64 = 1u64 << bit_idx;
        let ghost bits = self.bits@;
        let ghost p = zero_based as int;
        let ghost k = ones(flags(bits).take(p)) as int;
        proof {
            self.lemma_view();
            crate::bits::lemma_clear_bit(bits[word_idx as int], bit_idx);
            crate::bits::lemma_flags_take(bits, word_idx as int, bit_idx as int);
            Self::lemma_remove_place(bits, p);
        }
        if self.bits[word_idx] & mask == 0 {
            return;
        }
        self.bits[word_idx] = self.bits[word_idx] & !mask;
        self.alive = self.alive - 1;
        proof {
            crate::bits::lemma_flags_update(bits, word_idx as int, self.bits@[word_idx as int], bit_idx as int);
            crate::lists::lemma_positions_clear(flags(bits), p);
            assert(self@ =~= old(self)@.remove(k));
            assert(self@ == old(self)@.remove_value(2 * odd_index - 1));
            crate::fenwick::lemma_chain_start(word_idx as int);
            Self::lemma_prefix_after_clear(bits, self.bits@, word_idx as int);
            assert forall|j: int| 1 <= j <= word_idx implies #[trigger] self.tree@[j] == node_ones(self.bits@, j) by {
                assert(!covers(j, word_idx as int));
                Self::lemma_node_after_clear(bits, self.bits@, word_idx as int, j as usize);
            }
        }
        let mut i: usize = word_idx + 1;
        while i < self.tree.len()
            invariant
                self.shaped(),
                self.alive == self@.len(),
                self.n_odds == old(self).n_odds,
                self@ == old(self)@.remove_value(2 * odd_index - 1),
                0 <= word_idx < i,
                word_idx < bits.len() == self.bits@.len(),
                i <= usize::MAX / 2,
                covers(i as int, word_idx as int),
                tree_counts(bits, old(self).tree@),
                self.tree@[0] == 0,
                forall|j: int|
                    0 <= j <= bits.len() ==> #[trigger] prefix_ones(self.bits@, j) == prefix_ones(bits, j)
                        - if word_idx < j {
                        1int
                    } else {
                        0int
                    },
                forall|j: int|
                    1 <= j <= bits.len() && j < i ==> #[trigger] self.tree@[j] == node_ones(self.bits@, j),
                forall|j: int| i <= j <= bits.len() ==> #[trigger] self.tree@[j] == node_ones(bits, j),
            decreases usize::MAX - i,
        {
            let ghost before = self.tree@;
            proof {
                crate::bits::lemma_low_range(i);
                crate::fenwick::lemma_chain_step(word_idx as int, i, bits.len() as int);
                Self::lemma_node_after_clear(bits, self.bits@, word_idx as int, i);
                crate::fenwick::lemma_node_range(self.bits@, i);
            }
            self.tree[i] = self.tree[i] - 1;
            let up: usize = i + lowbit(i);
            proof {
                assert forall|j: int| 1 <= j <= bits.len() && j < up implies #[trigger] self.tree@[j] == node_ones(
                    self.bits@,
                    j,
                ) by {
                    if j > i {
                        assert(!covers(j, word_idx as int));
                        assert(before[j] == node_ones(bits, j));
                        Self::lemma_node_after_clear(bits, self.bits@, word_idx as int, j as usize);
                    } else if j < i {
                        assert(before[j] == node_ones(self.bits@, j));
                    }
                }
                assert forall|j: int| up <= j <= bits.len() implies #[trigger] self.tree@[j] == node_ones(
                    bits,
                    j,
                ) by {
                    assert(before[j] == node_ones(bits, j));
                }
            }
            i = up;
        }
    }

    /// A number's place in the list is the number of set flags up to it.
    proof fn lemma_remove_place(bits: Seq<u64>, p: int)
        requires
            0 <= p < 64 * bits.len(),
        ensures
            flags(bits)[p] ==> survivors(bits).remove_value(2 * p + 1) == survivors(bits).remove(
                ones(flags(bits).take(p)) as int,
            ) && ones(flags(bits).take(p)) < survivors(bits).len(),
            !flags(bits)[p] ==> survivors(bits).remove_value(2 * p + 1) == survivors(bits),
    {
        let b = flags(bits);
        let s = survivors(bits);
        s.index_of_first_ensures(2 * p + 1);
        crate::lists::lemma_positions(b);
        if b[p] {
            crate::lists::lemma_position_of(b, p);
            let k = ones(b.take(p)) as int;
            assert(s[k] == 2 * p + 1);
            assert(s.contains(2 * p + 1));
            let i = s.index_of_first(2 * p + 1).unwrap();
            assert(positions(b)[i] == p);
            if i != k {
                if i < k {
                    assert(positions(b)[i] < positions(b)[k]);
                } else {
                    assert(positions(b)[k] < positions(b)[i]);
                }
            }
        } else if s.contains(2 * p + 1) {
            let i = choose|i: int| 0 <= i < s.len() && s[i] == 2 * p + 1;
            assert(b[positions(b)[i]]);
        }
    }

    /// Clearing one bit of word `w` lowers by one the prefix counts that take the word in.
    proof fn lemma_prefix_after_clear(bits: Seq<u64>, after: Seq<u64>, w: int)
        requires
            0 <= w < bits.len(),
            after.len() == bits.len(),
            forall|i: int| 0 <= i < bits.len() && i != w ==> #[trigger] after[i] == bits[i],
            ones(flags(after)) == ones(flags(bits)) - 1,
        ensures
            forall|j: int|
                0 <= j <= bits.len() ==> #[trigger] prefix_ones(after, j) == prefix_ones(bits, j) - if w < j {
                    1int
                } else {
                    0int
                },
    {
        assert forall|j: int| 0 <= j <= bits.len() implies #[trigger] prefix_ones(after, j) == prefix_ones(bits, j)
            - if w < j {
            1int
        } else {
            0int
        } by {
            if j <= w {
                assert(after.take(j) =~= bits.take(j));
            } else {
                assert(after.skip(j) =~= bits.skip(j));
                assert(after =~= after.take(j) + after.skip(j));
                assert(bits =~= bits.take(j) + bits.skip(j));
                crate::bits::lemma_flags_concat(after.take(j), after.skip(j));
                crate::bits::lemma_flags_concat(bits.take(j), bits.skip(j));
                crate::lists::lemma_positions_concat(flags(after.take(j)), flags(after.skip(j)));
                crate::lists::lemma_positions_concat(flags(bits.take(j)), flags(bits.skip(j)));
            }
        }
    }

    /// A node loses one exactly where it counts the word that lost a bit.
    proof fn lemma_node_after_clear(bits: Seq<u64>, after: Seq<u64>, w: int, j: usize)
        requires
            0 <= w < bits.len(),
            1 <= j <= bits.len(),
            forall|i: int|
                0 <= i <= bits.len() ==> #[trigger] prefix_ones(after, i) == prefix_ones(bits, i) - if w < i {
                    1int
                } else {
                    0int
                },
        ensures
            node_ones(after, j as int) == node_ones(bits, j as int) - if covers(j as int, w) {
                1int
            } else {
                0int
            },
    {
        crate::bits::lemma_low_range(j);
    }

    /// Strikes the numbers at the places `step * hi`, then `step * (hi - 1)`, and so on down to
    /// `step * (lo + 1)`.
    pub fn delete_multiples(&mut self, step: u64, hi: u64, lo: u64)
        requires
            old(self).wf(),
            step >= 1,
            lo <= hi,
            step * hi <= old(self).alive,
        ensures
            final(self).wf(),
            final(self).n_odds == old(self).n_odds,
            final(self).alive == old(self).alive - (hi - lo),
            final(self)@ == old(self)@.take(step * lo) + strike(
                old(self)@.subrange(step * lo, step * hi),
                step as int,
            ) + old(self)@.skip(step * hi),
    {
        let ghost s = self@;
        let ghost l = step as int;
        let mut m: u64 = hi;
        proof {
            Self::lemma_multiple_bounds(l, lo as int, hi as int);
            assert(s.subrange(l * hi, l * hi) =~= Seq::empty());
            assert(strike(s.subrange(l * hi, l * hi), l) =~= Seq::empty());
            assert(s =~= s.take(l * hi) + strike(s.subrange(l * hi, l * hi), l) + s.skip(l * hi));
        }
        while m > lo
            invariant
                self.wf(),
                self.n_odds == old(self).n_odds,
                s == old(self)@,
                l == step >= 1,
                lo <= m <= hi,
                self.alive == old(self).alive - (hi - m),
                l * hi <= old(self).alive == s.len(),
                self@ == s.take(l * m) + strike(s.subrange(l * m, l * hi), l) + s.skip(l * hi),
            decreases m,
        {
            proof {
                Self::lemma_multiple_bounds(l, m as int, hi as int);
                Self::lemma_multiple_bounds(l, m - 1, m as int);
                crate::lists::lemma_strike_len(s.subrange(l * m, l * hi), l);
                self.lemma_view();
                let a = s.subrange(l * (m - 1), l * m);
                let b = s.subrange(l * m, l * hi);
                assert(s.subrange(l * (m - 1), l * hi) =~= a + b);
                crate::lists::lemma_quotient(l, l, 1, 0);
                crate::lists::lemma_strike_concat(a, b, l);
                crate::lists::lemma_strike_block(a, l);
                assert(self@[l * m - 1] == s[l * m - 1]);
            }
            assert(m * step == l * m) by (nonlinear_arith)
                requires
                    l == step,
            ;
            let rank: u64 = m * step;
            let ghost before = self@;
            match self.select(rank) {
                Some(odd_index) => {
                    proof {
                        self.lemma_view();
                        lemma_remove_value_at(before, l * m - 1);
                    }
                    self.clear(odd_index);
                },
                None => {
                    assert(false);
                },
            }
            proof {
                self.lemma_view();
                let a = s.subrange(l * (m - 1), l * m);
                let b = s.subrange(l * m, l * hi);
                assert(self@ =~= s.take(l * (m - 1)) + (strike(a, l) + strike(b, l)) + s.skip(l * hi));
            }
            m = m - 1;
        }
    }

    /// The products that the loop over multiples runs through.
    proof fn lemma_multiple_bounds(l: int, lo: int, hi: int)
        requires
            l >= 1,
            0 <= lo <= hi,
        ensures
            0 <= l * lo <= l * hi,
            lo < hi ==> l * lo + l <= l * hi,
            l * (lo + 1) == l * lo + l,
    {
        assert(0 <= l * lo <= l * hi && (lo < hi ==> l * lo + l <= l * hi) && l * (lo + 1) == l * lo + l)
            by (nonlinear_arith)
            requires
                l >= 1,
                0 <= lo <= hi,
        ;
    }

    /// Strikes every number whose place is a multiple of `step`, and says how many there were.
    pub fn delete_every(&mut self, step: u64) -> (deletions: u64)
        requires
            old(self).wf(),
            step >= 1,
        ensures
            final(self).wf(),
            final(self).n_odds == old(self).n_odds,
            final(self)@ == strike(old(self)@, step as int),
            deletions == old(self)@.len() as int / step as int,
            final(self).alive == old(self).alive - deletions,
    {
        let deletions: u64 = self.alive / step;
        let ghost s = self@;
        let ghost l = step as int;
        proof {
            vstd::arithmetic::div_mod::lemma_fundamental_div_mod(self.alive as int, l);
            let cut = l * deletions;
            let tail = s.skip(cut);
            crate::lists::lemma_strike_short(tail, l);
            assert(s =~= s.take(cut) + tail);
            assert(s.take(l * 0) =~= Seq::empty());
            assert(s.subrange(0, cut) =~= s.take(cut));
            Self::lemma_multiple_bounds(l, 0, deletions as int);
            assert(cut == l * deletions + 0);
            crate::lists::lemma_quotient(cut, l, deletions as int, 0);
            crate::lists::lemma_strike_concat(s.take(cut), tail, l);
        }
        self.delete_multiples(step, deletions, 0);
        proof {
            assert(self@ =~= strike(s, l));
        }
        deletions
    }
}

/// Removing a value from an ascending list removes its only occurrence.
proof fn lemma_remove_value_at(s: Seq<int>, i: int)
    requires
        ascending(s),
        0 <= i < s.len(),
    ensures
        s.remove_value(s[i]) == s.remove(i),
{
    s.index_of_first_ensures(s[i]);
    assert(s.contains(s[i]));
    let k = s.index_of_first(s[i]).unwrap();
    if k < i {
        assert(s[k] < s[i]);
    } else if i < k {
        assert(s[i] < s[k]);
    }
}

} // verus!
