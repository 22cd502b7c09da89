//! The tree of partial counts over the words of the sieve.
//!
//! Node `j` counts the set bits of the words `j - low(j) .. j`. The node above it is
//! `j + low(j)`.
use crate::bits::{low, lemma_low_range, lemma_prefix_monotone, lemma_prefix_step, popcount, prefix_ones};
use vstd::prelude::*;

verus! {

/// The set bits that node `j` counts.
pub open spec fn node_ones(bits: Seq<u64>, j: int) -> int {
    prefix_ones(bits, j) - prefix_ones(bits, j - low(j as usize))
}

/// Whether every node of `tree` holds the count of its words.
pub open spec fn tree_counts(bits: Seq<u64>, tree: Seq<u64>) -> bool {
    &&& tree.len() == bits.len() + 1
    &&& tree[0] == 0
    &&& forall|j: int| 1 <= j <= bits.len() ==> #[trigger] tree[j] == node_ones(bits, j)
}

/// What the nodes below `i` add to node `j` when each hands its count to the node above it.
pub open spec fn handed_up(bits: Seq<u64>, j: int, i: int) -> int
    decreases i,
{
    if i <= 1 {
        0
    } else {
        handed_up(bits, j, i - 1) + if (i - 1) + low((i - 1) as usize) == j {
            node_ones(bits, i - 1)
        } else {
            0
        }
    }
}

/// Whether every node holds its own word's count and what the nodes below `i` handed up.
pub open spec fn tree_built_to(bits: Seq<u64>, tree: Seq<u64>, i: int) -> bool {
    &&& tree.len() == bits.len() + 1
    &&& tree[0] == 0
    &&& forall|j: int|
        1 <= j <= bits.len() ==> #[trigger] tree[j] == popcount(bits[j - 1]) + handed_up(bits, j, i)
}

/// Between a node and the one above it, every node starts after the first.
proof fn lemma_between(i: usize, j: usize)
    requires
        0 < i < j,
        j < i + low(i),
    ensures
        j - low(j) >= i,
{
    assert(j - low(j) >= i) by (bit_vector)
        requires
            0 < i < j,
            j < i + low(i),
    ;
}

/// The node above starts no later.
proof fn lemma_parent_starts(i: usize, p: usize)
    requires
        i > 0,
        p == i + low(i),
    ensures
        p - low(p) <= i - low(i),
{
    assert(p - low(p) <= i - low(i)) by (bit_vector)
        requires
            i > 0,
            p == i + low(i),
    ;
}

/// What comes before a node's words is either where the node above starts, or a node with the
/// same node above.
proof fn lemma_previous_sibling(m: usize, j: usize)
    requires
        m > 0,
        j == m + low(m),
    ensures
        m - low(m) == j - low(j) || (m - low(m) > 0 && (m - low(m)) + low((m - low(m)) as usize) == j),
{
    assert(m - low(m) == j - low(j) || (m - low(m) > 0 && (m - low(m)) + low((m - low(m)) as usize) == j))
        by (bit_vector)
        requires
            m > 0,
            j == m + low(m),
    ;
}

/// A node inside the words of another has its parent there too.
proof fn lemma_inside(c: usize, m: usize)
    requires
        m > 0,
        m - low(m) < c < m,
    ensures
        c + low(c) <= m,
{
    assert(c + low(c) <= m) by (bit_vector)
        requires
            m > 0,
            m - low(m) < c < m,
    ;
}

/// The last node before an even one hands up to it; an odd node counts one word.
proof fn lemma_last_child(j: usize)
    requires
        j > 0,
    ensures
        low(j) == 1 || (j > 1 && low((j - 1) as usize) == 1),
{
    assert(low(j) == 1 || (j > 1 && low((j - 1) as usize) == 1)) by (bit_vector)
        requires
            j > 0,
    ;
}

/// The step down of the descent: adding the next power of two gives the node that counts
/// exactly the words from there.
pub proof fn lemma_descent_node(idx: usize, bit: usize)
    requires
        bit > 0,
        low(bit) == bit,
        idx & (bit | (bit - 1) as usize) == 0,
        idx + bit <= usize::MAX,
    ensures
        low((idx + bit) as usize) == bit,
{
    let next = (idx + bit) as usize;
    assert(low(next) == bit) by (bit_vector)
        requires
            bit > 0,
            low(bit) == bit,
            idx & (bit | (bit - 1) as usize) == 0,
            next == idx + bit,
    ;
}

/// Halving the power keeps the descent aligned, whether or not it moved on.
pub proof fn lemma_descent_halve(idx: usize, bit: usize)
    requires
        bit > 0,
        low(bit) == bit,
        idx & (bit | (bit - 1) as usize) == 0,
        idx + bit <= usize::MAX,
    ensures
        bit >> 1 == 0 <==> bit == 1,
        bit > 1 ==> {
            let half = bit >> 1;
            &&& half > 0
            &&& 2 * half == bit
            &&& low(half) == half
            &&& idx & (half | (half - 1) as usize) == 0
            &&& ((idx + bit) as usize) & (half | (half - 1) as usize) == 0
        },
{
    let next = (idx + bit) as usize;
    let half = bit >> 1;
    assert(half == 0 <==> bit == 1) by (bit_vector)
        requires
            bit > 0,
            low(bit) == bit,
            half == bit >> 1,
    ;
    if bit > 1 {
        assert(half > 0 && 2 * half == bit && low(half) == half && idx & (half | (half - 1) as usize) == 0
            && next & (half | (half - 1) as usize) == 0) by (bit_vector)
            requires
                bit > 1,
                low(bit) == bit,
                idx & (bit | (bit - 1) as usize) == 0,
                next == idx + bit,
                half == bit >> 1,
        ;
    }
}

/// Nodes between a child and the start of its words hand nothing to the child's parent.
proof fn lemma_handed_gap(bits: Seq<u64>, j: usize, m: usize, i: int)
    requires
        m > 0,
        j == m + low(m),
        m - low(m) < i <= m,
    ensures
        handed_up(bits, j as int, i) == handed_up(bits, j as int, m - low(m) + 1),
    decreases i,
{
    if i > m - low(m) + 1 {
        lemma_low_range(m);
        lemma_inside((i - 1) as usize, m);
        lemma_handed_gap(bits, j, m, i - 1);
    }
}

/// Up to a child of `j`, or the start of its words, `j` has been handed the count of all the
/// words before.
proof fn lemma_handed_to_child(bits: Seq<u64>, j: usize, m: usize)
    requires
        0 < j,
        m == j - low(j) || (m > 0 && m + low(m) == j),
    ensures
        handed_up(bits, j as int, m + 1) == prefix_ones(bits, m as int) - prefix_ones(bits, j - low(j)),
    decreases m,
{
    lemma_low_range(j);
    if m == j - low(j) {
        lemma_handed_none(bits, j, m as int + 1);
    } else {
        lemma_low_range(m);
        lemma_previous_sibling(m, j);
        lemma_handed_to_child(bits, j, (m - low(m)) as usize);
        lemma_handed_gap(bits, j, m, m as int);
    }
}

/// Nodes that end at or before the start of the words of `j` hand nothing to `j`.
proof fn lemma_handed_none(bits: Seq<u64>, j: usize, i: int)
    requires
        0 < j,
        i <= j - low(j) + 1,
    ensures
        handed_up(bits, j as int, i) == 0,
    decreases i,
{
    if i > 1 {
        lemma_low_range(j);
        let c = (i - 1) as usize;
        lemma_low_range(c);
        lemma_handed_none(bits, j, i - 1);
        if c + low(c) == j {
            lemma_parent_starts(c, j);
        }
    }
}

/// Nodes from `j` on hand nothing to `j`.
proof fn lemma_handed_after(bits: Seq<u64>, j: usize, i: int)
    requires
        0 < j,
        j <= i <= usize::MAX,
    ensures
        handed_up(bits, j as int, i) == handed_up(bits, j as int, j as int),
    decreases i,
{
    if i > j {
        lemma_low_range((i - 1) as usize);
        lemma_handed_after(bits, j, i - 1);
    }
}

/// Once every node below has handed its count up, a node holds the count of its words.
pub proof fn lemma_node_complete(bits: Seq<u64>, j: usize, i: int)
    requires
        1 <= j <= bits.len(),
        j <= i <= usize::MAX,
    ensures
        popcount(bits[j - 1]) + handed_up(bits, j as int, i) == node_ones(bits, j as int),
{
    lemma_low_range(j);
    lemma_last_child(j);
    lemma_handed_after(bits, j, i);
    lemma_handed_to_child(bits, j, (j - 1) as usize);
    lemma_prefix_step(bits, j - 1);
}

/// A tree built to the end counts its words.
pub proof fn lemma_tree_complete(bits: Seq<u64>, tree: Seq<u64>)
    requires
        tree_built_to(bits, tree, bits.len() as int + 1),
        bits.len() < usize::MAX,
    ensures
        tree_counts(bits, tree),
{
    assert forall|j: int| 1 <= j <= bits.len() implies #[trigger] tree[j] == node_ones(bits, j) by {
        lemma_node_complete(bits, j as usize, bits.len() as int + 1);
    }
}

/// A node counts at most the bits of its words.
pub proof fn lemma_node_range(bits: Seq<u64>, j: usize)
    requires
        1 <= j <= bits.len(),
    ensures
        0 <= node_ones(bits, j as int) <= prefix_ones(bits, j as int) <= 64 * j,
{
    lemma_low_range(j);
    lemma_prefix_monotone(bits, j - low(j), j as int);
    lemma_prefix_monotone(bits, 0, j - low(j));
}

/// Handing node `i` up to the node above keeps the build going.
pub proof fn lemma_hand_up(bits: Seq<u64>, before: Seq<u64>, after: Seq<u64>, i: usize)
    requires
        1 <= i <= bits.len() < usize::MAX,
        tree_built_to(bits, before, i as int),
        i + low(i) <= bits.len() ==> after == before.update(
            i + low(i),
            (before[i + low(i)] + before[i as int]) as u64,
        ) && before[i + low(i)] + before[i as int] <= u64::MAX,
        i + low(i) > bits.len() ==> after == before,
    ensures
        tree_built_to(bits, after, i + 1),
{
    lemma_low_range(i);
    lemma_node_complete(bits, i, i as int);
    assert(before[i as int] == node_ones(bits, i as int));
    assert forall|j: int| 1 <= j <= bits.len() implies #[trigger] after[j] == popcount(bits[j - 1]) + handed_up(
        bits,
        j,
        i + 1,
    ) by {
        assert(before[j] == popcount(bits[j - 1]) + handed_up(bits, j, i as int));
    }
}

/// What a node holds while the tree is built stays within the count of the words before it.
pub proof fn lemma_built_range(bits: Seq<u64>, tree: Seq<u64>, i: usize)
    requires
        1 <= i <= bits.len() < usize::MAX,
        tree_built_to(bits, tree, i as int),
        i + low(i) <= bits.len(),
    ensures
        tree[i + low(i)] + tree[i as int] <= prefix_ones(bits, bits.len() as int),
{
    let p = (i + low(i)) as usize;
    lemma_low_range(i);
    lemma_node_complete(bits, i, i as int);
    lemma_node_complete(bits, p, p as int);
    lemma_handed_grows(bits, p as int, i as int + 1, p as int);
    lemma_node_range(bits, p);
    lemma_prefix_monotone(bits, p as int, bits.len() as int);
    assert(tree[i as int] == node_ones(bits, i as int));
    assert(tree[p as int] == popcount(bits[p - 1]) + handed_up(bits, p as int, i as int));
    assert(handed_up(bits, p as int, i as int + 1) == handed_up(bits, p as int, i as int) + node_ones(
        bits,
        i as int,
    ));
}

/// What is handed up never falls.
proof fn lemma_handed_grows(bits: Seq<u64>, j: int, i: int, k: int)
    requires
        1 <= i <= k <= bits.len() < usize::MAX,
    ensures
        handed_up(bits, j, i) <= handed_up(bits, j, k),
    decreases k,
{
    if i < k {
        lemma_handed_grows(bits, j, i, k - 1);
        if k > 1 {
            lemma_node_range(bits, (k - 1) as usize);
        }
    }
}

/// Whether node `j` counts word `w`.
pub open spec fn covers(j: int, w: int) -> bool {
    j - low(j as usize) <= w < j
}

/// The nodes that count a word form the chain from the word's own node up.
pub proof fn lemma_chain_step(w: int, i: usize, limit: int)
    requires
        0 <= w < i,
        covers(i as int, w),
        limit <= usize::MAX,
    ensures
        i < i + low(i),
        i + low(i) <= usize::MAX ==> covers(i + low(i), w),
        forall|j: int| i < j < i + low(i) && j <= limit ==> !#[trigger] covers(j, w),
{
    lemma_low_range(i);
    if i + low(i) <= usize::MAX {
        lemma_parent_starts(i, (i + low(i)) as usize);
    }
    assert forall|j: int| i < j < i + low(i) && j <= limit implies !#[trigger] covers(j, w) by {
        lemma_between(i, j as usize);
    }
}

/// The word's own node is the first that counts it.
pub proof fn lemma_chain_start(w: int)
    requires
        0 <= w,
        w + 1 <= usize::MAX,
    ensures
        covers(w + 1, w),
        forall|j: int| j <= w ==> !#[trigger] covers(j, w),
{
    lemma_low_range((w + 1) as usize);
}

} // verus!
