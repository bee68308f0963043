//! Arithmetic on heap-style node indices: node 1 is the root and node `k`
//! has the children `2k` and `2k + 1`.
use vstd::arithmetic::power2::{
    lemma2_to64, lemma_pow2_strictly_increases, lemma_pow2_unfold, pow2,
};
use vstd::prelude::*;

verus! {

/// The distance of a node from the root: the number of halvings that take
/// its index to 1.
pub open spec fn node_depth(n: nat) -> nat
    decreases n,
{
    if n <= 1 {
        0
    } else {
        1 + node_depth(n / 2)
    }
}

/// Whether the subtree of `height` levels rooted at `node` holds the leaf
/// with node index `leaf`.
pub open spec fn covers(node: nat, height: nat, leaf: nat) -> bool {
    node * pow2(height) <= leaf < (node + 1) * pow2(height)
}

/// The depth of a node is the floor of the binary logarithm of its index.
pub proof fn lemma_node_depth_is_floor_log2(n: nat)
    requires
        n >= 1,
    ensures
        pow2(node_depth(n)) <= n < 2 * pow2(node_depth(n)),
    decreases n,
{
    lemma2_to64();
    if n > 1 {
        lemma_node_depth_is_floor_log2(n / 2);
        lemma_pow2_unfold(node_depth(n));
    }
}

/// The only depth whose power of two brackets an index is that index's depth.
pub proof fn lemma_node_depth_unique(n: nat, k: nat)
    requires
        pow2(k) <= n < 2 * pow2(k),
    ensures
        node_depth(n) == k,
    decreases k,
{
    lemma2_to64();
    if k > 0 {
        lemma_pow2_unfold(k);
        lemma_node_depth_unique(n / 2, (k - 1) as nat);
    }
}

/// A node below depth `limit` has an index less than `2^limit`, and the other
/// way round.
pub proof fn lemma_node_depth_below(n: nat, limit: nat)
    requires
        n >= 1,
    ensures
        n < pow2(limit) <==> node_depth(n) < limit,
{
    lemma_node_depth_is_floor_log2(n);
    let k = node_depth(n);
    if k < limit {
        if k + 1 < limit {
            lemma_pow2_strictly_increases(k + 1, limit);
        }
        lemma_pow2_unfold(k + 1);
    } else if limit < k {
        lemma_pow2_strictly_increases(limit, k);
    }
}

/// The children of a node lie one level deeper.
pub proof fn lemma_node_depth_children(n: nat)
    requires
        n >= 1,
    ensures
        node_depth(2 * n) == node_depth(n) + 1,
        node_depth(2 * n + 1) == node_depth(n) + 1,
{
    assert((2 * n) / 2 == n);
    assert((2 * n + 1) / 2 == n);
}

/// A subtree that holds a leaf holds it in exactly one of its two halves.
pub proof fn lemma_covers_children(node: nat, height: nat, leaf: nat)
    requires
        height >= 1,
    ensures
        covers(node, height, leaf) <==> (covers(2 * node, (height - 1) as nat, leaf) || covers(
            2 * node + 1,
            (height - 1) as nat,
            leaf,
        )),
        !(covers(2 * node, (height - 1) as nat, leaf) && covers(
            2 * node + 1,
            (height - 1) as nat,
            leaf,
        )),
{
    lemma_pow2_unfold(height);
    let p = pow2((height - 1) as nat);
    let q = pow2(height);
    let left: nat = 2 * node;
    let right: nat = 2 * node + 1;
    assert(left * p == node * q && (left + 1) * p == right * p && right * p == left * p + p && (right
        + 1) * p == (node + 1) * q && (right + 1) * p == right * p + p) by (nonlinear_arith)
        requires
            q == 2 * p,
            left == 2 * node,
            right == left + 1,
    ;
}

/// On each level at most one node's subtree holds a given leaf.
pub proof fn lemma_covers_unique(a: nat, b: nat, height: nat, leaf: nat)
    requires
        covers(a, height, leaf),
        covers(b, height, leaf),
    ensures
        a == b,
{
    let p = pow2(height);
    assert(a * p <= leaf < (a + 1) * p && b * p <= leaf < (b + 1) * p ==> a == b)
        by (nonlinear_arith);
}

/// The parent of a node that holds a leaf holds it too.
pub proof fn lemma_covers_parent(node: nat, height: nat, leaf: nat)
    requires
        covers(node, height, leaf),
    ensures
        covers(node / 2, height + 1, leaf),
{
    let parent = node / 2;
    assert(node == 2 * parent || node == 2 * parent + 1);
    lemma_covers_children(parent, height + 1, leaf);
}

} // verus!
