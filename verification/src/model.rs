//! The mathematical model of the tree: what each node's hash is, given the
//! hashes of the occupied leaves.
use crate::hasher::Hasher;
use crate::index::{covers, lemma_covers_children};
use crate::primitives::GetBits;
use vstd::arithmetic::power2::{lemma_pow2_unfold, pow2};
use vstd::prelude::*;

verus! {

/// The hash of a subtree of `height` levels all of whose leaves are empty.
pub open spec fn empty_hash<Hash, H: Hasher<Hash>>(hasher: H, empty_leaf: Hash, height: nat) -> Hash
    decreases height,
{
    if height == 0 {
        empty_leaf
    } else {
        let below = empty_hash(hasher, empty_leaf, (height - 1) as nat);
        hasher.spec_compress(below, below, (height - 1) as nat)
    }
}

/// The hash of the subtree of `height` levels rooted at `node`, where
/// `leaves` maps the node index of each occupied leaf to its hash and every
/// other leaf has the hash `empty_leaf`.
pub open spec fn node_hash<Hash, H: Hasher<Hash>>(
    hasher: H,
    empty_leaf: Hash,
    leaves: Map<nat, Hash>,
    height: nat,
    node: nat,
) -> Hash
    decreases height,
{
    if height == 0 {
        if leaves.contains_key(node) {
            leaves[node]
        } else {
            empty_leaf
        }
    } else {
        hasher.spec_compress(
            node_hash(hasher, empty_leaf, leaves, (height - 1) as nat, 2 * node),
            node_hash(hasher, empty_leaf, leaves, (height - 1) as nat, 2 * node + 1),
            (height - 1) as nat,
        )
    }
}

/// The hashes of the occupied leaves, keyed by node index, of a tree whose
/// slot `i` is the leaf with node index `first_leaf + i`.
pub open spec fn leaf_hashes<T: GetBits, Hash, H: Hasher<Hash>>(
    hasher: H,
    contents: Map<u32, T>,
    first_leaf: nat,
) -> Map<nat, Hash> {
    Map::new(
        |node: nat|
            first_leaf <= node <= first_leaf + u32::MAX && contents.contains_key(
                (node - first_leaf) as u32,
            ),
        |node: nat| hasher.spec_hash_bits(contents[(node - first_leaf) as u32].spec_bits_le()),
    )
}

/// The root hash of a tree of `depth` levels.
pub open spec fn merkle_root<Hash, H: Hasher<Hash>>(
    hasher: H,
    empty_leaf: Hash,
    leaves: Map<nat, Hash>,
    depth: nat,
) -> Hash {
    node_hash(hasher, empty_leaf, leaves, (depth - 1) as nat, 1)
}

/// The ancestor of `leaf` that lies `level` levels above it.
pub open spec fn ancestor(leaf: nat, level: nat) -> nat {
    leaf / pow2(level)
}

/// The other child of a node's parent.
pub open spec fn sibling(node: nat) -> nat {
    if node % 2 == 1 {
        (node - 1) as nat
    } else {
        node + 1
    }
}

/// The entry of a leaf's Merkle path for one level, counted from the leaf:
/// the hash of the sibling of the leaf's ancestor on that level, and
/// whether that ancestor is a right child.
pub open spec fn path_entry<Hash, H: Hasher<Hash>>(
    hasher: H,
    empty_leaf: Hash,
    leaves: Map<nat, Hash>,
    leaf: nat,
    level: nat,
) -> (Hash, bool) {
    let on_path = ancestor(leaf, level);
    (node_hash(hasher, empty_leaf, leaves, level, sibling(on_path)), on_path % 2 == 1)
}

/// The Merkle path of a leaf in a tree of `depth` levels, from the leaf
/// level to the level below the root.
pub open spec fn merkle_path<Hash, H: Hasher<Hash>>(
    hasher: H,
    empty_leaf: Hash,
    leaves: Map<nat, Hash>,
    depth: nat,
    leaf: nat,
) -> Seq<(Hash, bool)> {
    Seq::new((depth - 1) as nat, |level: int| path_entry(hasher, empty_leaf, leaves, leaf, level as nat))
}

/// What a verifier computes from a leaf hash and the first `levels` entries
/// of a path: at each level the running hash and the sibling are combined,
/// the sibling on the left where the direction flag is set.
pub open spec fn fold_path<Hash, H: Hasher<Hash>>(
    hasher: H,
    leaf_hash: Hash,
    path: Seq<(Hash, bool)>,
    levels: nat,
) -> Hash
    decreases levels,
{
    if levels == 0 {
        leaf_hash
    } else {
        let below = fold_path(hasher, leaf_hash, path, (levels - 1) as nat);
        let (sibling_hash, is_right) = path[levels - 1];
        if is_right {
            hasher.spec_compress(sibling_hash, below, (levels - 1) as nat)
        } else {
            hasher.spec_compress(below, sibling_hash, (levels - 1) as nat)
        }
    }
}

/// A subtree none of whose leaves is occupied has the empty-subtree hash of
/// its height.
pub proof fn lemma_untouched_subtree<Hash, H: Hasher<Hash>>(
    hasher: H,
    empty_leaf: Hash,
    leaves: Map<nat, Hash>,
    height: nat,
    node: nat,
)
    requires
        forall|leaf: nat| leaves.contains_key(leaf) ==> !covers(node, height, leaf),
    ensures
        node_hash(hasher, empty_leaf, leaves, height, node) == empty_hash(hasher, empty_leaf, height),
    decreases height,
{
    if height == 0 {
        assert(pow2(0) == 1) by {
            vstd::arithmetic::power2::lemma2_to64();
        }
        assert(covers(node, 0, node)) by (nonlinear_arith)
            requires
                pow2(0) == 1,
        ;
    } else {
        let below = (height - 1) as nat;
        assert forall|leaf: nat| leaves.contains_key(leaf) implies !covers(2 * node, below, leaf)
            && !covers(2 * node + 1, below, leaf) by {
            lemma_covers_children(node, height, leaf);
        }
        lemma_untouched_subtree(hasher, empty_leaf, leaves, below, 2 * node);
        lemma_untouched_subtree(hasher, empty_leaf, leaves, below, 2 * node + 1);
    }
}

/// Setting the hash of one leaf leaves the hash of every subtree that does
/// not hold that leaf as it was.
pub proof fn lemma_insert_elsewhere<Hash, H: Hasher<Hash>>(
    hasher: H,
    empty_leaf: Hash,
    leaves: Map<nat, Hash>,
    leaf: nat,
    leaf_hash: Hash,
    height: nat,
    node: nat,
)
    requires
        !covers(node, height, leaf),
    ensures
        node_hash(hasher, empty_leaf, leaves.insert(leaf, leaf_hash), height, node) == node_hash(
            hasher,
            empty_leaf,
            leaves,
            height,
            node,
        ),
    decreases height,
{
    if height == 0 {
        assert(pow2(0) == 1) by {
            vstd::arithmetic::power2::lemma2_to64();
        }
        assert(covers(leaf, 0, leaf)) by (nonlinear_arith)
            requires
                pow2(0) == 1,
        ;
    } else {
        let below = (height - 1) as nat;
        lemma_covers_children(node, height, leaf);
        lemma_insert_elsewhere(hasher, empty_leaf, leaves, leaf, leaf_hash, below, 2 * node);
        lemma_insert_elsewhere(hasher, empty_leaf, leaves, leaf, leaf_hash, below, 2 * node + 1);
    }
}

/// Going one level further up halves the ancestor's index.
pub proof fn lemma_ancestor_step(leaf: nat, level: nat)
    ensures
        ancestor(leaf, level + 1) == ancestor(leaf, level) / 2,
        ancestor(leaf, 0) == leaf,
{
    vstd::arithmetic::power2::lemma2_to64();
    lemma_pow2_unfold(level + 1);
    vstd::arithmetic::power2::lemma_pow2_pos(level);
    vstd::arithmetic::div_mod::lemma_div_denominator(leaf as int, pow2(level) as int, 2);
}

/// Filling a slot sets the hash of its leaf and of no other.
pub proof fn lemma_leaf_hashes_insert<T: GetBits, Hash, H: Hasher<Hash>>(
    hasher: H,
    contents: Map<u32, T>,
    first_leaf: nat,
    slot: u32,
    item: T,
)
    ensures
        leaf_hashes(hasher, contents.insert(slot, item), first_leaf) == leaf_hashes(
            hasher,
            contents,
            first_leaf,
        ).insert((first_leaf + slot) as nat, hasher.spec_hash_bits(item.spec_bits_le())),
{
    let after = leaf_hashes(hasher, contents.insert(slot, item), first_leaf);
    let expected = leaf_hashes(hasher, contents, first_leaf).insert(
        (first_leaf + slot) as nat,
        hasher.spec_hash_bits(item.spec_bits_le()),
    );
    assert(after =~= expected);
}

/// Folding the first `levels` entries of a leaf's path over the leaf's own
/// hash gives the hash of the leaf's ancestor `levels` levels up.
pub proof fn lemma_fold_path_reaches_ancestor<Hash, H: Hasher<Hash>>(
    hasher: H,
    empty_leaf: Hash,
    leaves: Map<nat, Hash>,
    depth: nat,
    leaf: nat,
    levels: nat,
)
    requires
        levels < depth,
    ensures
        fold_path(
            hasher,
            node_hash(hasher, empty_leaf, leaves, 0, leaf),
            merkle_path(hasher, empty_leaf, leaves, depth, leaf),
            levels,
        ) == node_hash(hasher, empty_leaf, leaves, levels, ancestor(leaf, levels)),
    decreases levels,
{
    if levels == 0 {
        assert(pow2(0) == 1) by {
            vstd::arithmetic::power2::lemma2_to64();
        }
    } else {
        let below = (levels - 1) as nat;
        lemma_fold_path_reaches_ancestor(hasher, empty_leaf, leaves, depth, leaf, below);
        let child = ancestor(leaf, below);
        let parent = ancestor(leaf, levels);
        lemma_ancestor_step(leaf, below);
        assert(child == 2 * parent || child == 2 * parent + 1);
    }
}

/// Recombining a leaf's own hash with its Merkle path, bottom-up and with
/// the argument order that the direction flags give, reproduces the root
/// hash.
pub proof fn lemma_path_recombines_to_root<Hash, H: Hasher<Hash>>(
    hasher: H,
    empty_leaf: Hash,
    leaves: Map<nat, Hash>,
    depth: nat,
    slot: nat,
)
    requires
        depth >= 1,
        slot < pow2((depth - 1) as nat),
    ensures
        fold_path(
            hasher,
            node_hash(hasher, empty_leaf, leaves, 0, pow2((depth - 1) as nat) + slot),
            merkle_path(hasher, empty_leaf, leaves, depth, pow2((depth - 1) as nat) + slot),
            (depth - 1) as nat,
        ) == merkle_root(hasher, empty_leaf, leaves, depth),
{
    let top = (depth - 1) as nat;
    let leaf = pow2(top) + slot;
    lemma_fold_path_reaches_ancestor(hasher, empty_leaf, leaves, depth, leaf, top);
    assert(ancestor(leaf, top) == 1) by {
        vstd::arithmetic::power2::lemma_pow2_pos(top);
        vstd::arithmetic::div_mod::lemma_fundamental_div_mod_converse(
            leaf as int,
            pow2(top) as int,
            1,
            slot as int,
        );
    }
}

} // verus!
