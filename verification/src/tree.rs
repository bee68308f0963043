//! The sparse Merkle tree.
use crate::hasher::Hasher;
use crate::index::{
    covers, lemma_covers_parent, lemma_covers_unique, lemma_node_depth_below,
    lemma_node_depth_children, lemma_node_depth_is_floor_log2, lemma_node_depth_unique,
    node_depth,
};
use crate::model::{
    ancestor, empty_hash, leaf_hashes, lemma_ancestor_step, lemma_insert_elsewhere,
    lemma_leaf_hashes_insert, lemma_path_recombines_to_root, lemma_untouched_subtree, fold_path,
    merkle_path, merkle_root, node_hash, sibling,
};
use crate::primitives::GetBits;
use std::collections::HashMap;
use vstd::arithmetic::power2::{
    lemma2_to64, lemma2_to64_rest, lemma_pow2_pos, lemma_pow2_strictly_increases,
    lemma_pow2_unfold, pow2,
};
use vstd::bits::{lemma_u32_shl_is_mul, lemma_u64_shl_is_mul, lemma_u64_shr_is_div};
use vstd::prelude::*;

verus! {

broadcast use vstd::std_specs::hash::group_hash_axioms;

/// A power of two with an exponent of at most 33 fits in 34 bits.
proof fn lemma_pow2_small(e: nat)
    requires
        e <= 33,
    ensures
        0 < pow2(e) <= 0x2_0000_0000,
{
    lemma2_to64_rest();
    lemma_pow2_pos(e);
    if e < 33 {
        lemma_pow2_strictly_increases(e, 33);
    }
}

/// A binary Merkle tree of fixed depth over slots that are empty unless
/// filled, which stores only what differs from an all-empty tree.
///
/// Slot `i` is the leaf with node index `capacity + i`. `hashes` holds the
/// hashes that insertions computed; a node without an entry there has the
/// hash that `prehashed` gives for its depth.
#[derive(Debug, Clone)]
pub struct SparseMerkleTree<T: GetBits + Default, Hash: Clone, H: Hasher<Hash>> {
    tree_depth: u32,
    prehashed: Vec<Hash>,
    items: HashMap<u32, T>,
    hashes: HashMap<u64, Hash>,
    pub hasher: H,
}

impl<T, Hash, H> SparseMerkleTree<T, Hash, H> where
    T: GetBits + Default,
    Hash: Clone,
    H: Hasher<Hash> + Default,
 {
    /// The number of levels of the tree, the root's and the leaves' included.
    pub closed spec fn spec_depth(&self) -> nat {
        self.tree_depth as nat
    }

    /// The content of each slot that was filled.
    pub closed spec fn contents(&self) -> Map<u32, T> {
        self.items@
    }

    /// The table of empty-subtree hashes, indexed by the depth of the
    /// subtree's root.
    pub closed spec fn default_hashes(&self) -> Seq<Hash> {
        self.prehashed@
    }

    /// The hashing capability that the tree was built with.
    pub closed spec fn spec_hasher(&self) -> H {
        self.hasher
    }

    /// The hash that stands for an empty slot.
    pub open spec fn empty_leaf(&self) -> Hash {
        self.default_hashes()[self.spec_depth() - 1]
    }

    /// The node index of slot 0, which is also the number of slots.
    pub open spec fn first_leaf(&self) -> nat {
        pow2((self.spec_depth() - 1) as nat)
    }

    /// The hashes of the filled slots, keyed by node index.
    pub open spec fn leaves(&self) -> Map<nat, Hash> {
        leaf_hashes(self.spec_hasher(), self.contents(), self.first_leaf())
    }

    /// The hash of a slot's leaf: that of the content's bits where the slot
    /// was filled, else the hash that stands for an empty slot.
    pub open spec fn spec_leaf_hash(&self, slot: u32) -> Hash {
        if self.contents().contains_key(slot) {
            self.spec_hasher().spec_hash_bits(self.contents()[slot].spec_bits_le())
        } else {
            self.empty_leaf()
        }
    }

    /// The number of levels of the subtree rooted at `node`, less one.
    pub open spec fn height_of(&self, node: nat) -> nat {
        (self.spec_depth() - 1 - node_depth(node)) as nat
    }

    /// The hash of a node: that of the subtree below it, as the contents
    /// determine it.
    pub open spec fn spec_node_hash(&self, node: nat) -> Hash {
        node_hash(self.spec_hasher(), self.empty_leaf(), self.leaves(), self.height_of(node), node)
    }

    /// The commitment to the contents: the hash of node 1.
    pub open spec fn spec_root_hash(&self) -> Hash {
        merkle_root(self.spec_hasher(), self.empty_leaf(), self.leaves(), self.spec_depth())
    }

    /// The Merkle path of a slot, from the leaf level upwards.
    pub open spec fn spec_merkle_path(&self, slot: u32) -> Seq<(Hash, bool)> {
        merkle_path(
            self.spec_hasher(),
            self.empty_leaf(),
            self.leaves(),
            self.spec_depth(),
            (self.first_leaf() + slot) as nat,
        )
    }

    /// The hash that the storage gives for a node: the stored one, or the
    /// empty-subtree hash of the node's depth.
    spec fn cached(&self, node: u64) -> Hash {
        if self.hashes@.contains_key(node) {
            self.hashes@[node]
        } else {
            self.prehashed@[node_depth(node as nat) as int]
        }
    }

    /// The hash of a node as its children's hashes in the storage give it.
    spec fn parent_hash(&self, node: u64) -> Hash {
        self.hasher.spec_compress(
            self.cached((2 * node) as u64),
            self.cached((2 * node + 1) as u64),
            (self.tree_depth - 2 - node_depth(node as nat)) as nat,
        )
    }

    /// Whether the storage gives for `node` the hash that `leaves` determine.
    spec fn good_at(&self, leaves: Map<nat, Hash>, node: u64) -> bool {
        self.cached(node) == node_hash(
            self.hasher,
            self.prehashed@[self.tree_depth - 1],
            leaves,
            self.height_of(node as nat),
            node as nat,
        )
    }

    /// The part of the invariant that holds in the middle of an insertion
    /// too: the depth is in range, the table of empty-subtree hashes is the
    /// chain built from the empty leaf's hash, and the keys are node indices
    /// and slot indices of this tree.
    spec fn tables_wf(&self) -> bool {
        &&& 2 <= self.tree_depth <= 32
        &&& self.prehashed@.len() == self.tree_depth
        &&& forall|k: int|
            0 <= k < self.tree_depth ==> #[trigger] self.prehashed@[k] == empty_hash(
                self.hasher,
                self.prehashed@[self.tree_depth - 1],
                (self.tree_depth - 1 - k) as nat,
            )
        &&& forall|node: u64| #[trigger]
            self.hashes@.contains_key(node) ==> 1 <= node < pow2(self.tree_depth as nat)
        &&& forall|slot: u32| #[trigger]
            self.items@.contains_key(slot) ==> slot < pow2((self.tree_depth - 1) as nat)
    }

    /// The invariant: the storage gives for every node the hash of its
    /// subtree.
    pub closed spec fn wf(&self) -> bool {
        &&& self.tables_wf()
        &&& forall|node: u64|
            1 <= node < pow2(self.tree_depth as nat) ==> #[trigger] self.good_at(
                self.leaves(),
                node,
            )
    }

    /// What the invariant says of the public state: the depth is between 2
    /// and 32, the table holds one empty-subtree hash for each depth, and
    /// only slots below the capacity are filled.
    pub proof fn lemma_wf_public(&self)
        requires
            self.wf(),
        ensures
            2 <= self.spec_depth() <= 32,
            self.default_hashes().len() == self.spec_depth(),
            forall|k: int|
                0 <= k < self.spec_depth() ==> #[trigger] self.default_hashes()[k] == empty_hash(
                    self.spec_hasher(),
                    self.empty_leaf(),
                    (self.spec_depth() - 1 - k) as nat,
                ),
            forall|slot: u32| #[trigger]
                self.contents().contains_key(slot) ==> slot < self.first_leaf(),
    {
    }

    /// A tree none of whose slots was filled has the first entry of its
    /// table of empty-subtree hashes as its root hash.
    pub proof fn lemma_empty_tree_root(&self)
        requires
            self.wf(),
            self.contents() == Map::<u32, T>::empty(),
        ensures
            self.spec_root_hash() == self.default_hashes()[0],
    {
        assert(self.leaves() =~= Map::<nat, Hash>::empty());
        lemma_untouched_subtree(
            self.hasher,
            self.empty_leaf(),
            self.leaves(),
            (self.tree_depth - 1) as nat,
            1,
        );
    }

    /// Filling a slot with the content that it holds already leaves the root
    /// hash as it is: `twice` stands for any tree that `insert` may leave
    /// when called on `once` with that slot and content.
    pub proof fn lemma_insert_same_again(once: &Self, twice: &Self, slot: u32, item: T)
        requires
            once.contents().contains_key(slot),
            once.contents()[slot] == item,
            twice.spec_depth() == once.spec_depth(),
            twice.spec_hasher() == once.spec_hasher(),
            twice.default_hashes() == once.default_hashes(),
            twice.contents() == once.contents().insert(slot, item),
        ensures
            twice.spec_root_hash() == once.spec_root_hash(),
    {
        assert(twice.contents() =~= once.contents());
    }

    /// Recombining the hash of a slot's leaf with the slot's Merkle path,
    /// from the leaf level up and with the sibling on the left wherever the
    /// direction flag is set, gives the root hash.
    pub proof fn lemma_path_leads_to_root(&self, slot: u32)
        requires
            self.wf(),
            slot < self.first_leaf(),
        ensures
            fold_path(
                self.spec_hasher(),
                self.spec_leaf_hash(slot),
                self.spec_merkle_path(slot),
                (self.spec_depth() - 1) as nat,
            ) == self.spec_root_hash(),
    {
        lemma_path_recombines_to_root(
            self.hasher,
            self.empty_leaf(),
            self.leaves(),
            self.tree_depth as nat,
            slot as nat,
        );
    }

    /// An empty tree of `d` levels, with the hashing capability's default
    /// value and the table of empty-subtree hashes built from the hash of the
    /// default content.
    pub fn new(d: u32) -> (tree: Self)
        requires
            2 <= d <= 32,
        ensures
            tree.wf(),
            tree.spec_depth() == d,
            tree.contents() == Map::<u32, T>::empty(),
            call_ensures(H::default, (), tree.spec_hasher()),
            exists|content: T|
                call_ensures(T::default, (), content) && tree.empty_leaf()
                    == tree.spec_hasher().spec_hash_bits(#[trigger] content.spec_bits_le()),
            tree.spec_root_hash() == tree.default_hashes()[0],
    {
        let hasher = H::default();
        let items: HashMap<u32, T> = HashMap::new();
        let hashes: HashMap<u64, Hash> = HashMap::new();
        let content = T::default();
        let levels: usize = d as usize;
        let mut rising: Vec<Hash> = Vec::with_capacity(levels);
        let first = hasher.hash_bits(content.get_bits_le());
        let ghost empty = first;
        rising.push(first);
        let mut i: usize = 0;
        while i < levels - 1
            invariant
                levels == d,
                i <= levels - 1,
                rising@.len() == i + 1,
                forall|k: int|
                    0 <= k <= i ==> #[trigger] rising@[k] == empty_hash(hasher, empty, k as nat),
            decreases levels - i,
        {
            let next = hasher.compress(&rising[i], &rising[i], i);
            rising.push(next);
            i += 1;
        }
        let ghost chain = rising@;
        let mut prehashed: Vec<Hash> = Vec::with_capacity(levels);
        while rising.len() > 0
            invariant
                chain.len() == levels,
                rising@.len() + prehashed@.len() == levels,
                rising@ == chain.take(rising@.len() as int),
                forall|k: int|
                    0 <= k < prehashed@.len() ==> #[trigger] prehashed@[k] == chain[levels - 1 - k],
            decreases rising@.len(),
        {
            let top = rising.pop();
            match top {
                Some(hash) => {
                    prehashed.push(hash);
                },
                None => {},
            }
        }
        let tree = Self { tree_depth: d, prehashed, items, hashes, hasher };
        proof {
            assert(tree.prehashed@[d - 1] == empty);
            assert(tree.leaves() =~= Map::<nat, Hash>::empty());
            assert(tree.tables_wf());
            assert forall|node: u64| 1 <= node < pow2(d as nat) implies #[trigger] tree.good_at(
                tree.leaves(),
                node,
            ) by {
                lemma_node_depth_below(node as nat, d as nat);
                lemma_untouched_subtree(
                    hasher,
                    empty,
                    tree.leaves(),
                    tree.height_of(node as nat),
                    node as nat,
                );
            }
            lemma_untouched_subtree(hasher, empty, tree.leaves(), (d - 1) as nat, 1);
            assert(content.spec_bits_le() == content.spec_bits_le());
        }
        tree
    }

    /// The depth of a node: 0 for the root, one more for each level below.
    pub fn depth(index: u64) -> (level: usize)
        requires
            index > 0,
        ensures
            level == node_depth(index as nat),
            pow2(level as nat) <= index < 2 * pow2(level as nat),
    {
        let mut level: usize = 0;
        let mut i: u64 = index;
        proof {
            lemma2_to64();
            lemma_node_depth_below(index as nat, 64);
        }
        while i > 1
            invariant
                i >= 1,
                level + node_depth(i as nat) == node_depth(index as nat),
                node_depth(index as nat) < 64,
            decreases i,
        {
            proof {
                lemma2_to64();
                lemma_u64_shr_is_div(i, 1);
            }
            level += 1;
            i >>= 1u64;
        }
        proof {
            lemma_node_depth_is_floor_log2(index as nat);
        }
        level
    }

    /// The number of slots.
    pub fn capacity(&self) -> (slots: u32)
        requires
            self.wf(),
        ensures
            slots == pow2((self.spec_depth() - 1) as nat),
    {
        proof {
            lemma_pow2_small((self.tree_depth - 1) as nat);
            lemma2_to64();
            lemma_pow2_strictly_increases((self.tree_depth - 1) as nat, 32);
            lemma_u32_shl_is_mul(1u32, (self.tree_depth - 1) as u32);
        }
        1u32 << (self.tree_depth - 1)
    }

    /// The number of nodes, which is the greatest node index.
    pub fn hash_capacity(&self) -> (nodes: u64)
        requires
            self.wf(),
        ensures
            nodes == pow2(self.spec_depth()) - 1,
    {
        proof {
            lemma_pow2_small(self.tree_depth as nat);
            lemma_u64_shl_is_mul(1u64, self.tree_depth as u64);
        }
        (1u64 << (self.tree_depth as u64)) - 1
    }

    /// The node index of slot 0.
    fn leaf_base(&self) -> (base: u64)
        requires
            self.tables_wf(),
        ensures
            base == pow2((self.tree_depth - 1) as nat),
            base <= 0x8000_0000,
    {
        proof {
            lemma2_to64();
            lemma_pow2_pos((self.tree_depth - 1) as nat);
            if self.tree_depth < 32 {
                lemma_pow2_strictly_increases((self.tree_depth - 1) as nat, 31);
            }
            lemma_u64_shl_is_mul(1u64, (self.tree_depth - 1) as u64);
        }
        1u64 << ((self.tree_depth - 1) as u64)
    }

    /// The stored or default hash of a node, by reference.
    fn hash_ref(&self, index: u64) -> (hash: &Hash)
        requires
            self.tables_wf(),
            1 <= index < pow2(self.tree_depth as nat),
        ensures
            *hash == self.cached(index),
    {
        if let Some(hash) = self.hashes.get(&index) {
            hash
        } else {
            proof {
                lemma_node_depth_below(index as nat, self.tree_depth as nat);
            }
            &self.prehashed[Self::depth(index)]
        }
    }

    /// Recomputes the hash of a node from its children and stores it, unless
    /// neither child has a stored hash: then the node's subtree is empty,
    /// nothing is stored and the empty-subtree hash of its depth is
    /// returned.
    fn update_hash(&mut self, index: u64) -> (hash: Hash)
        requires
            old(self).tables_wf(),
            1 <= index < pow2(old(self).tree_depth as nat),
        ensures
            final(self).tables_wf(),
            final(self).tree_depth == old(self).tree_depth,
            final(self).prehashed@ == old(self).prehashed@,
            final(self).items@ == old(self).items@,
            final(self).hasher == old(self).hasher,
            !old(self).hashes@.contains_key((2 * index) as u64) && !old(self).hashes@.contains_key(
                (2 * index + 1) as u64,
            ) ==> final(self).hashes@ == old(self).hashes@ && cloned(
                old(self).prehashed@[node_depth(index as nat) as int],
                hash,
            ),
            old(self).hashes@.contains_key((2 * index) as u64) || old(self).hashes@.contains_key(
                (2 * index + 1) as u64,
            ) ==> final(self).hashes@ == old(self).hashes@.insert(
                index,
                old(self).parent_hash(index),
            ) && cloned(old(self).parent_hash(index), hash) && node_depth(index as nat) + 2
                <= old(self).tree_depth,
    {
        proof {
            lemma_pow2_small(self.tree_depth as nat);
            lemma_node_depth_below(index as nat, self.tree_depth as nat);
        }
        let lhs: u64 = index * 2;
        let rhs: u64 = index * 2 + 1;
        let level: usize = Self::depth(index);
        if !self.hashes.contains_key(&lhs) && !self.hashes.contains_key(&rhs) {
            return self.prehashed[level].clone();
        }
        proof {
            lemma_pow2_unfold(self.tree_depth as nat);
            lemma_node_depth_below(index as nat, (self.tree_depth - 1) as nat);
        }
        let i: usize = (self.tree_depth as usize - 2) - level;
        let hash = self.hasher.compress(self.hash_ref(lhs), self.hash_ref(rhs), i);
        let copy = hash.clone();
        self.hashes.insert(index, hash);
        copy
    }

    /// The hash of a node: the stored one if there is one, else the
    /// empty-subtree hash of the node's depth.
    pub fn get_hash(&self, index: u64) -> (hash: Hash)
        requires
            self.wf(),
            1 <= index < pow2(self.spec_depth()),
        ensures
            cloned(self.spec_node_hash(index as nat), hash),
    {
        assert(self.good_at(self.leaves(), index));
        self.hash_ref(index).clone()
    }

    /// Fills slot `i` with `item`: stores the hash of the item's bits at the
    /// slot's leaf, then recomputes the hash of each ancestor of the leaf,
    /// from its parent up to the root.
    pub fn insert(&mut self, i: u32, item: T)
        requires
            old(self).wf(),
            i < old(self).first_leaf(),
        ensures
            final(self).wf(),
            final(self).spec_depth() == old(self).spec_depth(),
            final(self).spec_hasher() == old(self).spec_hasher(),
            final(self).default_hashes() == old(self).default_hashes(),
            final(self).contents() == old(self).contents().insert(i, item),
            final(self).spec_root_hash() == merkle_root(
                old(self).spec_hasher(),
                old(self).empty_leaf(),
                old(self).leaves().insert(
                    (old(self).first_leaf() + i) as nat,
                    old(self).spec_hasher().spec_hash_bits(item.spec_bits_le()),
                ),
                old(self).spec_depth(),
            ),
    {
        let ghost before = *old(self);
        let ghost top = (self.tree_depth - 1) as nat;
        let hash_index: u64 = self.leaf_base() + (i as u64);
        let ghost leaf = hash_index as nat;
        let hash = self.hasher.hash_bits(item.get_bits_le());
        let ghost leaves = before.leaves().insert(leaf, hash);
        proof {
            lemma2_to64();
            lemma_pow2_unfold(self.tree_depth as nat);
            lemma_node_depth_unique(leaf, top);
            lemma_leaf_hashes_insert(self.hasher, self.items@, before.first_leaf(), i, item);
            assert(covers(leaf, 0, leaf)) by (nonlinear_arith)
                requires
                    pow2(0) == 1,
            ;
            lemma_covers_parent(leaf, 0, leaf);
        }
        self.hashes.insert(hash_index, hash);
        self.items.insert(i, item);
        proof {
            assert(self.leaves() == leaves);
            assert(self.tables_wf());
            assert forall|node: u64|
                1 <= node < pow2(self.tree_depth as nat) && (!covers(
                    node as nat,
                    self.height_of(node as nat),
                    leaf,
                ) || self.height_of(node as nat) < 1) implies #[trigger] self.good_at(
                leaves,
                node,
            ) by {
                lemma_node_depth_below(node as nat, self.tree_depth as nat);
                if covers(node as nat, self.height_of(node as nat), leaf) {
                    lemma_covers_unique(node as nat, leaf, 0, leaf);
                } else {
                    assert(before.good_at(before.leaves(), node));
                    lemma_insert_elsewhere(
                        self.hasher,
                        self.prehashed@[self.tree_depth - 1],
                        before.leaves(),
                        leaf,
                        hash,
                        self.height_of(node as nat),
                        node as nat,
                    );
                }
            }
            lemma_u64_shr_is_div(hash_index, 1);
        }
        let ghost mut height: nat = 1;
        let ghost mut below: u64 = hash_index;
        let mut node: u64 = hash_index >> 1u64;
        while node > 0
            invariant
                self.tables_wf(),
                self.tree_depth == before.tree_depth,
                self.prehashed@ == before.prehashed@,
                self.hasher == before.hasher,
                self.items@ == before.items@.insert(i, item),
                self.leaves() == leaves,
                1 <= height <= self.tree_depth,
                node < pow2(self.tree_depth as nat),
                node == 0 ==> height == self.tree_depth,
                node > 0 ==> node_depth(node as nat) + height + 1 == self.tree_depth && covers(
                    node as nat,
                    height,
                    leaf,
                ),
                self.hashes@.contains_key(below),
                node > 0 ==> below == 2 * node || below == 2 * node + 1,
                forall|n: u64|
                    1 <= n < pow2(self.tree_depth as nat) && (!covers(
                        n as nat,
                        self.height_of(n as nat),
                        leaf,
                    ) || self.height_of(n as nat) < height) ==> #[trigger] self.good_at(leaves, n),
            decreases node,
        {
            let ghost mid = *self;
            proof {
                lemma_pow2_small(self.tree_depth as nat);
                assert(mid.good_at(leaves, (2 * node) as u64)) by {
                    lemma_node_depth_children(node as nat);
                    lemma_pow2_unfold(self.tree_depth as nat);
                    lemma_node_depth_below((2 * node) as nat, self.tree_depth as nat);
                }
                assert(mid.good_at(leaves, (2 * node + 1) as u64)) by {
                    lemma_node_depth_children(node as nat);
                    lemma_pow2_unfold(self.tree_depth as nat);
                    lemma_node_depth_below((2 * node + 1) as nat, self.tree_depth as nat);
                }
            }
            self.update_hash(node);
            proof {
                lemma_node_depth_children(node as nat);
                assert(self.good_at(leaves, node));
                assert forall|n: u64|
                    1 <= n < pow2(self.tree_depth as nat) && (!covers(
                        n as nat,
                        self.height_of(n as nat),
                        leaf,
                    ) || self.height_of(n as nat) < height + 1) implies #[trigger] self.good_at(
                    leaves,
                    n,
                ) by {
                    if n != node {
                        if covers(n as nat, self.height_of(n as nat), leaf) && self.height_of(
                            n as nat,
                        ) == height {
                            lemma_covers_unique(n as nat, node as nat, height, leaf);
                        }
                        assert(mid.good_at(leaves, n));
                    }
                }
                lemma2_to64();
                lemma_u64_shr_is_div(node, 1);
                lemma_covers_parent(node as nat, height, leaf);
                below = node;
                height = height + 1;
            }
            node >>= 1u64;
        }
        proof {
            assert forall|n: u64| 1 <= n < pow2(self.tree_depth as nat) implies #[trigger] self.good_at(
                self.leaves(),
                n,
            ) by {
                lemma_node_depth_below(n as nat, self.tree_depth as nat);
            }
        }
    }

    /// The hash of the root, which commits to the contents.
    pub fn root_hash(&self) -> (hash: Hash)
        requires
            self.wf(),
        ensures
            cloned(self.spec_root_hash(), hash),
    {
        proof {
            lemma_pow2_pos(self.tree_depth as nat);
            lemma_pow2_strictly_increases(0, self.tree_depth as nat);
            lemma2_to64();
        }
        self.get_hash(1)
    }

    /// The Merkle path of slot `i`: for each level from the leaves up to the
    /// level below the root, the hash of the sibling of the slot's ancestor
    /// on that level, and whether that ancestor is a right child.
    pub fn merkle_path(&self, i: u32) -> (path: Vec<(Hash, bool)>)
        requires
            self.wf(),
            i < self.first_leaf(),
        ensures
            path@.len() == self.spec_depth() - 1,
            forall|k: int|
                0 <= k < path@.len() ==> cloned(
                    self.spec_merkle_path(i)[k].0,
                    (#[trigger] path@[k]).0,
                ) && path@[k].1 == self.spec_merkle_path(i)[k].1,
    {
        let item_hash_index: u64 = self.leaf_base() + (i as u64);
        let ghost leaf = item_hash_index as nat;
        let levels: u64 = (self.tree_depth - 1) as u64;
        let mut path: Vec<(Hash, bool)> = Vec::new();
        let mut level: u64 = 0;
        proof {
            lemma_ancestor_step(leaf, 0);
            lemma_node_depth_unique(leaf, levels as nat);
        }
        while level < levels
            invariant
                self.wf(),
                levels == self.tree_depth - 1,
                leaf == item_hash_index,
                leaf == self.first_leaf() + i,
                level <= levels,
                node_depth(ancestor(leaf, level as nat)) + level == levels,
                path@.len() == level,
                forall|k: int|
                    0 <= k < path@.len() ==> cloned(
                        self.spec_merkle_path(i)[k].0,
                        (#[trigger] path@[k]).0,
                    ) && path@[k].1 == self.spec_merkle_path(i)[k].1,
            decreases levels - level,
        {
            let dir = item_hash_index & (1u64 << level) > 0;
            let hash_index: u64 = (item_hash_index >> level) ^ 1;
            proof {
                let on_path = item_hash_index >> level;
                lemma_u64_shr_is_div(item_hash_index, level);
                assert(on_path == ancestor(leaf, level as nat));
                assert(dir == (on_path % 2 == 1)) by (bit_vector)
                    requires
                        level < 64,
                        on_path == item_hash_index >> level,
                        dir == (item_hash_index & (1u64 << level) > 0),
                ;
                assert(on_path >= 2);
                lemma_node_depth_below(on_path as nat, self.tree_depth as nat);
                lemma_pow2_small(self.tree_depth as nat);
                assert(hash_index == if on_path % 2 == 1 {
                    (on_path - 1) as u64
                } else {
                    (on_path + 1) as u64
                }) by (bit_vector)
                    requires
                        hash_index == on_path ^ 1,
                        2 <= on_path < 0x1_0000_0000_0000,
                ;
                assert(hash_index as nat == sibling(on_path as nat));
                assert(hash_index / 2 == on_path / 2);
                assert(node_depth(hash_index as nat) == node_depth(on_path as nat));
                lemma_node_depth_below(hash_index as nat, self.tree_depth as nat);
                lemma_ancestor_step(leaf, level as nat);
            }
            let hash = self.get_hash(hash_index);
            path.push((hash, dir));
            level += 1;
        }
        path
    }
}

} // verus!
