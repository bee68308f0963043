use sparse_merkle_tree::{GetBits, Hasher, SparseMerkleTree};

#[derive(Debug)]
struct TestHasher {}

struct TestLeaf(u64);

impl Default for TestLeaf {
    fn default() -> Self {
        TestLeaf(0)
    }
}

impl GetBits for TestLeaf {
    fn get_bits_le(&self) -> Vec<bool> {
        let mut acc = Vec::new();
        let mut i: u64 = self.0 + 1;
        for _ in 0..16 {
            acc.push(i & 1 == 1);
            i >>= 1;
        }
        acc
    }
}

impl Default for TestHasher {
    fn default() -> Self {
        Self {}
    }
}

impl Hasher<u64> for TestHasher {
    fn hash_bits(&self, value: Vec<bool>) -> u64 {
        let mut acc: u64 = 0;
        for i in value.iter() {
            acc <<= 1;
            if *i {
                acc |= 1
            };
        }
        acc
    }

    fn compress(&self, lhs: &u64, rhs: &u64, _i: usize) -> u64 {
        11 * lhs + 17 * rhs + 1
    }
}

type TestSMT = SparseMerkleTree<TestLeaf, u64, TestHasher>;

/// A hasher whose combination depends on the level and on the order of its
/// arguments, with arithmetic that wraps.
#[derive(Debug)]
struct LevelHasher {}

impl Default for LevelHasher {
    fn default() -> Self {
        Self {}
    }
}

impl Hasher<u64> for LevelHasher {
    fn hash_bits(&self, value: Vec<bool>) -> u64 {
        let mut acc: u64 = 7;
        for bit in value.iter() {
            acc = acc.wrapping_mul(31).wrapping_add(if *bit { 2 } else { 1 });
        }
        acc
    }

    fn compress(&self, lhs: &u64, rhs: &u64, i: usize) -> u64 {
        lhs.wrapping_mul(1_000_003)
            .wrapping_add(rhs.wrapping_mul(998_244_353))
            .wrapping_add((i as u64 + 1).wrapping_mul(0x9E37_79B9_7F4A_7C15))
    }
}

type LevelSMT = SparseMerkleTree<TestLeaf, u64, LevelHasher>;

/// The root of the full tree over `leaves`, computed level by level.
fn full_tree_root<H: Hasher<u64>>(hasher: &H, leaves: &[u64]) -> u64 {
    let mut row: Vec<u64> = leaves.to_vec();
    let mut level: usize = 0;
    while row.len() > 1 {
        let mut next: Vec<u64> = Vec::new();
        for pair in row.chunks(2) {
            next.push(hasher.compress(&pair[0], &pair[1], level));
        }
        row = next;
        level += 1;
    }
    row[0]
}

/// What a verifier computes from a leaf hash and a path.
fn recombine<H: Hasher<u64>>(hasher: &H, leaf_hash: u64, path: &[(u64, bool)]) -> u64 {
    let mut cur: u64 = leaf_hash;
    for (level, (sibling, is_right)) in path.iter().enumerate() {
        cur = if *is_right {
            hasher.compress(sibling, &cur, level)
        } else {
            hasher.compress(&cur, sibling, level)
        };
    }
    cur
}

fn leaf_hash<H: Hasher<u64>>(hasher: &H, value: u64) -> u64 {
    hasher.hash_bits(TestLeaf(value).get_bits_le())
}

#[test]
fn test_merkle_tree_props() {
    assert_eq!(TestSMT::depth(1), 0);
    assert_eq!(TestSMT::depth(2), 1);
    assert_eq!(TestSMT::depth(3), 1);
    assert_eq!(TestSMT::depth(4), 2);
}

#[test]
fn test_merkle_tree_insert() {
    let mut tree = TestSMT::new(3);

    assert_eq!(tree.capacity(), 4);
    assert_eq!(tree.hash_capacity(), 7);

    tree.insert(0, TestLeaf(1));
    assert_eq!(tree.root_hash(), 23707677);

    tree.insert(3, TestLeaf(2));
    assert_eq!(tree.root_hash(), 28442653);
}

#[test]
fn test_merkle_path() {
    let mut tree = TestSMT::new(3);
    tree.insert(2, TestLeaf(1));
    let path = tree.merkle_path(2);
    // A tree of depth 3 has two levels below its root, so its paths end
    // after the second of these entries; the third is the one that a tree
    // of depth 4 adds (see `merkle_path_of_depth_four`).
    let entries = [(32768, false), (917505, true), (25690141, false)];
    assert_eq!(path[..], entries[..2]);
}

#[test]
fn merkle_path_of_depth_four() {
    let mut tree = TestSMT::new(4);
    tree.insert(2, TestLeaf(1));
    let path = tree.merkle_path(2);
    assert_eq!(path, [(32768, false), (917505, true), (25690141, false)]);
}

#[test]
fn depth_is_floor_of_binary_logarithm() {
    let mut n: u64 = 1;
    while n <= 5000 {
        assert_eq!(TestSMT::depth(n) as u32, 63 - n.leading_zeros());
        n += 1;
    }
    assert_eq!(TestSMT::depth(7), 2);
    assert_eq!(TestSMT::depth(8), 3);
    assert_eq!(TestSMT::depth((1 << 32) - 1), 31);
    assert_eq!(TestSMT::depth(1 << 32), 32);
    assert_eq!(TestSMT::depth(u64::MAX), 63);
}

#[test]
fn capacities_for_every_depth() {
    let mut d: u32 = 2;
    while d <= 32 {
        let tree = LevelSMT::new(d);
        assert_eq!(tree.capacity(), 1u32 << (d - 1));
        assert_eq!(tree.hash_capacity(), (1u64 << d) - 1);
        d += 1;
    }
    assert_eq!(LevelSMT::new(2).capacity(), 2);
    assert_eq!(LevelSMT::new(2).hash_capacity(), 3);
    assert_eq!(LevelSMT::new(32).capacity(), 2147483648);
    assert_eq!(LevelSMT::new(32).hash_capacity(), 4294967295);
}

#[test]
fn fresh_root_is_the_empty_tree_hash() {
    assert_eq!(TestSMT::new(2).root_hash(), 917505);
    assert_eq!(TestSMT::new(3).root_hash(), 25690141);
    assert_eq!(TestSMT::new(4).root_hash(), 719323949);
    let hasher = LevelHasher {};
    let empty = leaf_hash(&hasher, 0);
    let mut d: u32 = 2;
    while d <= 8 {
        let leaves = vec![empty; 1usize << (d - 1)];
        assert_eq!(LevelSMT::new(d).root_hash(), full_tree_root(&hasher, &leaves));
        d += 1;
    }
}

#[test]
fn empty_subtree_hashes_by_depth() {
    let tree = TestSMT::new(3);
    assert_eq!(tree.get_hash(1), 25690141);
    assert_eq!(tree.get_hash(2), 917505);
    assert_eq!(tree.get_hash(3), 917505);
    assert_eq!(tree.get_hash(4), 32768);
    assert_eq!(tree.get_hash(7), 32768);
}

#[test]
fn insert_stores_the_leaf_hash_and_updates_ancestors() {
    let mut tree = TestSMT::new(3);
    tree.insert(0, TestLeaf(1));
    assert_eq!(tree.get_hash(4), 16384);
    assert_eq!(tree.get_hash(5), 32768);
    assert_eq!(tree.get_hash(2), 737281);
    assert_eq!(tree.get_hash(3), 917505);
    assert_eq!(tree.get_hash(1), 23707677);
    tree.insert(3, TestLeaf(2));
    assert_eq!(tree.get_hash(7), 49152);
    assert_eq!(tree.get_hash(3), 1196033);
    assert_eq!(tree.get_hash(2), 737281);
}

#[test]
fn inserting_the_same_content_twice_keeps_the_root() {
    let mut d: u32 = 2;
    while d <= 6 {
        let mut slot: u32 = 0;
        while slot < (1u32 << (d - 1)) {
            let mut tree = LevelSMT::new(d);
            tree.insert(slot, TestLeaf(41));
            let once = tree.root_hash();
            let path_once = tree.merkle_path(slot);
            tree.insert(slot, TestLeaf(41));
            assert_eq!(tree.root_hash(), once);
            assert_eq!(tree.merkle_path(slot), path_once);
            slot += 1;
        }
        d += 1;
    }
}

#[test]
fn root_is_that_of_the_full_tree() {
    let hasher = LevelHasher {};
    let d: u32 = 5;
    let mut tree = LevelSMT::new(d);
    let mut leaves = vec![leaf_hash(&hasher, 0); 16];
    let fills: [(u32, u64); 7] = [(3, 9), (0, 1), (15, 77), (8, 5), (3, 10), (7, 0), (9, 65534)];
    for (slot, value) in fills.iter() {
        tree.insert(*slot, TestLeaf(*value));
        leaves[*slot as usize] = leaf_hash(&hasher, *value);
        assert_eq!(tree.root_hash(), full_tree_root(&hasher, &leaves));
    }
}

#[test]
fn path_recombines_to_the_root() {
    let hasher = LevelHasher {};
    let mut d: u32 = 2;
    while d <= 6 {
        let slots: u32 = 1u32 << (d - 1);
        let mut tree = LevelSMT::new(d);
        let mut values: Vec<u64> = vec![0; slots as usize];
        let mut slot: u32 = 0;
        while slot < slots {
            if slot % 3 != 1 {
                tree.insert(slot, TestLeaf(slot as u64 * 5 + 2));
                values[slot as usize] = slot as u64 * 5 + 2;
            }
            slot += 1;
        }
        let root = tree.root_hash();
        slot = 0;
        while slot < slots {
            let path = tree.merkle_path(slot);
            let own = leaf_hash(&hasher, values[slot as usize]);
            assert_eq!(recombine(&hasher, own, &path), root);
            slot += 1;
        }
        d += 1;
    }
}

#[test]
fn path_recombines_to_the_root_with_the_reference_hasher() {
    let hasher = TestHasher {};
    let mut tree = TestSMT::new(3);
    tree.insert(0, TestLeaf(1));
    tree.insert(3, TestLeaf(2));
    assert_eq!(recombine(&hasher, 16384, &tree.merkle_path(0)), 28442653);
    assert_eq!(recombine(&hasher, 32768, &tree.merkle_path(1)), 28442653);
    assert_eq!(recombine(&hasher, 32768, &tree.merkle_path(2)), 28442653);
    assert_eq!(recombine(&hasher, 49152, &tree.merkle_path(3)), 28442653);
}

#[test]
fn path_has_one_entry_for_each_level_below_the_root() {
    let mut d: u32 = 2;
    while d <= 32 {
        let mut tree = LevelSMT::new(d);
        assert_eq!(tree.merkle_path(0).len(), (d - 1) as usize);
        let last: u32 = ((1u64 << (d - 1)) - 1) as u32;
        tree.insert(last, TestLeaf(3));
        assert_eq!(tree.merkle_path(last).len(), (d - 1) as usize);
        assert_eq!(tree.merkle_path(last / 2).len(), (d - 1) as usize);
        d += 1;
    }
}

#[test]
fn path_directions_follow_the_bits_of_the_slot() {
    let tree = TestSMT::new(4);
    let mut slot: u32 = 0;
    while slot < 8 {
        let path = tree.merkle_path(slot);
        let dirs: Vec<bool> = path.iter().map(|entry| entry.1).collect();
        assert_eq!(dirs, vec![slot & 1 == 1, slot & 2 == 2, slot & 4 == 4]);
        let hashes: Vec<u64> = path.iter().map(|entry| entry.0).collect();
        assert_eq!(hashes, vec![32768, 917505, 25690141]);
        slot += 1;
    }
}

#[test]
fn path_of_a_neighbour_holds_the_inserted_leaf() {
    let mut tree = TestSMT::new(3);
    tree.insert(2, TestLeaf(1));
    assert_eq!(tree.merkle_path(3), [(16384, true), (917505, true)]);
    assert_eq!(tree.merkle_path(0), [(32768, false), (737281, false)]);
    assert_eq!(tree.merkle_path(2), [(32768, false), (917505, true)]);
}

#[test]
fn tree_of_depth_two() {
    let hasher = LevelHasher {};
    let mut tree = LevelSMT::new(2);
    assert_eq!(tree.capacity(), 2);
    tree.insert(1, TestLeaf(4));
    let left = leaf_hash(&hasher, 0);
    let right = leaf_hash(&hasher, 4);
    assert_eq!(tree.root_hash(), hasher.compress(&left, &right, 0));
    assert_eq!(tree.merkle_path(1), [(left, true)]);
    assert_eq!(tree.merkle_path(0), [(right, false)]);
}

#[test]
fn inserting_the_default_content_restores_the_empty_root() {
    let mut tree = LevelSMT::new(6);
    let empty_root = tree.root_hash();
    tree.insert(17, TestLeaf(12));
    assert_ne!(tree.root_hash(), empty_root);
    tree.insert(17, TestLeaf::default());
    assert_eq!(tree.root_hash(), empty_root);
    assert_eq!(tree.merkle_path(17), LevelSMT::new(6).merkle_path(17));
}

#[test]
fn overwriting_a_slot_forgets_the_earlier_content() {
    let mut tree = LevelSMT::new(5);
    tree.insert(6, TestLeaf(1));
    tree.insert(6, TestLeaf(2));
    let mut other = LevelSMT::new(5);
    other.insert(6, TestLeaf(2));
    assert_eq!(tree.root_hash(), other.root_hash());
}

#[test]
fn order_of_insertions_does_not_matter() {
    let mut tree = LevelSMT::new(5);
    tree.insert(6, TestLeaf(1));
    tree.insert(11, TestLeaf(2));
    tree.insert(0, TestLeaf(3));
    let mut other = LevelSMT::new(5);
    other.insert(0, TestLeaf(3));
    other.insert(11, TestLeaf(2));
    other.insert(6, TestLeaf(1));
    assert_eq!(tree.root_hash(), other.root_hash());
    assert_eq!(tree.merkle_path(7), other.merkle_path(7));
}

#[test]
fn deepest_tree_takes_its_last_slot() {
    let hasher = LevelHasher {};
    let mut tree = LevelSMT::new(32);
    let last: u32 = 2147483647;
    tree.insert(last, TestLeaf(9));
    let path = tree.merkle_path(last);
    assert_eq!(path.len(), 31);
    assert!(path.iter().all(|entry| entry.1));
    assert_eq!(recombine(&hasher, leaf_hash(&hasher, 9), &path), tree.root_hash());
    let first = tree.merkle_path(0);
    assert!(first.iter().all(|entry| !entry.1));
    assert_eq!(recombine(&hasher, leaf_hash(&hasher, 0), &first), tree.root_hash());
}
