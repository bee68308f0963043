//! The hashing capability that a tree is built over.
use vstd::prelude::*;

verus! {

/// A deterministic hash over bit sequences together with a two-input,
/// level-indexed compression function.
///
/// Each executable method is tied to a mathematical function of its
/// arguments. An implementation states that function by overriding the
/// specification method; where it does not, nothing is known of the function
/// beyond its being one.
pub trait Hasher<Hash> {
    /// The hash of an ordered bit sequence.
    open spec fn spec_hash_bits(&self, bits: Seq<bool>) -> Hash {
        arbitrary()
    }

    /// The combination of a left and a right child hash, `level` levels
    /// above the leaf-parent level.
    open spec fn spec_compress(&self, lhs: Hash, rhs: Hash, level: nat) -> Hash {
        arbitrary()
    }

    /// Hashes an ordered bit sequence.
    fn hash_bits(&self, bits: Vec<bool>) -> (hash: Hash)
        ensures
            hash == self.spec_hash_bits(bits@),
    ;

    /// Combines two child hashes into their parent's hash; `i` selects the
    /// per-level domain separation, counted from the leaf side.
    fn compress(&self, lhs: &Hash, rhs: &Hash, i: usize) -> (hash: Hash)
        ensures
            hash == self.spec_compress(*lhs, *rhs, i as nat),
    ;
}

} // verus!
