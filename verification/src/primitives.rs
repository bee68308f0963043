//! The encoding capability of leaf content.
use vstd::prelude::*;

verus! {

/// Content with a canonical little-endian bit encoding: the same content
/// always yields the same bits.
pub trait GetBits {
    /// The canonical bit encoding of this content.
    open spec fn spec_bits_le(&self) -> Seq<bool> {
        arbitrary()
    }

    /// Encodes this content as its canonical bit sequence.
    fn get_bits_le(&self) -> (bits: Vec<bool>)
        ensures
            bits@ == self.spec_bits_le(),
    ;
}

} // verus!
