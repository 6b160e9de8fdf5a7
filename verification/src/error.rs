//! The errors of a merge.

use vstd::prelude::*;
use crate::object::ObjectId;

verus! {

/// Why a merge produced no document.
#[derive(Clone, Copy, Debug, PartialEq, Eq)]
pub enum MergeError {
    /// The objects hold no top-level descriptor, or no root of a pages tree.
    MissingCatalogOrPages,
    /// The leaf with this identifier is not a dictionary.
    PageNotDictionary(ObjectId),
    /// The top-level descriptor or the root of the pages tree that was to be written
    /// under this identifier is not a dictionary.
    AnchorNotDictionary(ObjectId),
    /// A leaf or a reference names an identifier that the document does not hold.
    ObjectNotFound(ObjectId),
    /// A chain of references is longer than a reader follows.
    ReferenceLimit,
    /// The objects are more than can be counted, or numbering them would need an object
    /// number that does not fit in 32 bits.
    NumberOutOfRange,
}

impl MergeError {
    /// Whether the error says that the structure of the input is at fault.
    pub open spec fn is_structural(self) -> bool {
        self is MissingCatalogOrPages || self is PageNotDictionary || self is AnchorNotDictionary
    }
}

} // verus!
