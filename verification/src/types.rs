use vstd::prelude::*;

verus! {

/// Identifier of a term in the dictionary.
pub type TermId = u32;

/// Identifier of a document; also used for term frequencies and positions.
pub type DocId = u64;

/// A dictionary term together with its identifier.
#[derive(Clone, Debug)]
pub struct Term {
    pub term: String,
    pub term_id: TermId,
}

} // verus!
