//! Dense numeric identifiers, handed out in insertion order.

use vstd::prelude::*;

verus! {

/// Identifies an interned term.
#[derive(Debug, Clone, Copy, Hash, PartialEq, Eq, Structural)]
pub struct TermId(pub u32);

/// Identifies a registered field.
#[derive(Debug, Clone, Copy, Hash, PartialEq, Eq, Structural)]
pub struct FieldId(pub u32);

/// Identifies an inserted document.
#[derive(Debug, Clone, Copy, Hash, PartialEq, Eq, Structural)]
pub struct DocumentId(pub u32);

/// Whether the documents come in strictly rising order, so that none comes
/// twice.
pub open spec fn rising(docs: Seq<DocumentId>) -> bool {
    forall|a: int, b: int| 0 <= a < b < docs.len() ==> docs[a].0 < docs[b].0
}

} // verus!
