//! Plain record types shared with the tool's collaborators.

use vstd::prelude::*;
use crate::spans::Span;

verus! {

/// A raw text record, as the text source hands it over.
pub struct Text {
    pub text: String,
}

/// One document's annotations in the shape the spaCy-style export uses.
pub struct SpacyEntity {
    pub entity: Vec<Span>,
}

} // verus!
