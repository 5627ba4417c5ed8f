//! The conversion's error taxonomy. Any of these aborts the whole call:
//! no partial result is handed out.

use vstd::prelude::*;

verus! {

/// Why a conversion failed.
#[derive(Debug)]
pub enum BemError {
    /// The input is not well-formed XML; carries the loader's message.
    DocumentSyntax { message: String },
    /// A required child element, or its text, is absent; carries the tag
    /// looked for.
    MissingElement { tag: String },
    /// A required attribute is absent; carries the element's tag and the
    /// attribute's name.
    MissingAttribute { tag: String, attribute: String },
    /// Numeric text failed to parse, fewer than three coordinate children
    /// exist for a point, or a mesh outgrew its index type.
    MalformedGeometry { detail: String },
}

} // verus!
