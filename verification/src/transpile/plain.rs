//! The `plain` target: the canonical surface form with every reference to a
//! variable replaced by its value.
use vstd::prelude::*;

use crate::ast::{Document, DocumentModel};
use crate::formatter::{format_document, format_model};
use crate::transpile::vars::{document_bindings, document_reference_free, law_expand_document_without_bindings, law_expand_document_without_references, expand_document, expand_document_model, lemma_expand_document_within_depth};
use crate::transpile::Emitter;

verus! {

/// The `plain` output: the canonical form of the document with its
/// references expanded.
pub open spec fn plain_document(d: DocumentModel) -> Seq<char> {
    format_model(expand_document_model(d))
}

/// The `plain` emitter.
pub struct PlainEmitter;

impl Emitter for PlainEmitter {
    open spec fn rendering(&self, d: DocumentModel) -> Seq<char> {
        plain_document(d)
    }

    /// Expands the references, then formats.
    fn emit(&self, document: &Document) -> (r: String) {
        let expanded = expand_document(document);
        proof {
            lemma_expand_document_within_depth(document@);
        }
        format_document(&expanded)
    }
}

/// Without bindings, the `plain` output is the canonical form itself.
pub proof fn law_plain_without_bindings(d: DocumentModel)
    requires
        document_bindings(d).len() == 0,
    ensures
        plain_document(d) == format_model(d),
{
    law_expand_document_without_bindings(d);
}

/// For a document without references, the `plain` output is the canonical
/// form itself.
pub proof fn law_plain_without_references(d: DocumentModel)
    requires
        document_reference_free(d),
    ensures
        plain_document(d) == format_model(d),
{
    law_expand_document_without_references(d);
}

} // verus!
