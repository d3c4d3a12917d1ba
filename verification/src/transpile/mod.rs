//! Output targets: the canonical plain surface form, a JSON object
//! representation, and the compact shadow encodings.
use vstd::prelude::*;

use crate::ast::{
    document_within_depth, field, lemma_entries_among_fields, ordered_keys, Document, DocumentModel,
    NodeModel, TopLevelKey,
};
use crate::transpile::vars::{document_bindings, expand_document_model};
use crate::provider::{ProfileError, Provider};
use crate::transpile::json_ir::{json_document, JsonIrEmitter};
use crate::transpile::plain::{plain_document, PlainEmitter};
use crate::transpile::shadow::{emit_with_provider, shadow_document};

pub mod vars;
pub mod json_ir;
pub mod plain;
pub mod shadow;

verus! {

/// A renderer of documents into one output target.
pub trait Emitter {
    /// What `emit` returns for a document.
    spec fn rendering(&self, d: DocumentModel) -> Seq<char>;

    fn emit(&self, document: &Document) -> (r: String)
        requires
            document_within_depth(document@),
        ensures
            r@ == self.rendering(document@),
    ;
}

/// An output target.
#[derive(Clone, Copy, Debug, PartialEq, Eq, Structural)]
pub enum Target {
    Plain,
    Shadow,
    JsonIr,
}

/// The output for `target`, with `provider` choosing the shadow encoding.
pub open spec fn transpile_model(d: DocumentModel, target: Target, provider: Provider) -> Seq<char> {
    match target {
        Target::Plain => plain_document(d),
        Target::Shadow => shadow_document(d, provider),
        Target::JsonIr => json_document(d),
    }
}

/// The output for `target` with the generic provider.
pub fn transpile(document: &Document, target: Target) -> (r: String)
    requires
        document_within_depth(document@),
    ensures
        r@ == transpile_model(document@, target, Provider::Generic),
{
    match transpile_with_provider(document, target, Provider::Generic) {
        Ok(s) => s,
        Err(_) => {
            proof {
                assert(false);
            }
            String::new()
        },
    }
}

/// The output for `target`, with `provider` choosing the shadow encoding.
/// Every provider has a shadow encoding, so this always succeeds.
pub fn transpile_with_provider(document: &Document, target: Target, provider: Provider) -> (r:
    Result<String, ProfileError>)
    requires
        document_within_depth(document@),
    ensures
        r is Ok,
        r matches Ok(s) ==> s@ == transpile_model(document@, target, provider),
{
    match target {
        Target::Plain => Ok(PlainEmitter.emit(document)),
        Target::Shadow => emit_with_provider(document, provider),
        Target::JsonIr => Ok(JsonIrEmitter.emit(document)),
    }
}

/// The composition directive never reaches an output: documents that
/// differ only there are rendered alike, for every target and provider.
pub proof fn law_outputs_ignore_directive(
    d: DocumentModel,
    directive: Option<NodeModel>,
    target: Target,
    provider: Provider,
)
    ensures
        transpile_model(DocumentModel { includes: directive, ..d }, target, provider) == transpile_model(
            d,
            target,
            provider,
        ),
{
    let d2 = DocumentModel { includes: directive, ..d };
    let e1 = expand_document_model(d);
    let e2 = expand_document_model(d2);
    assert(document_bindings(d2) == document_bindings(d));
    assert forall|k: TopLevelKey| #[trigger] field(e1, k) == field(e2, k) by {}
    lemma_entries_among_fields(e1, e2, ordered_keys());
}

/// The provider is ignored by the `plain` and `json-ir` targets: only the
/// `shadow` encoding depends on it.
pub proof fn law_only_shadow_depends_on_provider(d: DocumentModel, target: Target, p1: Provider, p2: Provider)
    requires
        target != Target::Shadow,
    ensures
        transpile_model(d, target, p1) == transpile_model(d, target, p2),
{
}

} // verus!
