//! The decisions of document composition. Composing a document reads the
//! files it names, one after the other, and composes each before merging it;
//! the reading is the caller's. Here stand the two steps around it: starting
//! a composition, and taking in what became of one file.
use vstd::prelude::*;

use crate::ast::{directive_keyword, directive_keyword_string, Document, DocumentModel};
use crate::diagnostics::{semantic_diag, Diagnostic, DiagnosticBag, DiagnosticModel};
use crate::inclusion::{resolve_include_paths, resolve_model};
use crate::merge::{merge_diagnostics, merge_into, merge_model};
use crate::text::{push_str, string_of};

verus! {

/// A document being composed, with the diagnostics gathered so far.
pub struct Composition {
    pub document: Document,
    pub diagnostics: DiagnosticBag,
}

/// What became of one file that a document composes.
pub enum ComposedFile {
    /// The file is already being composed further up: the cycle's diagnostic.
    Circular(Diagnostic),
    /// The file could not be read; the text says why.
    Unreadable(String),
    /// The file was read but did not parse: its diagnostics.
    Unparsable(DiagnosticBag),
    /// The file was read, parsed and composed itself: the composed document
    /// and the diagnostics of its own composition.
    Composed(Document, DiagnosticBag),
}

/// The message of a file that could not be read.
pub open spec fn unreadable_message(path: Seq<char>, reason: Seq<char>) -> Seq<char> {
    "cannot read "@ + directive_keyword() + " file `"@ + path + "`: "@ + reason
}

/// The diagnostic (`E115`) of a file that could not be read.
pub open spec fn unreadable_diag(path: Seq<char>, reason: Seq<char>) -> DiagnosticModel {
    semantic_diag(unreadable_message(path, reason), None, "E115"@)
}

/// `d` with its directive removed.
pub open spec fn without_directive(d: DocumentModel) -> DocumentModel {
    DocumentModel { includes: None, ..d }
}

/// Starts composing `document`, whose file lies in `source_dir`. Where the
/// directive names a refused path, the composition holds the document as it
/// was and every refusal, and there is nothing to read. Otherwise the
/// directive is consumed (it must not appear in the composed output), no
/// diagnostic is gathered yet, and the files to read come back in order.
pub fn begin_composition(document: Document, source_dir: &str) -> (r: (Composition, Vec<String>))
    ensures
        match resolve_model(document@, source_dir@) {
            Ok(ps) => {
                &&& r.0.document@ == without_directive(document@)
                &&& r.0.diagnostics@ == Seq::<DiagnosticModel>::empty()
                &&& r.1@.map_values(|s: String| s@) == ps
            },
            Err(es) => {
                &&& r.0.document@ == document@
                &&& r.0.diagnostics@ == es
                &&& r.1@.len() == 0
            },
        },
{
    match resolve_include_paths(&document, source_dir) {
        Ok(paths) => {
            let mut document = document;
            document.includes = None;
            (Composition { document, diagnostics: DiagnosticBag::new() }, paths)
        },
        Err(errors) => (Composition { document, diagnostics: errors }, Vec::new()),
    }
}

/// Takes in what became of the file at `path`: a cycle's diagnostic, or the
/// reason it could not be read (`E115`), or its parse errors, is added to
/// the diagnostics and the document stays as it was; a composed file adds the
/// diagnostics of its own composition, then is merged into the document,
/// whose conflicts (`E117`) follow.
pub fn absorb(state: &mut Composition, path: &str, outcome: ComposedFile)
    ensures
        match outcome {
            ComposedFile::Circular(d) => {
                &&& final(state).document@ == old(state).document@
                &&& final(state).diagnostics@ == old(state).diagnostics@.push(d@)
            },
            ComposedFile::Unreadable(reason) => {
                &&& final(state).document@ == old(state).document@
                &&& final(state).diagnostics@ == old(state).diagnostics@.push(
                    unreadable_diag(path@, reason@),
                )
            },
            ComposedFile::Unparsable(errs) => {
                &&& final(state).document@ == old(state).document@
                &&& final(state).diagnostics@ == old(state).diagnostics@ + errs@
            },
            ComposedFile::Composed(child, child_diags) => {
                &&& final(state).document@ == merge_model(old(state).document@, child@)
                &&& final(state).diagnostics@ == old(state).diagnostics@ + child_diags@
                    + merge_diagnostics(old(state).document@, child@, path@)
            },
        },
{
    match outcome {
        ComposedFile::Circular(d) => {
            state.diagnostics.push(d);
        },
        ComposedFile::Unreadable(reason) => {
            let mut m = string_of("cannot read ");
            let kw = directive_keyword_string();
            push_str(&mut m, kw.as_str());
            push_str(&mut m, " file `");
            push_str(&mut m, path);
            push_str(&mut m, "`: ");
            push_str(&mut m, reason.as_str());
            state.diagnostics.push(Diagnostic::semantic_error(m, None).with_code("E115"));
        },
        ComposedFile::Unparsable(errs) => {
            state.diagnostics.extend(errs);
        },
        ComposedFile::Composed(child, child_diags) => {
            state.diagnostics.extend(child_diags);
            let merged = merge_into(&mut state.document, child, path);
            state.diagnostics.extend(merged);
        },
    }
}

/// `d` with the composed files `children` merged into it in order.
pub open spec fn merged_in_order(d: DocumentModel, children: Seq<DocumentModel>) -> DocumentModel
    decreases children.len(),
{
    if children.len() == 0 {
        d
    } else {
        merge_model(merged_in_order(d, children.drop_last()), children.last())
    }
}

/// Once a composition has begun, its document holds no directive, whatever
/// composed files are merged into it.
pub proof fn law_composition_drops_directive(d: DocumentModel, children: Seq<DocumentModel>)
    ensures
        merged_in_order(without_directive(d), children).includes is None,
    decreases children.len(),
{
    if children.len() > 0 {
        law_composition_drops_directive(d, children.drop_last());
    }
}

} // verus!
