//! What the command-line commands decide and print, once their files are
//! read: the verdict lines, the reports of failed checks, the parse summary,
//! the checks that gate rendering, and whether an output file may be written.
use vstd::prelude::*;

use crate::ast::{document_within_depth, key_name, ordered_entries_of, Document, DocumentModel, Node, TopLevelKey};
use crate::diagnostics::{error_total, has_error, render_diag, DiagnosticBag, DiagnosticModel};
use crate::formatter::{format_document, format_model};
use crate::pipeline::{count_document_nodes, pairs_count};
use crate::provider::Provider;
use crate::text::{decimal, decimal_string, join, push_str, string_of};
use crate::transpile::{transpile_model, transpile_with_provider, Target};
use crate::validator::{validate_document, validate_model};

verus! {

// ---------------------------------------------------------------------------
// Verdicts and reports.
// ---------------------------------------------------------------------------

/// Every diagnostic rendered, one per line: the text of a bag.
pub open spec fn bag_text(ds: Seq<DiagnosticModel>) -> Seq<char> {
    join(ds.map_values(|d: DiagnosticModel| render_diag(d)), "\n"@)
}

/// `  ({n} error(s))`.
pub open spec fn error_phrase(errors: nat) -> Seq<char> {
    "  ("@ + decimal(errors) + " error(s))"@
}

/// The verdict on a document that failed its checks.
pub open spec fn invalid_line(label: Seq<char>, errors: nat) -> Seq<char> {
    "✗ invalid  "@ + label + error_phrase(errors)
}

/// The verdict on a document that passed its checks.
pub open spec fn valid_line(label: Seq<char>) -> Seq<char> {
    "✓ valid  "@ + label
}

/// The verdict on a source that did not parse.
pub open spec fn parse_failed_line(label: Seq<char>, errors: nat) -> Seq<char> {
    "✗ parse failed  "@ + label + error_phrase(errors)
}

/// The diagnostics, then the verdict on a line of its own.
pub open spec fn failure_report(ds: Seq<DiagnosticModel>, verdict: Seq<char>) -> Seq<char> {
    bag_text(ds) + "\n"@ + verdict
}

fn error_phrase_string(errors: usize) -> (r: String)
    ensures
        r@ == error_phrase(errors as nat),
{
    let mut r = string_of("  (");
    let n = decimal_string(errors as u128);
    push_str(&mut r, n.as_str());
    push_str(&mut r, " error(s))");
    r
}

fn report_string(diagnostics: &DiagnosticBag, verdict: String) -> (r: String)
    ensures
        r@ == failure_report(diagnostics@, verdict@),
{
    let mut r = diagnostics.to_string();
    push_str(&mut r, "\n");
    push_str(&mut r, verdict.as_str());
    r
}

/// What is reported of a source, named `label`, that did not parse: its
/// diagnostics, then `✗ parse failed  {label}  ({n} error(s))`, counting
/// the errors only.
pub fn parse_failure_report(diagnostics: &DiagnosticBag, label: &str) -> (r: String)
    ensures
        r@ == failure_report(
            diagnostics@,
            parse_failed_line(label@, error_total(diagnostics@)),
        ),
{
    let mut verdict = string_of("✗ parse failed  ");
    push_str(&mut verdict, label);
    let phrase = error_phrase_string(diagnostics.error_count());
    push_str(&mut verdict, phrase.as_str());
    report_string(diagnostics, verdict)
}

/// What is reported of a source, named `label`, that failed its checks with
/// `diagnostics`: the diagnostics, then `✗ invalid  {label}  ({n} error(s))`,
/// counting the errors only.
pub fn invalid_report(diagnostics: &DiagnosticBag, label: &str) -> (r: String)
    ensures
        r@ == failure_report(diagnostics@, invalid_line(label@, error_total(diagnostics@))),
{
    let mut verdict = string_of("✗ invalid  ");
    push_str(&mut verdict, label);
    let phrase = error_phrase_string(diagnostics.error_count());
    push_str(&mut verdict, phrase.as_str());
    report_string(diagnostics, verdict)
}

/// The verdict of the `validate` command on `document`, named `label`,
/// after its composition reported `composition`: the diagnostics of the
/// composition and then those of validation, together. Where one of them is
/// an error, all of them and `✗ invalid  {label}  ({n} error(s))`; else
/// `✓ valid  {label}`.
pub fn validation_verdict(document: &Document, composition: DiagnosticBag, label: &str) -> (r: Result<
    String,
    String,
>)
    ensures
        ({
            let all = composition@ + validate_model(document@);
            &&& r is Ok <==> !has_error(all)
            &&& r matches Ok(line) ==> line@ == valid_line(label@)
            &&& r matches Err(report) ==> report@ == failure_report(
                all,
                invalid_line(label@, error_total(all)),
            )
        }),
{
    let mut all = composition;
    all.extend(validate_document(document));
    if all.has_errors() {
        Err(invalid_report(&all, label))
    } else {
        let mut line = string_of("✓ valid  ");
        push_str(&mut line, label);
        Ok(line)
    }
}

// ---------------------------------------------------------------------------
// The parse summary.
// ---------------------------------------------------------------------------

/// The names of the keys that `d` defines, in document order.
pub open spec fn present_key_names(d: DocumentModel) -> Seq<Seq<char>> {
    ordered_entries_of(d).map_values(|p: (TopLevelKey, crate::ast::NodeModel)| key_name(p.0))
}

/// The number of nodes under the keys that `d` defines.
pub open spec fn document_node_total(d: DocumentModel) -> nat {
    pairs_count(ordered_entries_of(d), ordered_entries_of(d).len())
}

/// `✓ parsed  {label}`, the defined keys, and the number of their nodes, on
/// three lines.
pub open spec fn summary_text(label: Seq<char>, d: DocumentModel, nodes: nat) -> Seq<char> {
    "✓ parsed  "@ + label + "\nkeys: "@ + join(present_key_names(d), " "@) + "\nnodes: "@
        + decimal(nodes)
}

/// The summary of the parsed `document`, named `label`; `None` where the
/// number of its nodes does not fit in a `usize`.
pub fn parse_summary(document: &Document, label: &str) -> (r: Option<String>)
    ensures
        match r {
            Some(s) => document_node_total(document@) <= usize::MAX && s@ == summary_text(
                label@,
                document@,
                document_node_total(document@),
            ),
            None => document_node_total(document@) > usize::MAX,
        },
{
    let total = match count_document_nodes(document) {
        Some(n) => n,
        None => {
            return None;
        },
    };
    let pairs = document.ordered_entries();
    let ghost pm = ordered_entries_of(document@);
    let ghost names = present_key_names(document@);
    let mut keys = String::new();
    let mut i: usize = 0;
    while i < pairs.len()
        invariant
            i <= pairs@.len(),
            pm == pairs@.map_values(|p: (TopLevelKey, &Node)| (p.0, p.1@)),
            names == pm.map_values(|p: (TopLevelKey, crate::ast::NodeModel)| key_name(p.0)),
            names.len() == pairs@.len(),
            keys@ == join(names.take(i as int), " "@),
        decreases pairs@.len() - i,
    {
        assert(names.take(i + 1).drop_last() =~= names.take(i as int));
        assert(names[i as int] == key_name(pairs@[i as int].0));
        if i > 0 {
            push_str(&mut keys, " ");
        } else {
            assert(names.take(1) =~= seq![names[0]]);
        }
        let (key, _) = pairs[i];
        push_str(&mut keys, key.as_str());
        i += 1;
    }
    assert(names.take(pairs@.len() as int) =~= names);
    let mut s = string_of("✓ parsed  ");
    push_str(&mut s, label);
    push_str(&mut s, "\nkeys: ");
    push_str(&mut s, keys.as_str());
    push_str(&mut s, "\nnodes: ");
    let n = decimal_string(total as u128);
    push_str(&mut s, n.as_str());
    Some(s)
}

// ---------------------------------------------------------------------------
// Checks that gate rendering.
// ---------------------------------------------------------------------------

/// Why a document was not rendered: the diagnostics of the stage that
/// reported an error.
pub enum CheckFailure {
    /// Its composition reported an error.
    Composition(DiagnosticBag),
    /// It does not validate.
    Validation(DiagnosticBag),
}

/// Renders the composed `document` for `target` with `provider`, unless its
/// composition reported an error (those diagnostics come back) or, failing
/// that, it does not validate (the diagnostics of validation come back).
pub fn transpile_composed(
    document: &Document,
    composition: DiagnosticBag,
    target: Target,
    provider: Provider,
) -> (r: Result<String, CheckFailure>)
    requires
        document_within_depth(document@),
    ensures
        has_error(composition@) ==> (r matches Err(CheckFailure::Composition(b)) && b@
            == composition@),
        !has_error(composition@) && has_error(validate_model(document@)) ==> (r matches Err(
            CheckFailure::Validation(b),
        ) && b@ == validate_model(document@)),
        !has_error(composition@) && !has_error(validate_model(document@)) ==> (r matches Ok(s)
            && s@ == transpile_model(document@, target, provider)),
{
    if composition.has_errors() {
        return Err(CheckFailure::Composition(composition));
    }
    let diagnostics = validate_document(document);
    if diagnostics.has_errors() {
        return Err(CheckFailure::Validation(diagnostics));
    }
    match transpile_with_provider(document, target, provider) {
        Ok(s) => Ok(s),
        Err(_) => {
            proof {
                assert(false);
            }
            Err(CheckFailure::Validation(diagnostics))
        },
    }
}

/// The canonical form of `document`, unless it does not validate: then the
/// diagnostics of validation.
pub fn format_validated(document: &Document) -> (r: Result<String, DiagnosticBag>)
    requires
        document_within_depth(document@),
    ensures
        has_error(validate_model(document@)) ==> (r matches Err(b) && b@ == validate_model(
            document@,
        )),
        !has_error(validate_model(document@)) ==> (r matches Ok(s) && s@ == format_model(
            document@,
        )),
{
    let diagnostics = validate_document(document);
    if diagnostics.has_errors() {
        Err(diagnostics)
    } else {
        Ok(format_document(document))
    }
}

// ---------------------------------------------------------------------------
// Writing an output file.
// ---------------------------------------------------------------------------

/// What stands at the parent directory of an output path.
#[derive(Clone, Copy, Debug, PartialEq, Eq, Structural)]
pub enum ParentState {
    /// The path names no parent directory.
    Unnamed,
    /// Nothing exists there.
    Missing,
    /// Something that is not a directory.
    NotADirectory,
    /// A directory.
    Directory,
}

/// How an output file is opened.
#[derive(Clone, Copy, Debug, PartialEq, Eq, Structural)]
pub enum WriteMode {
    /// Create it, or truncate what is there.
    Overwrite,
    /// Create it; fail where something is there.
    CreateNew,
}

/// Why an output file is not written.
#[derive(Clone, Copy, Debug, PartialEq, Eq, Structural)]
pub enum OutputRefusal {
    TargetIsDirectory,
    ParentMissing,
    ParentNotADirectory,
    WouldOverwrite,
}

/// The decision on writing an output file: refused where the path is a
/// directory, then where its named parent is missing or not a directory,
/// then where the file exists and overwriting was not asked for; otherwise
/// it is overwritten when asked for, and created anew when not.
pub open spec fn output_plan(target_is_dir: bool, parent: ParentState, target_exists: bool, force: bool) -> Result<
    WriteMode,
    OutputRefusal,
> {
    if target_is_dir {
        Err(OutputRefusal::TargetIsDirectory)
    } else if parent == ParentState::Missing {
        Err(OutputRefusal::ParentMissing)
    } else if parent == ParentState::NotADirectory {
        Err(OutputRefusal::ParentNotADirectory)
    } else if target_exists && !force {
        Err(OutputRefusal::WouldOverwrite)
    } else if force {
        Ok(WriteMode::Overwrite)
    } else {
        Ok(WriteMode::CreateNew)
    }
}

/// Decides whether, and how, an output file is written; see `output_plan`.
pub fn plan_output(target_is_dir: bool, parent: ParentState, target_exists: bool, force: bool) -> (r:
    Result<WriteMode, OutputRefusal>)
    ensures
        r == output_plan(target_is_dir, parent, target_exists, force),
{
    if target_is_dir {
        Err(OutputRefusal::TargetIsDirectory)
    } else {
        match parent {
            ParentState::Missing => Err(OutputRefusal::ParentMissing),
            ParentState::NotADirectory => Err(OutputRefusal::ParentNotADirectory),
            _ => {
                if target_exists && !force {
                    Err(OutputRefusal::WouldOverwrite)
                } else if force {
                    Ok(WriteMode::Overwrite)
                } else {
                    Ok(WriteMode::CreateNew)
                }
            },
        }
    }
}

/// The message of a refusal, for the output file `path` whose parent is
/// `parent`.
pub open spec fn refusal_message(r: OutputRefusal, path: Seq<char>, parent: Seq<char>) -> Seq<char> {
    match r {
        OutputRefusal::TargetIsDirectory => "output path is a directory: "@ + path,
        OutputRefusal::ParentMissing => "output directory does not exist: "@ + parent,
        OutputRefusal::ParentNotADirectory => "output parent is not a directory: "@ + parent,
        OutputRefusal::WouldOverwrite => "refusing to overwrite existing output file "@ + path
            + " (pass --force to overwrite)"@,
    }
}

impl OutputRefusal {
    /// The message of this refusal, for the output file `path` whose parent
    /// is `parent`.
    pub fn message(self, path: &str, parent: &str) -> (r: String)
        ensures
            r@ == refusal_message(self, path@, parent@),
    {
        match self {
            OutputRefusal::TargetIsDirectory => {
                let mut m = string_of("output path is a directory: ");
                push_str(&mut m, path);
                m
            },
            OutputRefusal::ParentMissing => {
                let mut m = string_of("output directory does not exist: ");
                push_str(&mut m, parent);
                m
            },
            OutputRefusal::ParentNotADirectory => {
                let mut m = string_of("output parent is not a directory: ");
                push_str(&mut m, parent);
                m
            },
            OutputRefusal::WouldOverwrite => {
                let mut m = string_of("refusing to overwrite existing output file ");
                push_str(&mut m, path);
                push_str(&mut m, " (pass --force to overwrite)");
                m
            },
        }
    }
}

} // verus!
