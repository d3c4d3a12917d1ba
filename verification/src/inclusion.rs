//! Resolving the files that a document composes, and detecting cycles among
//! them. Paths are `/`-separated strings; reading and canonicalising files is
//! left to the caller.
use vstd::prelude::*;

use crate::ast::{directive_keyword, directive_keyword_string, Document, DocumentModel, Node, NodeModel};
use crate::diagnostics::{semantic_diag, Diagnostic, DiagnosticBag, DiagnosticModel, Span};
use crate::text::{push_str, str_eq, string_of, trim, trimmed};

verus! {

// ---------------------------------------------------------------------------
// Model.
// ---------------------------------------------------------------------------

/// The message of an empty path.
pub open spec fn empty_path_message() -> Seq<char> {
    directive_keyword() + " path must not be empty"@
}

/// The message of an absolute path.
pub open spec fn absolute_path_message() -> Seq<char> {
    directive_keyword() + " paths must be relative, not absolute"@
}

/// The message of a directive written as a mapping.
pub open spec fn mapping_directive_message() -> Seq<char> {
    directive_keyword() + " must be a scalar path or a sequence of paths, not a mapping"@
}

/// The message of a cycle through `candidate`.
pub open spec fn circular_message(candidate: Seq<char>) -> Seq<char> {
    "circular "@ + directive_keyword() + " detected: `"@ + candidate + "`"@
}

/// Whether a path is absolute: it starts at the root `/`.
pub open spec fn is_absolute_path(p: Seq<char>) -> bool {
    p.len() > 0 && p[0] == '/'
}

/// `dir` joined with the relative path `p`.
pub open spec fn join_path(dir: Seq<char>, p: Seq<char>) -> Seq<char> {
    if dir.len() == 0 || dir.last() == '/' {
        dir + p
    } else {
        dir + seq!['/'] + p
    }
}

/// One path, written at `span`, resolved against `dir`: trimmed, and
/// refused (`E115`) where it is empty or absolute.
pub open spec fn resolve_one_model(raw: Seq<char>, dir: Seq<char>, span: Span) -> Result<
    Seq<char>,
    DiagnosticModel,
> {
    let t = trim(raw);
    if t.len() == 0 {
        Err(semantic_diag(empty_path_message(), Some(span), "E115"@))
    } else if is_absolute_path(t) {
        Err(semantic_diag(absolute_path_message(), Some(span), "E115"@))
    } else {
        Ok(join_path(dir, t))
    }
}

/// The paths and the refusals of the scalar items of a path list, in order;
/// items that are not scalars are passed over.
pub open spec fn resolve_items(values: Seq<NodeModel>, dir: Seq<char>) -> (Seq<Seq<char>>, Seq<
    DiagnosticModel,
>)
    decreases values.len(),
{
    if values.len() == 0 {
        (Seq::empty(), Seq::empty())
    } else {
        let (ps, es) = resolve_items(values.drop_last(), dir);
        match values.last() {
            NodeModel::Scalar { value, span } => match resolve_one_model(value, dir, span) {
                Ok(p) => (ps.push(p), es),
                Err(e) => (ps, es.push(e)),
            },
            _ => (ps, es),
        }
    }
}

/// The files a document composes, resolved against `dir`, or every refusal.
pub open spec fn resolve_model(d: DocumentModel, dir: Seq<char>) -> Result<Seq<Seq<char>>, Seq<
    DiagnosticModel,
>> {
    match d.includes {
        None => Ok(Seq::empty()),
        Some(NodeModel::Scalar { value, span }) => match resolve_one_model(value, dir, span) {
            Ok(p) => Ok(seq![p]),
            Err(e) => Err(seq![e]),
        },
        Some(NodeModel::Sequence { values, .. }) => {
            let (ps, es) = resolve_items(values, dir);
            if es.len() > 0 {
                Err(es)
            } else {
                Ok(ps)
            }
        },
        Some(NodeModel::Mapping { span, .. }) => Err(
            seq![semantic_diag(mapping_directive_message(), Some(span), "E023"@)],
        ),
    }
}

/// Whether one of the paths of `chain` is `c`.
pub open spec fn on_chain(chain: Seq<String>, c: Seq<char>) -> bool {
    exists|j: int| 0 <= j < chain.len() && #[trigger] chain[j]@ == c
}

// ---------------------------------------------------------------------------
// Implementation.
// ---------------------------------------------------------------------------

fn directive_message(suffix: &str) -> (r: String)
    ensures
        r@ == directive_keyword() + suffix@,
{
    let mut m = directive_keyword_string();
    push_str(&mut m, suffix);
    m
}

fn join_path_exec(dir: &str, p: &str) -> (r: String)
    ensures
        r@ == join_path(dir@, p@),
{
    let mut r = string_of(dir);
    let cs = crate::text::chars_of(dir);
    if cs.len() > 0 && cs[cs.len() - 1] != '/' {
        crate::text::push_char(&mut r, '/');
    }
    push_str(&mut r, p);
    r
}

/// One path resolved against `source_dir`.
fn resolve_one(raw: &str, source_dir: &str, span: Span) -> (r: Result<String, Diagnostic>)
    ensures
        match resolve_one_model(raw@, source_dir@, span) {
            Ok(p) => r is Ok && r->Ok_0@ == p,
            Err(e) => r is Err && r->Err_0@ == e,
        },
{
    let t = trimmed(raw);
    let cs = crate::text::chars_of(t.as_str());
    if cs.len() == 0 {
        return Err(
            Diagnostic::semantic_error(directive_message(" path must not be empty"), Some(span)).with_code(
                "E115",
            ),
        );
    }
    if cs[0] == '/' {
        return Err(
            Diagnostic::semantic_error(
                directive_message(" paths must be relative, not absolute"),
                Some(span),
            ).with_code("E115"),
        );
    }
    Ok(join_path_exec(source_dir, t.as_str()))
}

/// The files that `document` composes, each resolved against `source_dir`,
/// in order; or every refusal: an empty or absolute path (`E115`), or a
/// directive written as a mapping (`E023`). Whether the files exist is not
/// checked here.
pub fn resolve_include_paths(document: &Document, source_dir: &str) -> (r: Result<
    Vec<String>,
    DiagnosticBag,
>)
    ensures
        match resolve_model(document@, source_dir@) {
            Ok(ps) => r is Ok && r->Ok_0@.map_values(|s: String| s@) == ps,
            Err(es) => r is Err && r->Err_0@ == es,
        },
{
    let mut paths: Vec<String> = Vec::new();
    let mut errors = DiagnosticBag::new();
    match &document.includes {
        None => {
            assert(paths@.map_values(|s: String| s@) =~= Seq::<Seq<char>>::empty());
            return Ok(paths);
        },
        Some(Node::Scalar { value, span }) => match resolve_one(value.as_str(), source_dir, *span) {
            Ok(p) => {
                paths.push(p);
                assert(paths@.map_values(|s: String| s@) =~= seq![p@]);
                return Ok(paths);
            },
            Err(d) => {
                errors.push(d);
                assert(errors@ =~= seq![d@]);
                return Err(errors);
            },
        },
        Some(Node::Sequence { values, span }) => {
            proof {
                crate::ast::lemma_sequence_view(*values, *span);
            }
            let ghost vm = values@.map_values(|n: Node| n@);
            let mut i: usize = 0;
            while i < values.len()
                invariant
                    i <= values@.len(),
                    vm == values@.map_values(|n: Node| n@),
                    (paths@.map_values(|s: String| s@), errors@) == resolve_items(
                        vm.take(i as int),
                        source_dir@,
                    ),
                decreases values@.len() - i,
            {
                assert(vm.take(i + 1).drop_last() =~= vm.take(i as int));
                assert(vm.take(i + 1).last() == values@[i as int]@);
                let ghost before_paths = paths@.map_values(|s: String| s@);
                match &values[i] {
                    Node::Scalar { value, span } => match resolve_one(
                        value.as_str(),
                        source_dir,
                        *span,
                    ) {
                        Ok(p) => {
                            let ghost pm = p@;
                            paths.push(p);
                            assert(paths@.map_values(|s: String| s@) =~= before_paths.push(pm));
                        },
                        Err(d) => {
                            errors.push(d);
                        },
                    },
                    _ => {},
                }
                i += 1;
            }
            assert(vm.take(values@.len() as int) =~= vm);
            if errors.len() > 0 {
                Err(errors)
            } else {
                Ok(paths)
            }
        },
        Some(Node::Mapping { span, .. }) => {
            errors.push(
                Diagnostic::semantic_error(
                    directive_message(" must be a scalar path or a sequence of paths, not a mapping"),
                    Some(*span),
                ).with_code("E023"),
            );
            assert(errors@ =~= seq![
                semantic_diag(mapping_directive_message(), Some(*span), "E023"@),
            ]);
            Err(errors)
        },
    }
}

/// The cycle diagnostic (`E116`) when the file `candidate`, whose canonical
/// path is `canonical`, is already on the chain of canonical paths being
/// composed; `None` otherwise, and where no canonical path could be had.
pub fn check_circular(candidate: &str, canonical: Option<&str>, chain: &[String]) -> (r: Option<
    Diagnostic,
>)
    ensures
        r is Some <==> (canonical matches Some(c) && on_chain(chain@, c@)),
        r matches Some(d) ==> d@ == semantic_diag(circular_message(candidate@), None, "E116"@),
{
    let c = match canonical {
        Some(c) => c,
        None => {
            return None;
        },
    };
    let mut i: usize = 0;
    while i < chain.len()
        invariant
            i <= chain@.len(),
            canonical == Some(c),
            forall|j: int| 0 <= j < i ==> (#[trigger] chain@[j])@ != c@,
        decreases chain@.len() - i,
    {
        if str_eq(chain[i].as_str(), c) {
            assert(chain@[i as int]@ == c@);
            assert(on_chain(chain@, c@));
            let mut m = string_of("circular ");
            let kw = directive_keyword_string();
            push_str(&mut m, kw.as_str());
            push_str(&mut m, " detected: `");
            push_str(&mut m, candidate);
            push_str(&mut m, "`");
            return Some(Diagnostic::semantic_error(m, None).with_code("E116"));
        }
        i += 1;
    }
    None
}

} // verus!
