//! The whole path from source text to an output, for callers that hand over
//! a source string and want text back: parse, validate, then render one
//! target, or the rendered diagnostics of the first stage that failed.
use vstd::prelude::*;

use crate::ast::{Document, EntryModel, MappingEntry, Node, NodeModel};
use crate::diagnostics::{has_error, render_diag, DiagnosticBag, DiagnosticModel};
use crate::lexer::fits_columns;
use crate::parser::{parse_model, parse_str};
use crate::provider::Provider;
use crate::text::{push_str, str_eq, string_of};
use crate::transpile::{transpile_model, transpile_with_provider, Target};
use crate::validator::{validate_document, validate_model};

verus! {

/// Every diagnostic rendered.
pub open spec fn rendered(ds: Seq<DiagnosticModel>) -> Seq<Seq<char>> {
    ds.map_values(|d: DiagnosticModel| render_diag(d))
}

/// The target named `name`.
pub open spec fn target_named(name: Seq<char>) -> Option<Target> {
    if name == "plain"@ {
        Some(Target::Plain)
    } else if name == "json-ir"@ {
        Some(Target::JsonIr)
    } else if name == "shadow"@ {
        Some(Target::Shadow)
    } else {
        None
    }
}

/// What `validate_source` gives: nothing, or the rendered diagnostics of
/// the parse or, where it parses, of the validation.
pub open spec fn check_model(source: Seq<char>) -> Result<(), Seq<Seq<char>>> {
    match parse_model(source) {
        Err(ds) => Err(rendered(ds)),
        Ok(d) => if has_error(validate_model(d)) {
            Err(rendered(validate_model(d)))
        } else {
            Ok(())
        },
    }
}

/// What `compile` gives: the output for the target named `target`, or the
/// rendered diagnostics of the first stage that failed, or the unknown
/// target's name in a message.
pub open spec fn compile_model(source: Seq<char>, target: Seq<char>) -> Result<Seq<char>, Seq<Seq<char>>> {
    match parse_model(source) {
        Err(ds) => Err(rendered(ds)),
        Ok(d) => if has_error(validate_model(d)) {
            Err(rendered(validate_model(d)))
        } else {
            match target_named(target) {
                None => Err(seq!["unknown target: "@ + target]),
                Some(t) => Ok(transpile_model(d, t, Provider::Generic)),
            }
        },
    }
}

fn render_all(bag: &DiagnosticBag) -> (r: Vec<String>)
    ensures
        r@.map_values(|s: String| s@) == rendered(bag@),
{
    let mut r: Vec<String> = Vec::new();
    let mut i: usize = 0;
    while i < bag.len()
        invariant
            i <= bag@.len(),
            r@.map_values(|s: String| s@) == rendered(bag@.take(i as int)),
        decreases bag@.len() - i,
    {
        let ghost before = r@.map_values(|s: String| s@);
        let line = bag.get(i).to_string();
        r.push(line);
        assert(rendered(bag@.take(i + 1)) =~= rendered(bag@.take(i as int)).push(render_diag(bag@[i as int])));
        assert(r@.map_values(|s: String| s@) =~= before.push(render_diag(bag@[i as int])));
        i += 1;
    }
    assert(bag@.take(bag@.len() as int) =~= bag@);
    r
}

fn target_from_name(name: &str) -> (t: Option<Target>)
    ensures
        t == target_named(name@),
{
    if str_eq(name, "plain") {
        Some(Target::Plain)
    } else if str_eq(name, "json-ir") {
        Some(Target::JsonIr)
    } else if str_eq(name, "shadow") {
        Some(Target::Shadow)
    } else {
        None
    }
}

/// Parses and validates `source`: `Ok` where it parses without error and
/// validates without error, else every diagnostic of the failing stage,
/// rendered.
pub fn validate_source(source: &str) -> (r: Result<(), Vec<String>>)
    requires
        fits_columns(source@),
    ensures
        match check_model(source@) {
            Ok(()) => r is Ok,
            Err(es) => r is Err && r->Err_0@.map_values(|s: String| s@) == es,
        },
{
    let document = match parse_str(source) {
        Ok(d) => d,
        Err(bag) => {
            return Err(render_all(&bag));
        },
    };
    let diagnostics = validate_document(&document);
    if diagnostics.has_errors() {
        Err(render_all(&diagnostics))
    } else {
        Ok(())
    }
}

/// Parses, validates and renders `source` for the target named `target`
/// (`plain`, `json-ir` or `shadow`) with the generic provider.
pub fn compile(source: &str, target: &str) -> (r: Result<String, Vec<String>>)
    requires
        fits_columns(source@),
    ensures
        match compile_model(source@, target@) {
            Ok(s) => r is Ok && r->Ok_0@ == s,
            Err(es) => r is Err && r->Err_0@.map_values(|s: String| s@) == es,
        },
{
    let document = match parse_str(source) {
        Ok(d) => d,
        Err(bag) => {
            return Err(render_all(&bag));
        },
    };
    let diagnostics = validate_document(&document);
    if diagnostics.has_errors() {
        return Err(render_all(&diagnostics));
    }
    match target_from_name(target) {
        None => {
            let mut message = string_of("unknown target: ");
            push_str(&mut message, target);
            let mut errors: Vec<String> = Vec::new();
            errors.push(message);
            assert(errors@.map_values(|s: String| s@) =~= seq!["unknown target: "@ + target@]);
            Err(errors)
        },
        Some(t) => match transpile_with_provider(&document, t, Provider::Generic) {
            Ok(s) => Ok(s),
            Err(_) => {
                proof {
                    assert(false);
                }
                Err(Vec::new())
            },
        },
    }
}

// ---------------------------------------------------------------------------
// Node counts.
// ---------------------------------------------------------------------------

/// The number of nodes of a tree: the node itself and all below it.
pub open spec fn node_count(n: NodeModel) -> nat
    decreases n, 0nat,
{
    match n {
        NodeModel::Scalar { .. } => 1,
        NodeModel::Sequence { values, .. } => 1 + items_count(values, values.len()),
        NodeModel::Mapping { entries, .. } => 1 + entries_count(entries, entries.len()),
    }
}

/// The nodes of the first `k` items.
pub open spec fn items_count(values: Seq<NodeModel>, k: nat) -> nat
    decreases values, k,
{
    if k == 0 || k > values.len() {
        0
    } else {
        items_count(values, (k - 1) as nat) + node_count(values[k - 1])
    }
}

/// The nodes of the values of the first `k` entries.
pub open spec fn entries_count(entries: Seq<EntryModel>, k: nat) -> nat
    decreases entries, k,
{
    if k == 0 || k > entries.len() {
        0
    } else {
        entries_count(entries, (k - 1) as nat) + node_count(entries[k - 1].value)
    }
}

/// The number of nodes of `node`, or `None` where it does not fit in a `usize`.
#[verifier::loop_isolation(false)]
pub fn count_nodes(node: &Node) -> (r: Option<usize>)
    ensures
        match r {
            Some(c) => c == node_count(node@),
            None => node_count(node@) > usize::MAX,
        },
    decreases node,
{
    match node {
        Node::Scalar { .. } => Some(1),
        Node::Sequence { values, span } => {
            proof {
                crate::ast::lemma_sequence_view(*values, *span);
            }
            let ghost vm = values@.map_values(|x: Node| x@);
            let mut total: usize = 1;
            let mut i: usize = 0;
            while i < values.len()
                invariant
                    i <= values@.len(),
                    vm == values@.map_values(|x: Node| x@),
                    total == 1 + items_count(vm, i as nat),
                decreases values@.len() - i,
            {
                assert(decreases_to!(*node => *values));
                assert(decreases_to!(*values => values@));
                assert(decreases_to!(values@ => values@[i as int]));
                let c = count_nodes(&values[i]);
                assert(vm[i as int] == values@[i as int]@);
                assert(items_count(vm, (i + 1) as nat) == items_count(vm, i as nat) + node_count(vm[i as int]));
                match c {
                    Some(c) => {
                        if c > usize::MAX - total {
                            proof {
                                lemma_items_count_grows(vm, (i + 1) as nat, vm.len());
                            }
                            return None;
                        }
                        total = total + c;
                    },
                    None => {
                        proof {
                            lemma_items_count_grows(vm, (i + 1) as nat, vm.len());
                        }
                        return None;
                    },
                }
                i += 1;
            }
            Some(total)
        },
        Node::Mapping { entries, span } => {
            proof {
                crate::ast::lemma_mapping_view(*entries, *span);
            }
            let ghost em = entries@.map_values(|e: MappingEntry| e@);
            let mut total: usize = 1;
            let mut i: usize = 0;
            while i < entries.len()
                invariant
                    i <= entries@.len(),
                    em == entries@.map_values(|e: MappingEntry| e@),
                    total == 1 + entries_count(em, i as nat),
                decreases entries@.len() - i,
            {
                assert(decreases_to!(*node => *entries));
                assert(decreases_to!(*entries => entries@));
                assert(decreases_to!(entries@ => entries@[i as int]));
                assert(decreases_to!(entries@[i as int] => entries@[i as int].value));
                let c = count_nodes(&entries[i].value);
                assert(em[i as int].value == entries@[i as int].value@);
                assert(entries_count(em, (i + 1) as nat) == entries_count(em, i as nat) + node_count(em[i as int].value));
                match c {
                    Some(c) => {
                        if c > usize::MAX - total {
                            proof {
                                lemma_entries_count_grows(em, (i + 1) as nat, em.len());
                            }
                            return None;
                        }
                        total = total + c;
                    },
                    None => {
                        proof {
                            lemma_entries_count_grows(em, (i + 1) as nat, em.len());
                        }
                        return None;
                    },
                }
                i += 1;
            }
            Some(total)
        },
    }
}

proof fn lemma_items_count_grows(values: Seq<NodeModel>, k: nat, m: nat)
    requires
        k <= m <= values.len(),
    ensures
        items_count(values, k) <= items_count(values, m),
    decreases m - k,
{
    if k < m {
        lemma_items_count_grows(values, k, (m - 1) as nat);
    }
}

proof fn lemma_entries_count_grows(entries: Seq<EntryModel>, k: nat, m: nat)
    requires
        k <= m <= entries.len(),
    ensures
        entries_count(entries, k) <= entries_count(entries, m),
    decreases m - k,
{
    if k < m {
        lemma_entries_count_grows(entries, k, (m - 1) as nat);
    }
}

/// The number of nodes under every present key of `document`, or `None`
/// where it does not fit in a `usize`.
#[verifier::loop_isolation(false)]
pub fn count_document_nodes(document: &Document) -> (r: Option<usize>)
    ensures
        match r {
            Some(c) => c == pairs_count(crate::ast::ordered_entries_of(document@), crate::ast::ordered_entries_of(document@).len()),
            None => pairs_count(crate::ast::ordered_entries_of(document@), crate::ast::ordered_entries_of(document@).len()) > usize::MAX,
        },
{
    let pairs = document.ordered_entries();
    let ghost pm = crate::ast::ordered_entries_of(document@);
    let mut total: usize = 0;
    let mut i: usize = 0;
    while i < pairs.len()
        invariant
            i <= pairs@.len(),
            pm == pairs@.map_values(|p: (crate::ast::TopLevelKey, &Node)| (p.0, p.1@)),
            total == pairs_count(pm, i as nat),
        decreases pairs@.len() - i,
    {
        let (_, value) = pairs[i];
        assert(pm[i as int].1 == value@);
        assert(pairs_count(pm, (i + 1) as nat) == pairs_count(pm, i as nat) + node_count(pm[i as int].1));
        match count_nodes(value) {
            Some(c) => {
                if c > usize::MAX - total {
                    proof {
                        lemma_pairs_count_grows(pm, (i + 1) as nat, pm.len());
                    }
                    return None;
                }
                total = total + c;
            },
            None => {
                proof {
                    lemma_pairs_count_grows(pm, (i + 1) as nat, pm.len());
                }
                return None;
            },
        }
        i += 1;
    }
    Some(total)
}

/// The nodes of the first `k` top-level values.
pub open spec fn pairs_count(pairs: Seq<(crate::ast::TopLevelKey, NodeModel)>, k: nat) -> nat
    decreases k,
{
    if k == 0 || k > pairs.len() {
        0
    } else {
        pairs_count(pairs, (k - 1) as nat) + node_count(pairs[k - 1].1)
    }
}

proof fn lemma_pairs_count_grows(pairs: Seq<(crate::ast::TopLevelKey, NodeModel)>, k: nat, m: nat)
    requires
        k <= m <= pairs.len(),
    ensures
        pairs_count(pairs, k) <= pairs_count(pairs, m),
    decreases m - k,
{
    if k < m {
        lemma_pairs_count_grows(pairs, k, (m - 1) as nat);
    }
}

} // verus!
