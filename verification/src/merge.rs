//! Merging a composed file into the document that names it.
//!
//! - `agent`, `system`, `user`, `output`: the parent's value stays; a value
//!   in both files is a conflict (`E117`).
//! - `memory`, `tools`, `constraints`: the included items follow the
//!   parent's; `tools` and `constraints` are then deduplicated, the first
//!   scalar with a given text staying and later ones left out.
//! - `vars`: the included entries whose key the parent lacks are added.
//! - the composition directive of the included file is dropped.
use vstd::prelude::*;

use crate::ast::{
    directive_keyword, directive_keyword_string, lemma_mapping_view, lemma_sequence_view,
    document_within_depth, max_nesting, opt_within_depth, within_depth, empty_document, field, opt_model, zero_span, Document, TopLevelKey, DocumentModel, EntryModel, MappingEntry, Node, NodeModel,
};
use crate::diagnostics::{Severity, semantic_diag, Diagnostic, DiagnosticBag, DiagnosticModel, Span};
use crate::text::{push_str, str_eq};
use crate::transpile::vars::{bindings_of, document_bindings, lookup};

verus! {

// ---------------------------------------------------------------------------
// Model.
// ---------------------------------------------------------------------------

/// Whether `n` is a scalar whose text is `v`.
pub open spec fn is_scalar_with(n: NodeModel, v: Seq<char>) -> bool {
    n matches NodeModel::Scalar { value, .. } && value == v
}

/// Whether some item of `items` is a scalar whose text is `v`.
pub open spec fn has_scalar(items: Seq<NodeModel>, v: Seq<char>) -> bool {
    exists|j: int| 0 <= j < items.len() && #[trigger] is_scalar_with(items[j], v)
}

/// Whether `n` is a scalar whose text some item of `existing` already has.
pub open spec fn is_known_scalar(existing: Seq<NodeModel>, n: NodeModel) -> bool {
    match n {
        NodeModel::Scalar { value, .. } => has_scalar(existing, value),
        _ => false,
    }
}

/// `items` without every scalar whose text an earlier item already has: the
/// first occurrence stays, in order; items that are not scalars all stay.
pub open spec fn dedup_items(items: Seq<NodeModel>) -> Seq<NodeModel>
    decreases items.len(),
{
    if items.len() == 0 {
        Seq::empty()
    } else {
        let rest = dedup_items(items.drop_last());
        if is_known_scalar(rest, items.last()) {
            rest
        } else {
            rest.push(items.last())
        }
    }
}

/// Whether no scalar of `items` repeats the text of an earlier one.
pub open spec fn repeat_free(items: Seq<NodeModel>) -> bool {
    forall|j: int| 0 <= j < items.len() ==> !is_known_scalar(items.take(j), #[trigger] items[j])
}

/// Whether some entry of `entries` has the key `k`.
pub open spec fn has_key(entries: Seq<EntryModel>, k: Seq<char>) -> bool {
    exists|j: int| 0 <= j < entries.len() && #[trigger] entries[j].key == k
}

/// The entries of `inc`, in order, whose key `existing` lacks.
pub open spec fn fresh_entries(existing: Seq<EntryModel>, inc: Seq<EntryModel>) -> Seq<EntryModel>
    decreases inc.len(),
{
    if inc.len() == 0 {
        Seq::empty()
    } else {
        let rest = fresh_entries(existing, inc.drop_last());
        if has_key(existing, inc.last().key) {
            rest
        } else {
            rest.push(inc.last())
        }
    }
}

/// A slot that holds one value: the parent's, else the included one.
pub open spec fn merge_scalar_slot(p: Option<NodeModel>, i: Option<NodeModel>) -> Option<NodeModel> {
    if p is Some {
        p
    } else {
        i
    }
}

/// A slot that holds a list: a non-empty included sequence is appended to
/// the parent's sequence (or stands alone where the parent has none); with
/// `dedup`, the result is then deduplicated.
pub open spec fn merge_sequence_slot(p: Option<NodeModel>, i: Option<NodeModel>, dedup: bool) -> Option<
    NodeModel,
> {
    match i {
        Some(NodeModel::Sequence { values: inc, .. }) => {
            if inc.len() == 0 {
                p
            } else {
                match p {
                    None => Some(
                        NodeModel::Sequence {
                            values: if dedup {
                                dedup_items(inc)
                            } else {
                                inc
                            },
                            span: zero_span(),
                        },
                    ),
                    Some(NodeModel::Sequence { values, span }) => Some(
                        NodeModel::Sequence {
                            values: if dedup {
                                dedup_items(values + inc)
                            } else {
                                values + inc
                            },
                            span,
                        },
                    ),
                    Some(_) => p,
                }
            }
        },
        _ => p,
    }
}

/// The `vars` slot: the included entries whose key the parent lacks follow
/// the parent's entries.
pub open spec fn merge_vars_slot(p: Option<NodeModel>, i: Option<NodeModel>) -> Option<NodeModel> {
    match i {
        Some(NodeModel::Mapping { entries: inc, .. }) => {
            if inc.len() == 0 {
                p
            } else {
                match p {
                    None => Some(NodeModel::Mapping { entries: inc, span: zero_span() }),
                    Some(NodeModel::Mapping { entries, span }) => Some(
                        NodeModel::Mapping { entries: entries + fresh_entries(entries, inc), span },
                    ),
                    Some(_) => p,
                }
            }
        },
        _ => p,
    }
}

/// The parent after `included` is merged into it.
pub open spec fn merge_model(parent: DocumentModel, included: DocumentModel) -> DocumentModel {
    DocumentModel {
        includes: parent.includes,
        agent: merge_scalar_slot(parent.agent, included.agent),
        system: merge_scalar_slot(parent.system, included.system),
        user: merge_scalar_slot(parent.user, included.user),
        memory: merge_sequence_slot(parent.memory, included.memory, false),
        tools: merge_sequence_slot(parent.tools, included.tools, true),
        output: merge_scalar_slot(parent.output, included.output),
        constraints: merge_sequence_slot(parent.constraints, included.constraints, true),
        vars: merge_vars_slot(parent.vars, included.vars),
    }
}

/// The message of a key that both files define.
pub open spec fn conflict_message(key: Seq<char>, path: Seq<char>) -> Seq<char> {
    directive_keyword() + " conflict: `"@ + key + "` is defined in both parent and `"@ + path
        + "`"@
}

/// The diagnostic of a key that both files define.
pub open spec fn conflict_diag(key: Seq<char>, path: Seq<char>) -> DiagnosticModel {
    semantic_diag(conflict_message(key, path), None, "E117"@)
}

/// The conflict reported for one single-valued key.
pub open spec fn scalar_conflicts(
    p: Option<NodeModel>,
    i: Option<NodeModel>,
    key: Seq<char>,
    path: Seq<char>,
) -> Seq<DiagnosticModel> {
    if p is Some && i is Some {
        seq![conflict_diag(key, path)]
    } else {
        Seq::empty()
    }
}

/// Every conflict of a merge, in key order.
pub open spec fn merge_diagnostics(parent: DocumentModel, included: DocumentModel, path: Seq<char>) -> Seq<
    DiagnosticModel,
> {
    scalar_conflicts(parent.agent, included.agent, "agent"@, path) + scalar_conflicts(
        parent.system,
        included.system,
        "system"@,
        path,
    ) + scalar_conflicts(parent.user, included.user, "user"@, path) + scalar_conflicts(
        parent.output,
        included.output,
        "output"@,
        path,
    )
}

// ---------------------------------------------------------------------------
// Implementation.
// ---------------------------------------------------------------------------

fn conflict_diagnostic(key: &str, included_path: &str) -> (d: Diagnostic)
    ensures
        d@ == conflict_diag(key@, included_path@),
{
    let mut message = directive_keyword_string();
    push_str(&mut message, " conflict: `");
    push_str(&mut message, key);
    push_str(&mut message, "` is defined in both parent and `");
    push_str(&mut message, included_path);
    push_str(&mut message, "`");
    Diagnostic::semantic_error(message, None).with_code("E117")
}

fn merge_scalar(
    parent_field: &mut Option<Node>,
    included_field: Option<Node>,
    key: &str,
    included_path: &str,
    diagnostics: &mut DiagnosticBag,
)
    ensures
        opt_model(*final(parent_field)) == merge_scalar_slot(
            opt_model(*old(parent_field)),
            opt_model(included_field),
        ),
        final(diagnostics)@ == old(diagnostics)@ + scalar_conflicts(
            opt_model(*old(parent_field)),
            opt_model(included_field),
            key@,
            included_path@,
        ),
{
    match included_field {
        Some(value) => {
            if parent_field.is_some() {
                diagnostics.push(conflict_diagnostic(key, included_path));
            } else {
                *parent_field = Some(value);
                assert(diagnostics@ =~= old(diagnostics)@ + Seq::<DiagnosticModel>::empty());
            }
        },
        None => {
            assert(diagnostics@ =~= old(diagnostics)@ + Seq::<DiagnosticModel>::empty());
        },
    }
}

/// Whether one of the first `n` items of `values` is a scalar with text `value`.
fn has_scalar_among(values: &Vec<Node>, n: usize, value: &str) -> (b: bool)
    requires
        n <= values@.len(),
    ensures
        b == has_scalar(values@.map_values(|x: Node| x@).take(n as int), value@),
{
    let ghost ms = values@.map_values(|x: Node| x@).take(n as int);
    let mut i: usize = 0;
    while i < n
        invariant
            i <= n <= values@.len(),
            ms == values@.map_values(|x: Node| x@).take(n as int),
            forall|j: int| 0 <= j < i ==> !is_scalar_with(#[trigger] ms[j], value@),
        decreases n - i,
    {
        assert(ms[i as int] == values@[i as int]@);
        match &values[i] {
            Node::Scalar { value: text, .. } => {
                if str_eq(text.as_str(), value) {
                    assert(is_scalar_with(ms[i as int], value@));
                    return true;
                }
            },
            _ => {},
        }
        i += 1;
    }
    false
}

/// `items` deduplicated: see `dedup_items`.
fn dedup_nodes(items: Vec<Node>) -> (r: Vec<Node>)
    ensures
        r@.map_values(|x: Node| x@) == dedup_items(items@.map_values(|x: Node| x@)),
{
    let ghost all = items@.map_values(|x: Node| x@);
    let mut out: Vec<Node> = Vec::new();
    for item in it: items
        invariant
            all == it.seq().map_values(|x: Node| x@),
            out@.map_values(|x: Node| x@) == dedup_items(all.take(it.index())),
    {
        let ghost k = it.index();
        assert(all.take(k + 1).drop_last() =~= all.take(k));
        assert(all.take(k + 1).last() == item@);
        let n = out.len();
        assert(out@.map_values(|x: Node| x@).take(n as int) =~= out@.map_values(|x: Node| x@));
        let known = match &item {
            Node::Scalar { value, .. } => has_scalar_among(&out, n, value.as_str()),
            _ => false,
        };
        let ghost before = out@.map_values(|x: Node| x@);
        if !known {
            out.push(item);
            assert(out@.map_values(|x: Node| x@) =~= before.push(item@));
        }
    }
    assert(all.take(all.len() as int) =~= all);
    out
}

fn merge_sequence(parent_field: &mut Option<Node>, included_field: Option<Node>, dedup: bool)
    ensures
        opt_model(*final(parent_field)) == merge_sequence_slot(
            opt_model(*old(parent_field)),
            opt_model(included_field),
            dedup,
        ),
{
    let included_items = match included_field {
        Some(Node::Sequence { values, span }) => {
            proof {
                lemma_sequence_view(values, span);
            }
            values
        },
        _ => {
            return ;
        },
    };
    let ghost inc = included_items@.map_values(|x: Node| x@);
    if included_items.len() == 0 {
        return ;
    }
    let current = parent_field.take();
    match current {
        None => {
            let items = if dedup {
                dedup_nodes(included_items)
            } else {
                included_items
            };
            *parent_field = Some(Node::sequence_at(items, Span::new(0, 0)));
        },
        Some(Node::Sequence { values, span }) => {
            proof {
                lemma_sequence_view(values, span);
            }
            let ghost existing = values@.map_values(|x: Node| x@);
            let mut values = values;
            let mut rest = included_items;
            values.append(&mut rest);
            assert(values@.map_values(|x: Node| x@) =~= existing + inc);
            let items = if dedup {
                dedup_nodes(values)
            } else {
                values
            };
            *parent_field = Some(Node::sequence_at(items, span));
        },
        Some(other) => {
            *parent_field = Some(other);
        },
    }
}

/// Whether one of the first `n` entries of `entries` has the key `key`.
fn has_key_among(entries: &Vec<MappingEntry>, n: usize, key: &str) -> (b: bool)
    requires
        n <= entries@.len(),
    ensures
        b == has_key(entries@.map_values(|e: MappingEntry| e@).take(n as int), key@),
{
    let ghost ms = entries@.map_values(|e: MappingEntry| e@).take(n as int);
    let mut i: usize = 0;
    while i < n
        invariant
            i <= n <= entries@.len(),
            ms == entries@.map_values(|e: MappingEntry| e@).take(n as int),
            forall|j: int| 0 <= j < i ==> (#[trigger] ms[j]).key != key@,
        decreases n - i,
    {
        assert(ms[i as int] == entries@[i as int]@);
        if str_eq(entries[i].key.as_str(), key) {
            assert(ms[i as int].key == key@);
            return true;
        }
        i += 1;
    }
    false
}

fn merge_vars(parent_field: &mut Option<Node>, included_field: Option<Node>)
    ensures
        opt_model(*final(parent_field)) == merge_vars_slot(
            opt_model(*old(parent_field)),
            opt_model(included_field),
        ),
{
    let included_entries = match included_field {
        Some(Node::Mapping { entries, span }) => {
            proof {
                lemma_mapping_view(entries, span);
            }
            entries
        },
        _ => {
            return ;
        },
    };
    let ghost inc = included_entries@.map_values(|e: MappingEntry| e@);
    if included_entries.len() == 0 {
        return ;
    }
    let current = parent_field.take();
    match current {
        None => {
            *parent_field = Some(Node::mapping_at(included_entries, Span::new(0, 0)));
        },
        Some(Node::Mapping { entries, span }) => {
            proof {
                lemma_mapping_view(entries, span);
            }
            let ghost existing = entries@.map_values(|e: MappingEntry| e@);
            let mut entries = entries;
            let n = entries.len();
            for entry in it: included_entries
                invariant
                    n == existing.len(),
                    n <= entries@.len(),
                    inc == it.seq().map_values(|e: MappingEntry| e@),
                    entries@.map_values(|e: MappingEntry| e@) == existing + fresh_entries(
                        existing,
                        inc.take(it.index()),
                    ),
            {
                let ghost k = it.index();
                assert(inc.take(k + 1).drop_last() =~= inc.take(k));
                assert(inc.take(k + 1).last() == entry@);
                assert(entries@.map_values(|e: MappingEntry| e@).take(n as int) =~= existing);
                let known = has_key_among(&entries, n, entry.key.as_str());
                let ghost before = entries@.map_values(|e: MappingEntry| e@);
                if !known {
                    entries.push(entry);
                    assert(entries@.map_values(|e: MappingEntry| e@) =~= before.push(entry@));
                }
            }
            assert(inc.take(inc.len() as int) =~= inc);
            *parent_field = Some(Node::mapping_at(entries, span));
        },
        Some(other) => {
            *parent_field = Some(other);
        },
    }
}

// ---------------------------------------------------------------------------
// Nesting: a merge builds no deeper tree than its inputs.
// ---------------------------------------------------------------------------

proof fn lemma_dedup_depth(items: Seq<NodeModel>, b: nat)
    requires
        forall|k: int| 0 <= k < items.len() ==> within_depth(#[trigger] items[k], b),
    ensures
        forall|j: int| 0 <= j < dedup_items(items).len() ==> within_depth(#[trigger] dedup_items(items)[j], b),
    decreases items.len(),
{
    if items.len() > 0 {
        let init = items.drop_last();
        assert forall|k: int| 0 <= k < init.len() implies within_depth(#[trigger] init[k], b) by {
            assert(init[k] == items[k]);
        }
        lemma_dedup_depth(init, b);
        let rest = dedup_items(init);
        if !is_known_scalar(rest, items.last()) {
            assert forall|j: int| 0 <= j < rest.push(items.last()).len() implies within_depth(
                #[trigger] rest.push(items.last())[j],
                b,
            ) by {
                if j < rest.len() {
                    assert(rest.push(items.last())[j] == rest[j]);
                }
            }
        }
    }
}

proof fn lemma_fresh_entries_depth(existing: Seq<EntryModel>, inc: Seq<EntryModel>, b: nat)
    requires
        forall|k: int| 0 <= k < inc.len() ==> within_depth(#[trigger] inc[k].value, b),
    ensures
        forall|j: int| 0 <= j < fresh_entries(existing, inc).len() ==> within_depth(#[trigger] fresh_entries(existing, inc)[j].value, b),
    decreases inc.len(),
{
    if inc.len() > 0 {
        let init = inc.drop_last();
        assert forall|k: int| 0 <= k < init.len() implies within_depth(#[trigger] init[k].value, b) by {
            assert(init[k] == inc[k]);
        }
        lemma_fresh_entries_depth(existing, init, b);
        let rest = fresh_entries(existing, init);
        if !has_key(existing, inc.last().key) {
            assert forall|j: int| 0 <= j < rest.push(inc.last()).len() implies within_depth(
                #[trigger] rest.push(inc.last())[j].value,
                b,
            ) by {
                if j < rest.len() {
                    assert(rest.push(inc.last())[j] == rest[j]);
                }
            }
        }
    }
}

proof fn lemma_sequence_slot_depth(p: Option<NodeModel>, i: Option<NodeModel>, dedup: bool)
    requires
        opt_within_depth(p),
        opt_within_depth(i),
    ensures
        opt_within_depth(merge_sequence_slot(p, i, dedup)),
{
    let b = max_nesting();
    match i {
        Some(NodeModel::Sequence { values: inc, .. }) => {
            if inc.len() > 0 {
                match p {
                    None => {
                        if dedup {
                            lemma_dedup_depth(inc, (b - 1) as nat);
                        }
                    },
                    Some(NodeModel::Sequence { values, span }) => {
                        let all = values + inc;
                        assert forall|j: int| 0 <= j < all.len() implies within_depth(
                            #[trigger] all[j],
                            (b - 1) as nat,
                        ) by {
                            if j < values.len() {
                                assert(all[j] == values[j]);
                            } else {
                                assert(all[j] == inc[j - values.len()]);
                            }
                        }
                        if dedup {
                            lemma_dedup_depth(all, (b - 1) as nat);
                        }
                    },
                    _ => {},
                }
            }
        },
        _ => {},
    }
}

proof fn lemma_vars_slot_depth(p: Option<NodeModel>, i: Option<NodeModel>)
    requires
        opt_within_depth(p),
        opt_within_depth(i),
    ensures
        opt_within_depth(merge_vars_slot(p, i)),
{
    let b = max_nesting();
    match i {
        Some(NodeModel::Mapping { entries: inc, .. }) => {
            if inc.len() > 0 {
                match p {
                    Some(NodeModel::Mapping { entries, span }) => {
                        let extra = fresh_entries(entries, inc);
                        lemma_fresh_entries_depth(entries, inc, (b - 1) as nat);
                        let all = entries + extra;
                        assert forall|j: int| 0 <= j < all.len() implies within_depth(
                            #[trigger] all[j].value,
                            (b - 1) as nat,
                        ) by {
                            if j < entries.len() {
                                assert(all[j] == entries[j]);
                            } else {
                                assert(all[j] == extra[j - entries.len()]);
                            }
                        }
                    },
                    _ => {},
                }
            }
        },
        _ => {},
    }
}

/// A merge of documents that nest within the limit nests within it too.
pub proof fn lemma_merge_within_depth(parent: DocumentModel, included: DocumentModel)
    requires
        document_within_depth(parent),
        document_within_depth(included),
    ensures
        document_within_depth(merge_model(parent, included)),
{
    lemma_sequence_slot_depth(parent.memory, included.memory, false);
    lemma_sequence_slot_depth(parent.tools, included.tools, true);
    lemma_sequence_slot_depth(parent.constraints, included.constraints, true);
    lemma_vars_slot_depth(parent.vars, included.vars);
}

/// Merges `included` into `parent`; `included_path` names the included
/// file in the messages. Returns one `E117` per single-valued key that both
/// documents define.
pub fn merge_into(parent: &mut Document, included: Document, included_path: &str) -> (diagnostics:
    DiagnosticBag)
    ensures
        final(parent)@ == merge_model(old(parent)@, included@),
        diagnostics@ == merge_diagnostics(old(parent)@, included@, included_path@),
        document_within_depth(old(parent)@) && document_within_depth(included@) ==> document_within_depth(final(parent)@),
{
    let mut diagnostics = DiagnosticBag::new();
    merge_scalar(&mut parent.agent, included.agent, "agent", included_path, &mut diagnostics);
    merge_scalar(&mut parent.system, included.system, "system", included_path, &mut diagnostics);
    merge_scalar(&mut parent.user, included.user, "user", included_path, &mut diagnostics);
    merge_scalar(&mut parent.output, included.output, "output", included_path, &mut diagnostics);
    merge_sequence(&mut parent.memory, included.memory, false);
    merge_sequence(&mut parent.tools, included.tools, true);
    merge_sequence(&mut parent.constraints, included.constraints, true);
    merge_vars(&mut parent.vars, included.vars);
    assert(diagnostics@ =~= merge_diagnostics(old(parent)@, included@, included_path@));
    proof {
        if document_within_depth(old(parent)@) && document_within_depth(included@) {
            lemma_merge_within_depth(old(parent)@, included@);
        }
    }
    diagnostics
}

// ---------------------------------------------------------------------------
// Laws.
// ---------------------------------------------------------------------------

/// Whether a key holds one value (and so can conflict in a merge).
pub open spec fn single_valued(k: TopLevelKey) -> bool {
    k == TopLevelKey::Agent || k == TopLevelKey::System || k == TopLevelKey::User || k
        == TopLevelKey::Output
}

/// Merging a document with nothing in it changes nothing and reports nothing.
pub proof fn law_merge_empty(parent: DocumentModel, path: Seq<char>)
    ensures
        merge_model(parent, empty_document()) == parent,
        merge_diagnostics(parent, empty_document(), path).len() == 0,
{
}

/// For a single-valued key the parent's value wins; an absent one is taken
/// from the included file.
pub proof fn law_merge_parent_wins(parent: DocumentModel, included: DocumentModel, k: TopLevelKey)
    requires
        single_valued(k),
    ensures
        field(parent, k) is Some ==> field(merge_model(parent, included), k) == field(parent, k),
        field(parent, k) is None ==> field(merge_model(parent, included), k) == field(included, k),
{
}

/// A merge reports exactly the single-valued keys that both files define,
/// each as an `E117` error.
pub proof fn law_merge_conflicts(parent: DocumentModel, included: DocumentModel, path: Seq<char>)
    ensures
        merge_diagnostics(parent, included, path).len() == 0 <==> (forall|k: TopLevelKey|
            single_valued(k) ==> !(#[trigger] field(parent, k) is Some && field(included, k) is Some)),
        forall|i: int|
            0 <= i < merge_diagnostics(parent, included, path).len() ==> (#[trigger] merge_diagnostics(
                parent,
                included,
                path,
            )[i]).code == Some("E117"@) && merge_diagnostics(parent, included, path)[i].severity
                == Severity::Error,
{
    let ds = merge_diagnostics(parent, included, path);
    if ds.len() == 0 {
        assert forall|k: TopLevelKey| single_valued(k) implies !(#[trigger] field(parent, k) is Some
            && field(included, k) is Some) by {
            if field(parent, k) is Some && field(included, k) is Some {
                match k {
                    TopLevelKey::Agent => assert(scalar_conflicts(parent.agent, included.agent, "agent"@, path).len() == 1),
                    TopLevelKey::System => assert(scalar_conflicts(parent.system, included.system, "system"@, path).len() == 1),
                    TopLevelKey::User => assert(scalar_conflicts(parent.user, included.user, "user"@, path).len() == 1),
                    _ => assert(scalar_conflicts(parent.output, included.output, "output"@, path).len() == 1),
                }
            }
        }
    } else {
        if parent.agent is Some && included.agent is Some {
            assert(!(field(parent, TopLevelKey::Agent) is Some && field(included, TopLevelKey::Agent) is Some) == false);
        } else if parent.system is Some && included.system is Some {
            assert(!(field(parent, TopLevelKey::System) is Some && field(included, TopLevelKey::System) is Some) == false);
        } else if parent.user is Some && included.user is Some {
            assert(!(field(parent, TopLevelKey::User) is Some && field(included, TopLevelKey::User) is Some) == false);
        } else {
            assert(!(field(parent, TopLevelKey::Output) is Some && field(included, TopLevelKey::Output) is Some) == false);
        }
    }
}

/// `memory` items of both files are all kept, the parent's first.
pub proof fn law_merge_memory_concatenates(
    parent: DocumentModel,
    included: DocumentModel,
    a: Seq<NodeModel>,
    b: Seq<NodeModel>,
    span_a: Span,
    span_b: Span,
)
    requires
        parent.memory == Some(NodeModel::Sequence { values: a, span: span_a }),
        included.memory == Some(NodeModel::Sequence { values: b, span: span_b }),
    ensures
        merge_model(parent, included).memory == Some(NodeModel::Sequence { values: a + b, span: span_a }),
{
    if b.len() == 0 {
        assert(a + b =~= a);
    }
}

proof fn lemma_known_in_push(items: Seq<NodeModel>, x: NodeModel, n: NodeModel)
    ensures
        is_known_scalar(items.push(x), n) == (is_known_scalar(items, n) || (n matches NodeModel::Scalar { value, .. } && is_scalar_with(x, value))),
{
    if let NodeModel::Scalar { value, .. } = n {
        if has_scalar(items, value) {
            let j = choose|j: int| 0 <= j < items.len() && #[trigger] is_scalar_with(items[j], value);
            assert(items.push(x)[j] == items[j]);
        }
        if is_scalar_with(x, value) {
            assert(items.push(x)[items.len() as int] == x);
        }
        if has_scalar(items.push(x), value) {
            let j = choose|j: int| 0 <= j < items.push(x).len() && #[trigger] is_scalar_with(items.push(x)[j], value);
            if j < items.len() {
                assert(items.push(x)[j] == items[j]);
            }
        }
    }
}

/// After deduplication no scalar repeats the text of an earlier one.
pub proof fn law_dedup_is_repeat_free(items: Seq<NodeModel>)
    ensures
        repeat_free(dedup_items(items)),
    decreases items.len(),
{
    if items.len() > 0 {
        law_dedup_is_repeat_free(items.drop_last());
        let rest = dedup_items(items.drop_last());
        if !is_known_scalar(rest, items.last()) {
            let out = rest.push(items.last());
            assert forall|j: int| 0 <= j < out.len() implies !is_known_scalar(out.take(j), #[trigger] out[j]) by {
                if j < rest.len() {
                    assert(out.take(j) =~= rest.take(j));
                    assert(out[j] == rest[j]);
                } else {
                    assert(out.take(j) =~= rest);
                }
            }
        }
    }
}

/// Deduplication loses no text: every scalar text of `items` is still there.
pub proof fn law_dedup_keeps_every_text(items: Seq<NodeModel>, v: Seq<char>)
    requires
        has_scalar(items, v),
    ensures
        has_scalar(dedup_items(items), v),
    decreases items.len(),
{
    let init = items.drop_last();
    let rest = dedup_items(init);
    let j = choose|j: int| 0 <= j < items.len() && #[trigger] is_scalar_with(items[j], v);
    if j < init.len() {
        assert(init[j] == items[j]);
        assert(is_scalar_with(init[j], v));
        law_dedup_keeps_every_text(init, v);
    }
    lemma_known_in_push(rest, items.last(), NodeModel::Scalar { value: v, span: zero_span() });
    if !is_known_scalar(rest, items.last()) {
        lemma_known_in_push(rest, items.last(), NodeModel::Scalar { value: v, span: zero_span() });
    }
    if j == init.len() && is_known_scalar(rest, items.last()) {
        assert(items.last() == items[j]);
    }
}

/// A list in which no scalar repeats is left as it is.
pub proof fn law_dedup_keeps_repeat_free(items: Seq<NodeModel>)
    requires
        repeat_free(items),
    ensures
        dedup_items(items) == items,
    decreases items.len(),
{
    if items.len() > 0 {
        let init = items.drop_last();
        assert forall|j: int| 0 <= j < init.len() implies !is_known_scalar(init.take(j), #[trigger] init[j]) by {
            assert(init.take(j) =~= items.take(j));
            assert(init[j] == items[j]);
        }
        law_dedup_keeps_repeat_free(init);
        assert(items.take(items.len() - 1) =~= init);
        assert(!is_known_scalar(init, items[items.len() - 1]));
        assert(init.push(items.last()) =~= items);
    }
}

/// After a merge that brings `tools` or `constraints` items, that list holds
/// no repeated scalar: the first occurrence stays.
pub proof fn law_merged_lists_are_deduplicated(parent: DocumentModel, included: DocumentModel, k: TopLevelKey)
    requires
        k == TopLevelKey::Tools || k == TopLevelKey::Constraints,
        field(included, k) matches Some(NodeModel::Sequence { values, .. }) && values.len() > 0,
        field(parent, k) is None || field(parent, k) matches Some(NodeModel::Sequence { .. }),
    ensures
        field(merge_model(parent, included), k) matches Some(NodeModel::Sequence { values, .. })
            && repeat_free(values),
{
    match (field(parent, k), field(included, k)) {
        (Some(NodeModel::Sequence { values: a, .. }), Some(NodeModel::Sequence { values: b, .. })) => {
            law_dedup_is_repeat_free(a + b);
        },
        (_, Some(NodeModel::Sequence { values: b, .. })) => {
            law_dedup_is_repeat_free(b);
        },
        _ => {},
    }
}

/// The entries that a `vars` merge adds never repeat a key of the parent's,
/// so every binding of the parent stays as it was.
pub proof fn law_fresh_entries_are_new(existing: Seq<EntryModel>, inc: Seq<EntryModel>)
    ensures
        forall|j: int|
            0 <= j < fresh_entries(existing, inc).len() ==> !has_key(
                existing,
                (#[trigger] fresh_entries(existing, inc)[j]).key,
            ),
    decreases inc.len(),
{
    if inc.len() > 0 {
        law_fresh_entries_are_new(existing, inc.drop_last());
        let rest = fresh_entries(existing, inc.drop_last());
        if !has_key(existing, inc.last().key) {
            assert forall|j: int| 0 <= j < rest.len() implies rest.push(inc.last())[j] == rest[j] by {}
        }
    }
}

/// The included file's composition directive never reaches the parent.
pub proof fn law_merge_drops_directive(parent: DocumentModel, included: DocumentModel)
    ensures
        merge_model(parent, included).includes == parent.includes,
{
}

// ---------------------------------------------------------------------------
// Bindings after a merge.
// ---------------------------------------------------------------------------

proof fn lemma_bindings_concat(a: Seq<EntryModel>, b: Seq<EntryModel>)
    ensures
        bindings_of(a + b) == bindings_of(a) + bindings_of(b),
    decreases b.len(),
{
    if b.len() == 0 {
        assert(a + b =~= a);
        assert(bindings_of(a) + bindings_of(b) =~= bindings_of(a));
    } else {
        lemma_bindings_concat(a, b.drop_last());
        assert((a + b).drop_last() =~= a + b.drop_last());
        assert((a + b).last() == b.last());
        match b.last().value {
            NodeModel::Scalar { value, .. } => {
                assert(bindings_of(a) + bindings_of(b) =~= (bindings_of(a) + bindings_of(b.drop_last())).push((b.last().key, value)));
            },
            _ => {},
        }
    }
}

proof fn lemma_lookup_concat(x: Seq<(Seq<char>, Seq<char>)>, y: Seq<(Seq<char>, Seq<char>)>, name: Seq<char>)
    ensures
        lookup(x + y, name) == if lookup(y, name) is Some {
            lookup(y, name)
        } else {
            lookup(x, name)
        },
    decreases y.len(),
{
    if y.len() == 0 {
        assert(x + y =~= x);
    } else {
        assert((x + y).drop_last() =~= x + y.drop_last());
        assert((x + y).last() == y.last());
        lemma_lookup_concat(x, y.drop_last(), name);
    }
}

proof fn lemma_lookup_push(s: Seq<(Seq<char>, Seq<char>)>, p: (Seq<char>, Seq<char>), name: Seq<char>)
    ensures
        lookup(s.push(p), name) == if p.0 == name {
            Some(p.1)
        } else {
            lookup(s, name)
        },
{
    assert(s.push(p).drop_last() =~= s);
    assert(s.push(p).last() == p);
}

proof fn lemma_bindings_keys(entries: Seq<EntryModel>, name: Seq<char>)
    requires
        !has_key(entries, name),
    ensures
        lookup(bindings_of(entries), name) is None,
    decreases entries.len(),
{
    if entries.len() > 0 {
        let init = entries.drop_last();
        assert(!has_key(init, name)) by {
            if has_key(init, name) {
                let j = choose|j: int| 0 <= j < init.len() && init[j].key == name;
                assert(entries[j].key == name);
            }
        }
        lemma_bindings_keys(init, name);
        assert(entries[entries.len() - 1].key != name);
        match entries.last().value {
            NodeModel::Scalar { value, .. } => {
                lemma_lookup_push(bindings_of(init), (entries.last().key, value), name);
            },
            _ => {},
        }
    }
}

proof fn lemma_bound_has_key(entries: Seq<EntryModel>, name: Seq<char>)
    requires
        lookup(bindings_of(entries), name) is Some,
    ensures
        has_key(entries, name),
{
    if !has_key(entries, name) {
        lemma_bindings_keys(entries, name);
    }
}

proof fn lemma_fresh_entries_keys(existing: Seq<EntryModel>, inc: Seq<EntryModel>, name: Seq<char>)
    requires
        has_key(existing, name),
    ensures
        !has_key(fresh_entries(existing, inc), name),
{
    law_fresh_entries_are_new(existing, inc);
    let f = fresh_entries(existing, inc);
    if has_key(f, name) {
        let j = choose|j: int| 0 <= j < f.len() && f[j].key == name;
        assert(!has_key(existing, f[j].key));
    }
}

/// After a merge, a name bound in the parent's `vars` keeps the parent's
/// value: the parent wins.
pub proof fn law_merged_vars_parent_wins(
    parent: DocumentModel,
    included: DocumentModel,
    a: Seq<EntryModel>,
    b: Seq<EntryModel>,
    span_a: Span,
    span_b: Span,
    name: Seq<char>,
)
    requires
        parent.vars == Some(NodeModel::Mapping { entries: a, span: span_a }),
        included.vars == Some(NodeModel::Mapping { entries: b, span: span_b }),
        lookup(bindings_of(a), name) is Some,
    ensures
        lookup(document_bindings(merge_model(parent, included)), name) == lookup(bindings_of(a), name),
{
    if b.len() > 0 {
        let f = fresh_entries(a, b);
        lemma_bindings_concat(a, f);
        lemma_bound_has_key(a, name);
        lemma_fresh_entries_keys(a, b, name);
        lemma_bindings_keys(f, name);
        lemma_lookup_concat(bindings_of(a), bindings_of(f), name);
    }
}

/// After a merge, a name that only the included file binds is bound to the
/// included value.
pub proof fn law_merged_vars_add_new_names(
    parent: DocumentModel,
    included: DocumentModel,
    a: Seq<EntryModel>,
    b: Seq<EntryModel>,
    span_a: Span,
    span_b: Span,
    name: Seq<char>,
)
    requires
        parent.vars == Some(NodeModel::Mapping { entries: a, span: span_a }),
        included.vars == Some(NodeModel::Mapping { entries: b, span: span_b }),
        !has_key(a, name),
    ensures
        lookup(document_bindings(merge_model(parent, included)), name) == lookup(bindings_of(b), name),
{
    if b.len() > 0 {
        let f = fresh_entries(a, b);
        lemma_bindings_concat(a, f);
        lemma_bindings_keys(a, name);
        lemma_lookup_concat(bindings_of(a), bindings_of(f), name);
        lemma_fresh_lookup(a, b, name);
    } else {
        lemma_bindings_keys(a, name);
        assert(bindings_of(b) =~= Seq::<(Seq<char>, Seq<char>)>::empty());
    }
}

/// Leaving out entries whose key is bound elsewhere does not change what a
/// name bound nowhere else looks up to.
proof fn lemma_fresh_lookup(existing: Seq<EntryModel>, inc: Seq<EntryModel>, name: Seq<char>)
    requires
        !has_key(existing, name),
    ensures
        lookup(bindings_of(fresh_entries(existing, inc)), name) == lookup(bindings_of(inc), name),
    decreases inc.len(),
{
    if inc.len() > 0 {
        lemma_fresh_lookup(existing, inc.drop_last(), name);
        let rest = fresh_entries(existing, inc.drop_last());
        let x = inc.last();
        if has_key(existing, x.key) {
            assert(x.key != name);
            match x.value {
                NodeModel::Scalar { value, .. } => {
                    lemma_lookup_push(bindings_of(inc.drop_last()), (x.key, value), name);
                },
                _ => {},
            }
        } else {
            assert(fresh_entries(existing, inc) == rest.push(x));
            assert(rest.push(x).drop_last() =~= rest);
            assert(rest.push(x).last() == x);
            match x.value {
                NodeModel::Scalar { value, .. } => {
                    lemma_lookup_push(bindings_of(inc.drop_last()), (x.key, value), name);
                    lemma_lookup_push(bindings_of(rest), (x.key, value), name);
                },
                _ => {},
            }
        }
    }
}

/// Where the parent has no `vars` block, the merged document binds exactly
/// what the included file binds, each name to the included value.
pub proof fn law_merged_vars_without_parent_block(parent: DocumentModel, included: DocumentModel, name: Seq<char>)
    requires
        parent.vars is None,
    ensures
        lookup(document_bindings(merge_model(parent, included)), name) == lookup(
            document_bindings(included),
            name,
        ),
{
    match included.vars {
        Some(NodeModel::Mapping { entries, .. }) => {
            if entries.len() == 0 {
                assert(bindings_of(entries) =~= Seq::<(Seq<char>, Seq<char>)>::empty());
            }
        },
        _ => {},
    }
}

} // verus!
