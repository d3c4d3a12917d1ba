//! Semantic validation of a parsed document.
use vstd::prelude::*;

use crate::ast::{
    field, key_name, kind_name_of, lemma_mapping_view, lemma_sequence_view, model_span, Document,
    DocumentModel, EntryModel, MappingEntry, Node, NodeModel, TopLevelKey, ordered_keys,
};
use crate::diagnostics::{semantic_diag, span_at, Diagnostic, DiagnosticBag, DiagnosticModel, DiagnosticPhase, Severity, Span};
use crate::text::{decimal, decimal_string, is_blank, push_str, string_of, trim};
use crate::transpile::vars::{extract_references, references};

verus! {

// ---------------------------------------------------------------------------
// The rules, stated over document models.
// ---------------------------------------------------------------------------

/// `agent` and `system` must be present.
pub open spec fn required_diags(d: DocumentModel) -> Seq<DiagnosticModel> {
    let agent = if d.agent is None {
        seq![semantic_diag("missing required key: `agent`"@, Some(span_at(1, 1)), "E101"@)]
    } else {
        Seq::empty()
    };
    let system = if d.system is None {
        seq![semantic_diag("missing required key: `system`"@, Some(span_at(1, 1)), "E101"@)]
    } else {
        Seq::empty()
    };
    agent + system
}

/// Whether entry `i` repeats the key of an earlier entry.
pub open spec fn key_seen_before(entries: Seq<EntryModel>, i: int) -> bool {
    exists|j: int| 0 <= j < i && entries[j].key == entries[i].key
}

/// Repeated keys inside `n`, which sits at `path`.
pub open spec fn dup_node(n: NodeModel, path: Seq<char>) -> Seq<DiagnosticModel>
    decreases n, 0nat,
{
    match n {
        NodeModel::Scalar { .. } => Seq::empty(),
        NodeModel::Sequence { values, .. } => dup_items(values, path, values.len()),
        NodeModel::Mapping { entries, .. } => dup_entries(entries, path, entries.len()),
    }
}

/// Repeated keys inside the first `k` items of a sequence at `path`.
pub open spec fn dup_items(values: Seq<NodeModel>, path: Seq<char>, k: nat) -> Seq<DiagnosticModel>
    decreases values, k,
{
    if k == 0 || k > values.len() {
        Seq::empty()
    } else {
        dup_items(values, path, (k - 1) as nat) + dup_node(
            values[k - 1],
            path + "["@ + decimal((k - 1) as nat) + "]"@,
        )
    }
}

/// Repeated keys among and inside the first `k` entries of a mapping at `path`.
pub open spec fn dup_entries(entries: Seq<EntryModel>, path: Seq<char>, k: nat) -> Seq<DiagnosticModel>
    decreases entries, k,
{
    if k == 0 || k > entries.len() {
        Seq::empty()
    } else {
        let e = entries[k - 1];
        let here = if key_seen_before(entries, k - 1) {
            seq![
                semantic_diag(
                    "duplicate key `"@ + e.key + "` in `"@ + path + "`"@,
                    Some(e.span),
                    "E102"@,
                ),
            ]
        } else {
            Seq::empty()
        };
        dup_entries(entries, path, (k - 1) as nat) + here + dup_node(e.value, path + "."@ + e.key)
    }
}

/// Repeated keys in the blocks of the first `k` reserved keys.
pub open spec fn dup_keys(d: DocumentModel, k: nat) -> Seq<DiagnosticModel>
    decreases k,
{
    if k == 0 || k > 8 {
        Seq::empty()
    } else {
        let key = ordered_keys()[k - 1];
        dup_keys(d, (k - 1) as nat) + match field(d, key) {
            Some(n) => dup_node(n, key_name(key)),
            None => Seq::empty(),
        }
    }
}

/// `` `name` `` followed by `tail`.
pub open spec fn named(name: Seq<char>, tail: Seq<char>) -> Seq<char> {
    "`"@ + name + tail
}

/// A field that must be a non-empty scalar.
pub open spec fn scalar_field_diags(d: DocumentModel, k: TopLevelKey) -> Seq<DiagnosticModel> {
    match field(d, k) {
        None => Seq::empty(),
        Some(n) => match n {
            NodeModel::Scalar { value, span } => if trim(value).len() > 0 {
                Seq::empty()
            } else {
                seq![semantic_diag(named(key_name(k), "` must not be empty"@), Some(span), "E103"@)]
            },
            _ => seq![
                semantic_diag(
                    named(key_name(k), "` must be a scalar value, found "@) + kind_name_of(n),
                    Some(model_span(n)),
                    "E104"@,
                ),
            ],
        },
    }
}

/// A field that must be a non-empty scalar or a non-empty mapping.
pub open spec fn prompt_field_diags(d: DocumentModel, k: TopLevelKey) -> Seq<DiagnosticModel> {
    match field(d, k) {
        None => Seq::empty(),
        Some(n) => match n {
            NodeModel::Scalar { value, span } => if trim(value).len() == 0 {
                seq![semantic_diag(named(key_name(k), "` must not be empty"@), Some(span), "E103"@)]
            } else {
                Seq::empty()
            },
            NodeModel::Mapping { entries, span } => if entries.len() == 0 {
                seq![
                    semantic_diag(
                        named(key_name(k), "` mapping must not be empty"@),
                        Some(span),
                        "E111"@,
                    ),
                ]
            } else {
                Seq::empty()
            },
            _ => seq![
                semantic_diag(
                    named(key_name(k), "` must be a scalar or mapping, found "@) + kind_name_of(n),
                    Some(model_span(n)),
                    "E105"@,
                ),
            ],
        },
    }
}

/// The first item from `i` on that is an empty scalar or not a scalar.
pub open spec fn first_bad_item(values: Seq<NodeModel>, name: Seq<char>, i: nat) -> Seq<DiagnosticModel>
    decreases values.len() - i,
{
    if i >= values.len() {
        Seq::empty()
    } else {
        match values[i as int] {
            NodeModel::Scalar { value, span } => if trim(value).len() == 0 {
                seq![semantic_diag(named(name, "` must not be empty"@), Some(span), "E103"@)]
            } else {
                first_bad_item(values, name, i + 1)
            },
            other => seq![
                semantic_diag(
                    named(name, "` may only contain scalar list items"@),
                    Some(model_span(other)),
                    "E107"@,
                ),
            ],
        }
    }
}

/// Whether item `i` is a scalar repeating the value of an earlier scalar item.
pub open spec fn item_seen_before(values: Seq<NodeModel>, i: int) -> bool {
    scalar_text(values[i]) is Some && exists|j: int|
        0 <= j < i && scalar_text(#[trigger] values[j]) == scalar_text(values[i])
}

/// The text of a scalar node.
pub open spec fn scalar_text(n: NodeModel) -> Option<Seq<char>> {
    match n {
        NodeModel::Scalar { value, .. } => Some(value),
        _ => None,
    }
}

/// Repeated scalar items among the first `k` items.
pub open spec fn duplicate_items(values: Seq<NodeModel>, name: Seq<char>, k: nat) -> Seq<DiagnosticModel>
    decreases k,
{
    if k == 0 || k > values.len() {
        Seq::empty()
    } else {
        let before = duplicate_items(values, name, (k - 1) as nat);
        match values[k - 1] {
            NodeModel::Scalar { value, span } => if item_seen_before(values, k - 1) {
                before.push(
                    semantic_diag(
                        "duplicate item `"@ + value + "` in `"@ + name + "`"@,
                        Some(span),
                        "E113"@,
                    ),
                )
            } else {
                before
            },
            _ => before,
        }
    }
}

/// A field that must be a non-empty sequence of non-empty scalars; `tools`
/// and `constraints` must not repeat an item.
pub open spec fn sequence_field_diags(d: DocumentModel, k: TopLevelKey) -> Seq<DiagnosticModel> {
    match field(d, k) {
        None => Seq::empty(),
        Some(n) => match n {
            NodeModel::Sequence { values, span } => if values.len() == 0 {
                seq![
                    semantic_diag(
                        named(key_name(k), "` sequence must not be empty"@),
                        Some(span),
                        "E112"@,
                    ),
                ]
            } else {
                first_bad_item(values, key_name(k), 0) + if k == TopLevelKey::Tools || k
                    == TopLevelKey::Constraints {
                    duplicate_items(values, key_name(k), values.len())
                } else {
                    Seq::empty()
                }
            },
            _ => seq![
                semantic_diag(
                    named(key_name(k), "` must be a sequence of scalar values"@),
                    Some(model_span(n)),
                    "E106"@,
                ),
            ],
        },
    }
}

/// `output` must be a scalar or a non-empty mapping.
pub open spec fn output_diags(d: DocumentModel) -> Seq<DiagnosticModel> {
    match d.output {
        None => Seq::empty(),
        Some(n) => match n {
            NodeModel::Scalar { .. } => Seq::empty(),
            NodeModel::Mapping { entries, span } => if entries.len() == 0 {
                seq![semantic_diag("`output` mapping must not be empty"@, Some(span), "E111"@)]
            } else {
                Seq::empty()
            },
            _ => seq![
                semantic_diag(
                    "`output` must be a scalar or mapping"@,
                    Some(model_span(n)),
                    "E108"@,
                ),
            ],
        },
    }
}

/// The entries of `vars`, among the first `k`, that are empty or not scalars.
pub open spec fn vars_entry_diags(entries: Seq<EntryModel>, k: nat) -> Seq<DiagnosticModel>
    decreases k,
{
    if k == 0 || k > entries.len() {
        Seq::empty()
    } else {
        let before = vars_entry_diags(entries, (k - 1) as nat);
        let e = entries[k - 1];
        match e.value {
            NodeModel::Scalar { value, .. } => if trim(value).len() == 0 {
                before.push(
                    semantic_diag(
                        "`vars."@ + e.key + "` must not be empty"@,
                        Some(e.span),
                        "E103"@,
                    ),
                )
            } else {
                before
            },
            _ => before.push(
                semantic_diag("`vars."@ + e.key + "` must be a scalar value"@, Some(e.span), "E110"@),
            ),
        }
    }
}

/// `vars` must be a mapping of non-empty scalars.
pub open spec fn vars_diags(d: DocumentModel) -> Seq<DiagnosticModel> {
    match d.vars {
        None => Seq::empty(),
        Some(n) => match n {
            NodeModel::Mapping { entries, .. } => vars_entry_diags(entries, entries.len()),
            _ => seq![
                semantic_diag(
                    "`vars` must be a mapping of scalar values"@,
                    Some(model_span(n)),
                    "E109"@,
                ),
            ],
        },
    }
}

/// The names that `vars` defines.
pub open spec fn defined_names(d: DocumentModel) -> Seq<Seq<char>> {
    match d.vars {
        Some(NodeModel::Mapping { entries, .. }) => entries.map_values(|e: EntryModel| e.key),
        _ => Seq::empty(),
    }
}

/// The first `k` names that are not defined, each once, in order of first use.
pub open spec fn undefined_names(names: Seq<Seq<char>>, defined: Seq<Seq<char>>, k: nat) -> Seq<Seq<char>>
    decreases k,
{
    if k == 0 || k > names.len() {
        Seq::empty()
    } else {
        let before = undefined_names(names, defined, (k - 1) as nat);
        let n = names[k - 1];
        if defined.contains(n) || names.take(k - 1).contains(n) {
            before
        } else {
            before.push(n)
        }
    }
}

pub open spec fn undefined_diag(name: Seq<char>, span: Span) -> DiagnosticModel {
    semantic_diag(
        "undefined var reference: `"@ + name + "` is not defined in `vars`"@,
        Some(span),
        "E114"@,
    )
}

/// Undefined references inside `n`.
pub open spec fn ref_node(n: NodeModel, defined: Seq<Seq<char>>) -> Seq<DiagnosticModel>
    decreases n, 0nat,
{
    match n {
        NodeModel::Scalar { value, span } => {
            let names = references(value);
            undefined_names(names, defined, names.len()).map_values(
                |name: Seq<char>| undefined_diag(name, span),
            )
        },
        NodeModel::Sequence { values, .. } => ref_items(values, defined, values.len()),
        NodeModel::Mapping { entries, .. } => ref_entries(entries, defined, entries.len()),
    }
}

pub open spec fn ref_items(values: Seq<NodeModel>, defined: Seq<Seq<char>>, k: nat) -> Seq<DiagnosticModel>
    decreases values, k,
{
    if k == 0 || k > values.len() {
        Seq::empty()
    } else {
        ref_items(values, defined, (k - 1) as nat) + ref_node(values[k - 1], defined)
    }
}

pub open spec fn ref_entries(entries: Seq<EntryModel>, defined: Seq<Seq<char>>, k: nat) -> Seq<DiagnosticModel>
    decreases entries, k,
{
    if k == 0 || k > entries.len() {
        Seq::empty()
    } else {
        ref_entries(entries, defined, (k - 1) as nat) + ref_node(entries[k - 1].value, defined)
    }
}

/// The keys whose scalars may hold references.
pub open spec fn reference_keys() -> Seq<TopLevelKey> {
    seq![
        TopLevelKey::System,
        TopLevelKey::User,
        TopLevelKey::Memory,
        TopLevelKey::Tools,
        TopLevelKey::Output,
        TopLevelKey::Constraints,
    ]
}

/// Undefined references in the blocks of the first `k` reference keys.
pub open spec fn ref_keys(d: DocumentModel, k: nat) -> Seq<DiagnosticModel>
    decreases k,
{
    if k == 0 || k > 6 {
        Seq::empty()
    } else {
        let key = reference_keys()[k - 1];
        ref_keys(d, (k - 1) as nat) + match field(d, key) {
            Some(n) => ref_node(n, defined_names(d)),
            None => Seq::empty(),
        }
    }
}

/// Every diagnostic the validator reports for `d`, in the order it reports them.
pub open spec fn validate_model(d: DocumentModel) -> Seq<DiagnosticModel> {
    required_diags(d) + dup_keys(d, 8) + scalar_field_diags(d, TopLevelKey::Agent)
        + prompt_field_diags(d, TopLevelKey::System) + prompt_field_diags(d, TopLevelKey::User)
        + sequence_field_diags(d, TopLevelKey::Memory) + sequence_field_diags(d, TopLevelKey::Tools)
        + output_diags(d) + sequence_field_diags(d, TopLevelKey::Constraints) + vars_diags(d)
        + ref_keys(d, 6)
}

// ---------------------------------------------------------------------------
// Implementation.
// ---------------------------------------------------------------------------

fn push_semantic(diagnostics: &mut DiagnosticBag, message: String, span: Option<Span>, code: &'static str)
    ensures
        final(diagnostics)@ == old(diagnostics)@.push(semantic_diag(message@, span, code@)),
{
    diagnostics.push(Diagnostic::semantic_error(message, span).with_code(code));
}

fn named_message(name: &str, tail: &str) -> (r: String)
    ensures
        r@ == named(name@, tail@),
{
    let mut r = string_of("`");
    push_str(&mut r, name);
    push_str(&mut r, tail);
    r
}

fn validate_required_structure(document: &Document, diagnostics: &mut DiagnosticBag)
    ensures
        final(diagnostics)@ == old(diagnostics)@ + required_diags(document@),
{
    let ghost start = diagnostics@;
    if document.agent.is_none() {
        push_semantic(
            diagnostics,
            string_of("missing required key: `agent`"),
            Some(Span::new(1, 1)),
            "E101",
        );
    }
    let ghost mid = diagnostics@;
    if document.system.is_none() {
        push_semantic(
            diagnostics,
            string_of("missing required key: `system`"),
            Some(Span::new(1, 1)),
            "E101",
        );
    }
    assert(diagnostics@ =~= start + required_diags(document@));
}

#[verifier::loop_isolation(false)]
fn validate_duplicate_keys(node: &Node, path: &str, diagnostics: &mut DiagnosticBag)
    ensures
        final(diagnostics)@ == old(diagnostics)@ + dup_node(node@, path@),
    decreases node,
{
    let ghost start = diagnostics@;
    match node {
        Node::Scalar { .. } => {
            assert(diagnostics@ =~= start + dup_node(node@, path@));
        },
        Node::Sequence { values, span } => {
            proof {
                lemma_sequence_view(*values, *span);
            }
            let ghost vm = values@.map_values(|n: Node| n@);
            let mut index: usize = 0;
            assert(diagnostics@ =~= start + dup_items(vm, path@, 0));
            while index < values.len()
                invariant
                    index <= values@.len(),
                    vm == values@.map_values(|n: Node| n@),
                    diagnostics@ == start + dup_items(vm, path@, index as nat),
                decreases values@.len() - index,
            {
                proof {
                    assert(decreases_to!(*node => *values));
                    assert(decreases_to!(*values => values@));
                    assert(decreases_to!(values@ => values@[index as int]));
                }
                let mut item_path = string_of(path);
                push_str(&mut item_path, "[");
                let digits = decimal_string(index as u128);
                push_str(&mut item_path, digits.as_str());
                push_str(&mut item_path, "]");
                let ghost before = diagnostics@;
                validate_duplicate_keys(&values[index], item_path.as_str(), diagnostics);
                assert(vm[index as int] == values@[index as int]@);
                assert(diagnostics@ =~= start + dup_items(vm, path@, (index + 1) as nat));
                index += 1;
            }
        },
        Node::Mapping { entries, span } => {
            proof {
                lemma_mapping_view(*entries, *span);
            }
            let ghost em = entries@.map_values(|e: MappingEntry| e@);
            let mut index: usize = 0;
            assert(diagnostics@ =~= start + dup_entries(em, path@, 0));
            while index < entries.len()
                invariant
                    index <= entries@.len(),
                    em == entries@.map_values(|e: MappingEntry| e@),
                    diagnostics@ == start + dup_entries(em, path@, index as nat),
                decreases entries@.len() - index,
            {
                proof {
                    assert(decreases_to!(*node => *entries));
                    assert(decreases_to!(*entries => entries@));
                    assert(decreases_to!(entries@ => entries@[index as int]));
                    assert(decreases_to!(entries@[index as int] => entries@[index as int].value));
                }
                let entry = &entries[index];
                assert(em[index as int] == entry@);
                // Whether an earlier entry has this key.
                let mut j: usize = 0;
                let mut seen = false;
                while j < index
                    invariant
                        j <= index < entries@.len(),
                        em == entries@.map_values(|e: MappingEntry| e@),
                        seen == exists|m: int| 0 <= m < j && em[m].key == em[index as int].key,
                    decreases index - j,
                {
                    if entries[j].key.eq(&entry.key) {
                        assert(em[j as int].key == em[index as int].key);
                        seen = true;
                    }
                    j += 1;
                }
                let ghost before = diagnostics@;
                if seen {
                    let mut msg = string_of("duplicate key `");
                    push_str(&mut msg, entry.key.as_str());
                    push_str(&mut msg, "` in `");
                    push_str(&mut msg, path);
                    push_str(&mut msg, "`");
                    push_semantic(diagnostics, msg, Some(entry.span), "E102");
                }
                let mut entry_path = string_of(path);
                push_str(&mut entry_path, ".");
                push_str(&mut entry_path, entry.key.as_str());
                validate_duplicate_keys(&entry.value, entry_path.as_str(), diagnostics);
                assert(diagnostics@ =~= start + dup_entries(em, path@, (index + 1) as nat));
                index += 1;
            }
        },
    }
}

fn validate_scalar_field(document: &Document, key: TopLevelKey, diagnostics: &mut DiagnosticBag)
    ensures
        final(diagnostics)@ == old(diagnostics)@ + scalar_field_diags(document@, key),
{
    let ghost start = diagnostics@;
    let node = match document.get(key) {
        Some(n) => n,
        None => {
            assert(diagnostics@ =~= start + scalar_field_diags(document@, key));
            return;
        },
    };
    match node {
        Node::Scalar { value, span } => {
            if is_blank(value.as_str()) {
                let msg = named_message(key.as_str(), "` must not be empty");
                push_semantic(diagnostics, msg, Some(*span), "E103");
            }
        },
        _ => {
            let mut msg = named_message(key.as_str(), "` must be a scalar value, found ");
            push_str(&mut msg, node.kind_name());
            push_semantic(diagnostics, msg, Some(node.span()), "E104");
        },
    }
    assert(diagnostics@ =~= start + scalar_field_diags(document@, key));
}

fn validate_prompt_field(document: &Document, key: TopLevelKey, diagnostics: &mut DiagnosticBag)
    ensures
        final(diagnostics)@ == old(diagnostics)@ + prompt_field_diags(document@, key),
{
    let ghost start = diagnostics@;
    let node = match document.get(key) {
        Some(n) => n,
        None => {
            assert(diagnostics@ =~= start + prompt_field_diags(document@, key));
            return;
        },
    };
    match node {
        Node::Scalar { value, span } => {
            if is_blank(value.as_str()) {
                let msg = named_message(key.as_str(), "` must not be empty");
                push_semantic(diagnostics, msg, Some(*span), "E103");
            }
        },
        Node::Mapping { entries, span } => {
            proof {
                lemma_mapping_view(*entries, *span);
            }
            if entries.len() == 0 {
                let msg = named_message(key.as_str(), "` mapping must not be empty");
                push_semantic(diagnostics, msg, Some(*span), "E111");
            }
        },
        _ => {
            let mut msg = named_message(key.as_str(), "` must be a scalar or mapping, found ");
            push_str(&mut msg, node.kind_name());
            push_semantic(diagnostics, msg, Some(node.span()), "E105");
        },
    }
    assert(diagnostics@ =~= start + prompt_field_diags(document@, key));
}

#[verifier::loop_isolation(false)]
fn validate_sequence_field(document: &Document, key: TopLevelKey, diagnostics: &mut DiagnosticBag)
    ensures
        final(diagnostics)@ == old(diagnostics)@ + sequence_field_diags(document@, key),
{
    let ghost start = diagnostics@;
    let node = match document.get(key) {
        Some(n) => n,
        None => {
            assert(diagnostics@ =~= start + sequence_field_diags(document@, key));
            return;
        },
    };
    let (values, span) = match node {
        Node::Sequence { values, span } => (values, span),
        _ => {
            let msg = named_message(key.as_str(), "` must be a sequence of scalar values");
            push_semantic(diagnostics, msg, Some(node.span()), "E106");
            assert(diagnostics@ =~= start + sequence_field_diags(document@, key));
            return;
        },
    };
    proof {
        lemma_sequence_view(*values, *span);
    }
    let ghost vm = values@.map_values(|n: Node| n@);
    let ghost name = key_name(key);
    if values.len() == 0 {
        let msg = named_message(key.as_str(), "` sequence must not be empty");
        push_semantic(diagnostics, msg, Some(*span), "E112");
        assert(diagnostics@ =~= start + sequence_field_diags(document@, key));
        return;
    }
    // The first item that is an empty scalar or not a scalar.
    let mut i: usize = 0;
    while i < values.len()
        invariant
            i <= values@.len(),
            vm == values@.map_values(|n: Node| n@),
            diagnostics@ == start,
            first_bad_item(vm, name, 0) == first_bad_item(vm, name, i as nat),
        decreases values@.len() - i,
    {
        assert(vm[i as int] == values@[i as int]@);
        match &values[i] {
            Node::Scalar { value, span: item_span } => {
                if is_blank(value.as_str()) {
                    let msg = named_message(key.as_str(), "` must not be empty");
                    push_semantic(diagnostics, msg, Some(*item_span), "E103");
                    break;
                }
            },
            other => {
                let msg = named_message(key.as_str(), "` may only contain scalar list items");
                push_semantic(diagnostics, msg, Some(other.span()), "E107");
                break;
            },
        }
        i += 1;
    }
    let ghost after_first = diagnostics@;
    assert(after_first == start + first_bad_item(vm, name, 0));
    // Repeated items, for the keys that forbid them.
    if key == TopLevelKey::Tools || key == TopLevelKey::Constraints {
        let mut i: usize = 0;
        while i < values.len()
            invariant
                i <= values@.len(),
                vm == values@.map_values(|n: Node| n@),
                diagnostics@ == after_first + duplicate_items(vm, name, i as nat),
            decreases values@.len() - i,
        {
            assert(vm[i as int] == values@[i as int]@);
            match &values[i] {
                Node::Scalar { value: current, span: current_span } => {
                    let mut j: usize = 0;
                    let mut duplicate = false;
                    while j < i
                        invariant
                            j <= i < values@.len(),
                            vm == values@.map_values(|n: Node| n@),
                            vm[i as int] == (NodeModel::Scalar { value: current@, span: *current_span }),
                            duplicate == exists|m: int|
                                0 <= m < j && scalar_text(#[trigger] vm[m]) == Some(current@),
                        decreases i - j,
                    {
                        assert(vm[j as int] == values@[j as int]@);
                        match &values[j] {
                            Node::Scalar { value: earlier, .. } => {
                                if earlier.eq(current) {
                                    assert(scalar_text(vm[j as int]) == Some(current@));
                                    duplicate = true;
                                }
                            },
                            _ => {},
                        }
                        j += 1;
                    }
                    if duplicate {
                        let mut msg = string_of("duplicate item `");
                        push_str(&mut msg, current.as_str());
                        push_str(&mut msg, "` in `");
                        push_str(&mut msg, key.as_str());
                        push_str(&mut msg, "`");
                        push_semantic(diagnostics, msg, Some(*current_span), "E113");
                    }
                },
                _ => {},
            }
            i += 1;
        }
    }
    assert(diagnostics@ =~= start + sequence_field_diags(document@, key));
}

fn validate_output_field(document: &Document, diagnostics: &mut DiagnosticBag)
    ensures
        final(diagnostics)@ == old(diagnostics)@ + output_diags(document@),
{
    let ghost start = diagnostics@;
    let node = match document.get(TopLevelKey::Output) {
        Some(n) => n,
        None => {
            assert(diagnostics@ =~= start + output_diags(document@));
            return;
        },
    };
    match node {
        Node::Scalar { .. } => {},
        Node::Mapping { entries, span } => {
            proof {
                lemma_mapping_view(*entries, *span);
            }
            if entries.len() == 0 {
                push_semantic(
                    diagnostics,
                    string_of("`output` mapping must not be empty"),
                    Some(*span),
                    "E111",
                );
            }
        },
        _ => {
            push_semantic(
                diagnostics,
                string_of("`output` must be a scalar or mapping"),
                Some(node.span()),
                "E108",
            );
        },
    }
    assert(diagnostics@ =~= start + output_diags(document@));
}

#[verifier::loop_isolation(false)]
fn validate_vars_field(document: &Document, diagnostics: &mut DiagnosticBag)
    ensures
        final(diagnostics)@ == old(diagnostics)@ + vars_diags(document@),
{
    let ghost start = diagnostics@;
    let node = match document.get(TopLevelKey::Vars) {
        Some(n) => n,
        None => {
            assert(diagnostics@ =~= start + vars_diags(document@));
            return;
        },
    };
    let (entries, span) = match node {
        Node::Mapping { entries, span } => (entries, span),
        _ => {
            push_semantic(
                diagnostics,
                string_of("`vars` must be a mapping of scalar values"),
                Some(node.span()),
                "E109",
            );
            assert(diagnostics@ =~= start + vars_diags(document@));
            return;
        },
    };
    proof {
        lemma_mapping_view(*entries, *span);
    }
    let ghost em = entries@.map_values(|e: MappingEntry| e@);
    let mut i: usize = 0;
    assert(diagnostics@ =~= start + vars_entry_diags(em, 0));
    while i < entries.len()
        invariant
            i <= entries@.len(),
            em == entries@.map_values(|e: MappingEntry| e@),
            diagnostics@ == start + vars_entry_diags(em, i as nat),
        decreases entries@.len() - i,
    {
        let entry = &entries[i];
        assert(em[i as int] == entry@);
        match &entry.value {
            Node::Scalar { value, .. } => {
                if is_blank(value.as_str()) {
                    let mut msg = string_of("`vars.");
                    push_str(&mut msg, entry.key.as_str());
                    push_str(&mut msg, "` must not be empty");
                    push_semantic(diagnostics, msg, Some(entry.span), "E103");
                }
            },
            _ => {
                let mut msg = string_of("`vars.");
                push_str(&mut msg, entry.key.as_str());
                push_str(&mut msg, "` must be a scalar value");
                push_semantic(diagnostics, msg, Some(entry.span), "E110");
            },
        }
        assert(diagnostics@ =~= start + vars_entry_diags(em, (i + 1) as nat));
        i += 1;
    }
    assert(diagnostics@ =~= start + vars_diags(document@));
}

/// The names that `vars` defines.
fn defined_var_names(document: &Document) -> (r: Vec<&String>)
    ensures
        r@.map_values(|s: &String| s@) == defined_names(document@),
{
    let mut r: Vec<&String> = Vec::new();
    match &document.vars {
        Some(Node::Mapping { entries, span }) => {
            proof {
                lemma_mapping_view(*entries, *span);
            }
            let mut i: usize = 0;
            while i < entries.len()
                invariant
                    i <= entries@.len(),
                    r@.len() == i,
                    forall|j: int| 0 <= j < i ==> (#[trigger] r@[j])@ == entries@[j].key@,
                decreases entries@.len() - i,
            {
                r.push(&entries[i].key);
                i += 1;
            }
            assert(r@.map_values(|s: &String| s@) =~= entries@.map_values(|e: MappingEntry| e.key@));
            assert(entries@.take(entries@.len() as int) =~= entries@);
            assert(entries@.map_values(|e: MappingEntry| e.key@) =~= entries@.map_values(
                |e: MappingEntry| e@,
            ).map_values(|e: EntryModel| e.key));
        },
        _ => {
            assert(r@.map_values(|s: &String| s@) =~= defined_names(document@));
        },
    }
    r
}

fn contains_name(names: &Vec<&String>, name: &String) -> (b: bool)
    ensures
        b == names@.map_values(|s: &String| s@).contains(name@),
{
    let ghost nm = names@.map_values(|s: &String| s@);
    let mut i: usize = 0;
    while i < names.len()
        invariant
            i <= names@.len(),
            nm == names@.map_values(|s: &String| s@),
            forall|j: int| 0 <= j < i ==> nm[j] != name@,
        decreases names@.len() - i,
    {
        if names[i].eq(name) {
            assert(nm[i as int] == name@);
            return true;
        }
        i += 1;
    }
    false
}

fn contains_owned(names: &Vec<String>, upto: usize, name: &String) -> (b: bool)
    requires
        upto <= names@.len(),
    ensures
        b == names@.map_values(|s: String| s@).take(upto as int).contains(name@),
{
    let ghost nm = names@.map_values(|s: String| s@).take(upto as int);
    let mut i: usize = 0;
    while i < upto
        invariant
            i <= upto <= names@.len(),
            nm == names@.map_values(|s: String| s@).take(upto as int),
            forall|j: int| 0 <= j < i ==> nm[j] != name@,
        decreases upto - i,
    {
        if names[i].eq(name) {
            assert(nm[i as int] == name@);
            return true;
        }
        i += 1;
    }
    false
}

#[verifier::loop_isolation(false)]
fn validate_references(node: &Node, defined: &Vec<&String>, diagnostics: &mut DiagnosticBag)
    ensures
        final(diagnostics)@ == old(diagnostics)@ + ref_node(
            node@,
            defined@.map_values(|s: &String| s@),
        ),
    decreases node,
{
    let ghost start = diagnostics@;
    let ghost dm = defined@.map_values(|s: &String| s@);
    match node {
        Node::Scalar { value, span } => {
            let names = extract_references(value.as_str());
            let ghost ns = names@.map_values(|s: String| s@);
            let mut k: usize = 0;
            assert(diagnostics@ =~= start + undefined_names(ns, dm, 0).map_values(
                |name: Seq<char>| undefined_diag(name, *span),
            ));
            while k < names.len()
                invariant
                    k <= names@.len(),
                    ns == names@.map_values(|s: String| s@),
                    diagnostics@ == start + undefined_names(ns, dm, k as nat).map_values(
                        |name: Seq<char>| undefined_diag(name, *span),
                    ),
                decreases names@.len() - k,
            {
                let name = &names[k];
                assert(ns[k as int] == name@);
                assert(ns.take(k as int) =~= names@.map_values(|s: String| s@).take(k as int));
                let ghost before = undefined_names(ns, dm, k as nat);
                if !contains_name(defined, name) && !contains_owned(&names, k, name) {
                    let mut msg = string_of("undefined var reference: `");
                    push_str(&mut msg, name.as_str());
                    push_str(&mut msg, "` is not defined in `vars`");
                    push_semantic(diagnostics, msg, Some(*span), "E114");
                    assert(undefined_names(ns, dm, (k + 1) as nat) == before.push(name@));
                    assert(before.push(name@).map_values(
                        |name: Seq<char>| undefined_diag(name, *span),
                    ) =~= before.map_values(|name: Seq<char>| undefined_diag(name, *span)).push(
                        undefined_diag(name@, *span),
                    ));
                }
                k += 1;
            }
            assert(diagnostics@ =~= start + ref_node(node@, dm));
        },
        Node::Sequence { values, span } => {
            proof {
                lemma_sequence_view(*values, *span);
            }
            let ghost vm = values@.map_values(|n: Node| n@);
            let mut index: usize = 0;
            assert(diagnostics@ =~= start + ref_items(vm, dm, 0));
            while index < values.len()
                invariant
                    index <= values@.len(),
                    vm == values@.map_values(|n: Node| n@),
                    diagnostics@ == start + ref_items(vm, dm, index as nat),
                decreases values@.len() - index,
            {
                proof {
                    assert(decreases_to!(*node => *values));
                    assert(decreases_to!(*values => values@));
                    assert(decreases_to!(values@ => values@[index as int]));
                }
                validate_references(&values[index], defined, diagnostics);
                assert(vm[index as int] == values@[index as int]@);
                assert(diagnostics@ =~= start + ref_items(vm, dm, (index + 1) as nat));
                index += 1;
            }
        },
        Node::Mapping { entries, span } => {
            proof {
                lemma_mapping_view(*entries, *span);
            }
            let ghost em = entries@.map_values(|e: MappingEntry| e@);
            let mut index: usize = 0;
            assert(diagnostics@ =~= start + ref_entries(em, dm, 0));
            while index < entries.len()
                invariant
                    index <= entries@.len(),
                    em == entries@.map_values(|e: MappingEntry| e@),
                    diagnostics@ == start + ref_entries(em, dm, index as nat),
                decreases entries@.len() - index,
            {
                proof {
                    assert(decreases_to!(*node => *entries));
                    assert(decreases_to!(*entries => entries@));
                    assert(decreases_to!(entries@ => entries@[index as int]));
                    assert(decreases_to!(entries@[index as int] => entries@[index as int].value));
                }
                validate_references(&entries[index].value, defined, diagnostics);
                assert(em[index as int] == entries@[index as int]@);
                assert(diagnostics@ =~= start + ref_entries(em, dm, (index + 1) as nat));
                index += 1;
            }
        },
    }
}

/// Checks a parsed document against the semantic rules and reports every
/// violation, in a fixed order.
pub fn validate_document(document: &Document) -> (diagnostics: DiagnosticBag)
    ensures
        diagnostics@ == validate_model(document@),
{
    let mut diagnostics = DiagnosticBag::new();
    validate_required_structure(document, &mut diagnostics);
    let keys = TopLevelKey::ordered();
    let ghost after_required = diagnostics@;
    let mut i: usize = 0;
    while i < 8
        invariant
            i <= 8,
            keys@ == ordered_keys(),
            diagnostics@ == after_required + dup_keys(document@, i as nat),
        decreases 8 - i,
    {
        let key = keys[i];
        match document.get(key) {
            Some(node) => {
                validate_duplicate_keys(node, key.as_str(), &mut diagnostics);
            },
            None => {},
        }
        assert(diagnostics@ =~= after_required + dup_keys(document@, (i + 1) as nat));
        i += 1;
    }
    validate_scalar_field(document, TopLevelKey::Agent, &mut diagnostics);
    validate_prompt_field(document, TopLevelKey::System, &mut diagnostics);
    validate_prompt_field(document, TopLevelKey::User, &mut diagnostics);
    validate_sequence_field(document, TopLevelKey::Memory, &mut diagnostics);
    validate_sequence_field(document, TopLevelKey::Tools, &mut diagnostics);
    validate_output_field(document, &mut diagnostics);
    validate_sequence_field(document, TopLevelKey::Constraints, &mut diagnostics);
    validate_vars_field(document, &mut diagnostics);
    let defined = defined_var_names(document);
    let ref_keys_exec = [
        TopLevelKey::System,
        TopLevelKey::User,
        TopLevelKey::Memory,
        TopLevelKey::Tools,
        TopLevelKey::Output,
        TopLevelKey::Constraints,
    ];
    assert(ref_keys_exec@ =~= reference_keys());
    let ghost before_refs = diagnostics@;
    let mut i: usize = 0;
    while i < 6
        invariant
            i <= 6,
            ref_keys_exec@ == reference_keys(),
            defined@.map_values(|s: &String| s@) == defined_names(document@),
            diagnostics@ == before_refs + ref_keys(document@, i as nat),
        decreases 6 - i,
    {
        let key = ref_keys_exec[i];
        match document.get(key) {
            Some(node) => {
                validate_references(node, &defined, &mut diagnostics);
            },
            None => {},
        }
        assert(diagnostics@ =~= before_refs + ref_keys(document@, (i + 1) as nat));
        i += 1;
    }
    diagnostics
}

// ---------------------------------------------------------------------------
// Laws.
// ---------------------------------------------------------------------------

/// A document with a non-empty `agent` scalar and a `system` that is a
/// non-empty scalar or mapping, and nothing else to validate, is valid:
/// unless `system` repeats a key or holds a reference (no `vars` defines
/// one), nothing is reported.
pub proof fn law_agent_and_system_suffice(d: DocumentModel)
    requires
        d.agent matches Some(NodeModel::Scalar { value, .. }) && trim(value).len() > 0,
        d.system matches Some(n) && (match n {
            NodeModel::Scalar { value, .. } => trim(value).len() > 0,
            NodeModel::Mapping { entries, .. } => entries.len() > 0,
            _ => false,
        }),
        d.system matches Some(n) && dup_node(n, "system"@).len() == 0 && ref_node(
            n,
            Seq::empty(),
        ).len() == 0,
        d.user is None,
        d.memory is None,
        d.tools is None,
        d.output is None,
        d.constraints is None,
        d.vars is None,
    ensures
        validate_model(d).len() == 0,
{
    reveal_with_fuel(dup_keys, 9);
    reveal_with_fuel(ref_keys, 7);
    assert(defined_names(d) =~= Seq::<Seq<char>>::empty());
    assert(ordered_keys()[0] == TopLevelKey::Agent);
    assert(ordered_keys()[1] == TopLevelKey::System);
    assert(reference_keys()[0] == TopLevelKey::System);
    assert(dup_keys(d, 8).len() == 0);
    assert(ref_keys(d, 6).len() == 0);
}

/// Each undefined name is reported once: the names that `undefined_names`
/// gives are among those looked at, and no two are the same.
pub proof fn law_undefined_names_are_distinct(names: Seq<Seq<char>>, defined: Seq<Seq<char>>, k: nat)
    requires
        k <= names.len(),
    ensures
        forall|i: int|
            0 <= i < undefined_names(names, defined, k).len() ==> names.take(k as int).contains(
                #[trigger] undefined_names(names, defined, k)[i],
            ) && !defined.contains(undefined_names(names, defined, k)[i]),
        forall|i: int, j: int|
            0 <= i < j < undefined_names(names, defined, k).len() ==> undefined_names(names, defined, k)[i]
                != undefined_names(names, defined, k)[j],
    decreases k,
{
    if k > 0 {
        law_undefined_names_are_distinct(names, defined, (k - 1) as nat);
        let before = undefined_names(names, defined, (k - 1) as nat);
        let n = names[k - 1];
        assert(names.take(k as int) =~= names.take(k - 1).push(n));
        assert forall|i: int| 0 <= i < before.len() implies names.take(k as int).contains(#[trigger] before[i]) by {
            let w = choose|w: int| 0 <= w < names.take(k - 1).len() && #[trigger] names.take(k - 1)[w] == before[i];
            assert(names.take(k as int)[w] == before[i]);
        }
        if !(defined.contains(n) || names.take(k - 1).contains(n)) {
            let out = before.push(n);
            assert(names.take(k as int)[k - 1] == n);
            assert forall|i: int| 0 <= i < out.len() implies names.take(k as int).contains(#[trigger] out[i]) && !defined.contains(out[i]) by {
                if i < before.len() {
                    assert(out[i] == before[i]);
                }
            }
            assert forall|i: int, j: int| 0 <= i < j < out.len() implies out[i] != out[j] by {
                if j == before.len() {
                    assert(out[i] == before[i]);
                    assert(names.take(k - 1).contains(before[i]));
                } else {
                    assert(out[i] == before[i] && out[j] == before[j]);
                }
            }
        }
    }
}

/// The codes that the validator reports.
pub open spec fn validator_code(c: Seq<char>) -> bool {
    ||| c == "E101"@
    ||| c == "E102"@
    ||| c == "E103"@
    ||| c == "E104"@
    ||| c == "E105"@
    ||| c == "E106"@
    ||| c == "E107"@
    ||| c == "E108"@
    ||| c == "E109"@
    ||| c == "E110"@
    ||| c == "E111"@
    ||| c == "E112"@
    ||| c == "E113"@
    ||| c == "E114"@
}

/// Whether `d` is a semantic error with one of the validator's codes.
pub open spec fn validator_shaped(d: DiagnosticModel) -> bool {
    &&& d.phase == DiagnosticPhase::Semantic
    &&& d.severity == Severity::Error
    &&& d.code matches Some(c) && validator_code(c)
}

pub open spec fn all_validator_shaped(ds: Seq<DiagnosticModel>) -> bool {
    forall|i: int| 0 <= i < ds.len() ==> validator_shaped(#[trigger] ds[i])
}

proof fn lemma_shaped_concat(a: Seq<DiagnosticModel>, b: Seq<DiagnosticModel>)
    requires
        all_validator_shaped(a),
        all_validator_shaped(b),
    ensures
        all_validator_shaped(a + b),
{
    assert forall|i: int| 0 <= i < (a + b).len() implies validator_shaped(#[trigger] (a + b)[i]) by {
        if i < a.len() {
            assert((a + b)[i] == a[i]);
        } else {
            assert((a + b)[i] == b[i - a.len()]);
        }
    }
}

proof fn lemma_shaped_push(a: Seq<DiagnosticModel>, x: DiagnosticModel)
    requires
        all_validator_shaped(a),
        validator_shaped(x),
    ensures
        all_validator_shaped(a.push(x)),
{
    assert forall|i: int| 0 <= i < a.push(x).len() implies validator_shaped(#[trigger] a.push(x)[i]) by {
        if i < a.len() {
            assert(a.push(x)[i] == a[i]);
        }
    }
}

proof fn lemma_dup_node_shaped(n: NodeModel, path: Seq<char>)
    ensures
        all_validator_shaped(dup_node(n, path)),
    decreases n, 0nat,
{
    match n {
        NodeModel::Scalar { .. } => {},
        NodeModel::Sequence { values, .. } => lemma_dup_items_shaped(values, path, values.len()),
        NodeModel::Mapping { entries, .. } => lemma_dup_entries_shaped(entries, path, entries.len()),
    }
}

proof fn lemma_dup_items_shaped(values: Seq<NodeModel>, path: Seq<char>, k: nat)
    ensures
        all_validator_shaped(dup_items(values, path, k)),
    decreases values, k,
{
    if k > 0 && k <= values.len() {
        lemma_dup_items_shaped(values, path, (k - 1) as nat);
        assert(decreases_to!(values => values[k - 1]));
        lemma_dup_node_shaped(values[k - 1], path + "["@ + decimal((k - 1) as nat) + "]"@);
        lemma_shaped_concat(
            dup_items(values, path, (k - 1) as nat),
            dup_node(values[k - 1], path + "["@ + decimal((k - 1) as nat) + "]"@),
        );
    }
}

proof fn lemma_dup_entries_shaped(entries: Seq<EntryModel>, path: Seq<char>, k: nat)
    ensures
        all_validator_shaped(dup_entries(entries, path, k)),
    decreases entries, k,
{
    if k > 0 && k <= entries.len() {
        let e = entries[k - 1];
        lemma_dup_entries_shaped(entries, path, (k - 1) as nat);
        assert(decreases_to!(entries => entries[k - 1]));
        assert(decreases_to!(entries[k - 1] => entries[k - 1].value));
        lemma_dup_node_shaped(e.value, path + "."@ + e.key);
        let here = if key_seen_before(entries, k - 1) {
            seq![
                semantic_diag(
                    "duplicate key `"@ + e.key + "` in `"@ + path + "`"@,
                    Some(e.span),
                    "E102"@,
                ),
            ]
        } else {
            Seq::empty()
        };
        assert(all_validator_shaped(here));
        lemma_shaped_concat(dup_entries(entries, path, (k - 1) as nat), here);
        lemma_shaped_concat(dup_entries(entries, path, (k - 1) as nat) + here, dup_node(e.value, path + "."@ + e.key));
    }
}

proof fn lemma_dup_keys_shaped(d: DocumentModel, k: nat)
    ensures
        all_validator_shaped(dup_keys(d, k)),
    decreases k,
{
    if k > 0 && k <= 8 {
        lemma_dup_keys_shaped(d, (k - 1) as nat);
        let key = ordered_keys()[k - 1];
        match field(d, key) {
            Some(n) => {
                lemma_dup_node_shaped(n, key_name(key));
                lemma_shaped_concat(dup_keys(d, (k - 1) as nat), dup_node(n, key_name(key)));
            },
            None => {
                lemma_shaped_concat(dup_keys(d, (k - 1) as nat), Seq::empty());
            },
        }
    }
}

proof fn lemma_first_bad_item_shaped(values: Seq<NodeModel>, name: Seq<char>, i: nat)
    ensures
        all_validator_shaped(first_bad_item(values, name, i)),
    decreases values.len() - i,
{
    if i < values.len() {
        if let NodeModel::Scalar { value, .. } = values[i as int] {
            if trim(value).len() > 0 {
                lemma_first_bad_item_shaped(values, name, i + 1);
            }
        }
    }
}

proof fn lemma_duplicate_items_shaped(values: Seq<NodeModel>, name: Seq<char>, k: nat)
    ensures
        all_validator_shaped(duplicate_items(values, name, k)),
    decreases k,
{
    if k > 0 && k <= values.len() {
        lemma_duplicate_items_shaped(values, name, (k - 1) as nat);
        let before = duplicate_items(values, name, (k - 1) as nat);
        if let NodeModel::Scalar { value, span } = values[k - 1] {
            if item_seen_before(values, k - 1) {
                lemma_shaped_push(
                    before,
                    semantic_diag("duplicate item `"@ + value + "` in `"@ + name + "`"@, Some(span), "E113"@),
                );
            }
        }
    }
}

proof fn lemma_sequence_field_shaped(d: DocumentModel, k: TopLevelKey)
    ensures
        all_validator_shaped(sequence_field_diags(d, k)),
{
    if let Some(NodeModel::Sequence { values, .. }) = field(d, k) {
        if values.len() > 0 {
            lemma_first_bad_item_shaped(values, key_name(k), 0);
            lemma_duplicate_items_shaped(values, key_name(k), values.len());
            lemma_shaped_concat(first_bad_item(values, key_name(k), 0), duplicate_items(values, key_name(k), values.len()));
            lemma_shaped_concat(first_bad_item(values, key_name(k), 0), Seq::empty());
        }
    }
}

proof fn lemma_vars_entries_shaped(entries: Seq<EntryModel>, k: nat)
    ensures
        all_validator_shaped(vars_entry_diags(entries, k)),
    decreases k,
{
    if k > 0 && k <= entries.len() {
        lemma_vars_entries_shaped(entries, (k - 1) as nat);
        let before = vars_entry_diags(entries, (k - 1) as nat);
        let e = entries[k - 1];
        match e.value {
            NodeModel::Scalar { value, .. } => {
                if trim(value).len() == 0 {
                    lemma_shaped_push(before, semantic_diag("`vars."@ + e.key + "` must not be empty"@, Some(e.span), "E103"@));
                }
            },
            _ => {
                lemma_shaped_push(before, semantic_diag("`vars."@ + e.key + "` must be a scalar value"@, Some(e.span), "E110"@));
            },
        }
    }
}

proof fn lemma_ref_node_shaped(n: NodeModel, defined: Seq<Seq<char>>)
    ensures
        all_validator_shaped(ref_node(n, defined)),
    decreases n, 0nat,
{
    match n {
        NodeModel::Scalar { value, span } => {
            let names = references(value);
            let ds = undefined_names(names, defined, names.len()).map_values(
                |name: Seq<char>| undefined_diag(name, span),
            );
            assert forall|i: int| 0 <= i < ds.len() implies validator_shaped(#[trigger] ds[i]) by {}
        },
        NodeModel::Sequence { values, .. } => lemma_ref_items_shaped(values, defined, values.len()),
        NodeModel::Mapping { entries, .. } => lemma_ref_entries_shaped(entries, defined, entries.len()),
    }
}

proof fn lemma_ref_items_shaped(values: Seq<NodeModel>, defined: Seq<Seq<char>>, k: nat)
    ensures
        all_validator_shaped(ref_items(values, defined, k)),
    decreases values, k,
{
    if k > 0 && k <= values.len() {
        lemma_ref_items_shaped(values, defined, (k - 1) as nat);
        assert(decreases_to!(values => values[k - 1]));
        lemma_ref_node_shaped(values[k - 1], defined);
        lemma_shaped_concat(ref_items(values, defined, (k - 1) as nat), ref_node(values[k - 1], defined));
    }
}

proof fn lemma_ref_entries_shaped(entries: Seq<EntryModel>, defined: Seq<Seq<char>>, k: nat)
    ensures
        all_validator_shaped(ref_entries(entries, defined, k)),
    decreases entries, k,
{
    if k > 0 && k <= entries.len() {
        lemma_ref_entries_shaped(entries, defined, (k - 1) as nat);
        assert(decreases_to!(entries => entries[k - 1]));
        assert(decreases_to!(entries[k - 1] => entries[k - 1].value));
        lemma_ref_node_shaped(entries[k - 1].value, defined);
        lemma_shaped_concat(ref_entries(entries, defined, (k - 1) as nat), ref_node(entries[k - 1].value, defined));
    }
}

proof fn lemma_ref_keys_shaped(d: DocumentModel, k: nat)
    ensures
        all_validator_shaped(ref_keys(d, k)),
    decreases k,
{
    if k > 0 && k <= 6 {
        lemma_ref_keys_shaped(d, (k - 1) as nat);
        let key = reference_keys()[k - 1];
        match field(d, key) {
            Some(n) => {
                lemma_ref_node_shaped(n, defined_names(d));
                lemma_shaped_concat(ref_keys(d, (k - 1) as nat), ref_node(n, defined_names(d)));
            },
            None => {
                lemma_shaped_concat(ref_keys(d, (k - 1) as nat), Seq::empty());
            },
        }
    }
}

/// Every diagnostic the validator reports is a semantic error whose code is
/// one of `E101`–`E114`: the validator's range, `E1` and two digits.
pub proof fn law_validator_codes(d: DocumentModel)
    ensures
        forall|i: int| 0 <= i < validate_model(d).len() ==> validator_shaped(#[trigger] validate_model(d)[i]),
        forall|c: Seq<char>| validator_code(c) ==> c.len() == 4 && c[0] == 'E' && c[1] == '1',
{
    lemma_dup_keys_shaped(d, 8);
    lemma_sequence_field_shaped(d, TopLevelKey::Memory);
    lemma_sequence_field_shaped(d, TopLevelKey::Tools);
    lemma_sequence_field_shaped(d, TopLevelKey::Constraints);
    if let Some(NodeModel::Mapping { entries, .. }) = d.vars {
        lemma_vars_entries_shaped(entries, entries.len());
    }
    lemma_ref_keys_shaped(d, 6);
    let parts = seq![
        required_diags(d),
        dup_keys(d, 8),
        scalar_field_diags(d, TopLevelKey::Agent),
        prompt_field_diags(d, TopLevelKey::System),
        prompt_field_diags(d, TopLevelKey::User),
        sequence_field_diags(d, TopLevelKey::Memory),
        sequence_field_diags(d, TopLevelKey::Tools),
        output_diags(d),
        sequence_field_diags(d, TopLevelKey::Constraints),
        vars_diags(d),
        ref_keys(d, 6),
    ];
    assert(all_validator_shaped(required_diags(d)));
    assert(all_validator_shaped(scalar_field_diags(d, TopLevelKey::Agent)));
    assert(all_validator_shaped(prompt_field_diags(d, TopLevelKey::System)));
    assert(all_validator_shaped(prompt_field_diags(d, TopLevelKey::User)));
    assert(all_validator_shaped(output_diags(d)));
    assert(all_validator_shaped(vars_diags(d)));
    let mut acc = required_diags(d);
    lemma_shaped_concat(acc, dup_keys(d, 8));
    acc = acc + dup_keys(d, 8);
    lemma_shaped_concat(acc, scalar_field_diags(d, TopLevelKey::Agent));
    acc = acc + scalar_field_diags(d, TopLevelKey::Agent);
    lemma_shaped_concat(acc, prompt_field_diags(d, TopLevelKey::System));
    acc = acc + prompt_field_diags(d, TopLevelKey::System);
    lemma_shaped_concat(acc, prompt_field_diags(d, TopLevelKey::User));
    acc = acc + prompt_field_diags(d, TopLevelKey::User);
    lemma_shaped_concat(acc, sequence_field_diags(d, TopLevelKey::Memory));
    acc = acc + sequence_field_diags(d, TopLevelKey::Memory);
    lemma_shaped_concat(acc, sequence_field_diags(d, TopLevelKey::Tools));
    acc = acc + sequence_field_diags(d, TopLevelKey::Tools);
    lemma_shaped_concat(acc, output_diags(d));
    acc = acc + output_diags(d);
    lemma_shaped_concat(acc, sequence_field_diags(d, TopLevelKey::Constraints));
    acc = acc + sequence_field_diags(d, TopLevelKey::Constraints);
    lemma_shaped_concat(acc, vars_diags(d));
    acc = acc + vars_diags(d);
    lemma_shaped_concat(acc, ref_keys(d, 6));
    acc = acc + ref_keys(d, 6);
    assert(acc == validate_model(d));
    reveal_strlit("E101");
    reveal_strlit("E102");
    reveal_strlit("E103");
    reveal_strlit("E104");
    reveal_strlit("E105");
    reveal_strlit("E106");
    reveal_strlit("E107");
    reveal_strlit("E108");
    reveal_strlit("E109");
    reveal_strlit("E110");
    reveal_strlit("E111");
    reveal_strlit("E112");
    reveal_strlit("E113");
    reveal_strlit("E114");
}

/// Whether `ds` holds an error with code `code` at `sp`.
pub open spec fn reports_at(ds: Seq<DiagnosticModel>, code: Seq<char>, sp: Span) -> bool {
    exists|x: int|
        0 <= x < ds.len() && (#[trigger] ds[x]).code == Some(code) && ds[x].span == Some(sp)
            && ds[x].severity == Severity::Error
}

proof fn lemma_reports_left(a: Seq<DiagnosticModel>, b: Seq<DiagnosticModel>, code: Seq<char>, sp: Span)
    requires
        reports_at(a, code, sp),
    ensures
        reports_at(a + b, code, sp),
{
    let x = choose|x: int|
        0 <= x < a.len() && (#[trigger] a[x]).code == Some(code) && a[x].span == Some(sp)
            && a[x].severity == Severity::Error;
    assert((a + b)[x] == a[x]);
}

proof fn lemma_reports_right(a: Seq<DiagnosticModel>, b: Seq<DiagnosticModel>, code: Seq<char>, sp: Span)
    requires
        reports_at(b, code, sp),
    ensures
        reports_at(a + b, code, sp),
{
    let x = choose|x: int|
        0 <= x < b.len() && (#[trigger] b[x]).code == Some(code) && b[x].span == Some(sp)
            && b[x].severity == Severity::Error;
    assert((a + b)[a.len() + x] == b[x]);
}

proof fn lemma_duplicate_reported(values: Seq<NodeModel>, name: Seq<char>, k: nat, j: int)
    requires
        0 <= j < k <= values.len(),
        values[j] is Scalar,
        item_seen_before(values, j),
    ensures
        reports_at(duplicate_items(values, name, k), "E113"@, model_span(values[j])),
    decreases k,
{
    let before = duplicate_items(values, name, (k - 1) as nat);
    if j == k - 1 {
        if let NodeModel::Scalar { value, span } = values[j] {
            let d = semantic_diag("duplicate item `"@ + value + "` in `"@ + name + "`"@, Some(span), "E113"@);
            assert(duplicate_items(values, name, k) == before.push(d));
            assert(before.push(d)[before.len() as int] == d);
        }
    } else {
        lemma_duplicate_reported(values, name, (k - 1) as nat, j);
        let x = choose|x: int|
            0 <= x < before.len() && (#[trigger] before[x]).code == Some("E113"@) && before[x].span
                == Some(model_span(values[j])) && before[x].severity == Severity::Error;
        match values[k - 1] {
            NodeModel::Scalar { value, span } => {
                if item_seen_before(values, k - 1) {
                    let d = semantic_diag("duplicate item `"@ + value + "` in `"@ + name + "`"@, Some(span), "E113"@);
                    assert(before.push(d)[x] == before[x]);
                }
            },
            _ => {},
        }
    }
}

/// In `tools` and `constraints` alike, every scalar item whose text repeats
/// the text of an earlier scalar item is reported: validation holds an
/// `E113` error at the repeating item.
pub proof fn law_repeated_list_items_are_reported(
    d: DocumentModel,
    k: TopLevelKey,
    values: Seq<NodeModel>,
    span: Span,
    i: int,
    j: int,
)
    requires
        k == TopLevelKey::Tools || k == TopLevelKey::Constraints,
        field(d, k) == Some(NodeModel::Sequence { values, span }),
        0 <= i < j < values.len(),
        values[j] is Scalar,
        scalar_text(values[i]) == scalar_text(values[j]),
    ensures
        reports_at(validate_model(d), "E113"@, model_span(values[j])),
{
    let code = "E113"@;
    let sp = model_span(values[j]);
    assert(item_seen_before(values, j)) by {
        assert(scalar_text(values[i]) == scalar_text(values[j]));
    }
    lemma_duplicate_reported(values, key_name(k), values.len(), j);
    let first = first_bad_item(values, key_name(k), 0);
    let dups = duplicate_items(values, key_name(k), values.len());
    lemma_reports_right(first, dups, code, sp);
    assert(sequence_field_diags(d, k) == first + dups);
    let a0 = required_diags(d) + dup_keys(d, 8) + scalar_field_diags(d, TopLevelKey::Agent)
        + prompt_field_diags(d, TopLevelKey::System) + prompt_field_diags(d, TopLevelKey::User)
        + sequence_field_diags(d, TopLevelKey::Memory);
    let out = output_diags(d);
    if k == TopLevelKey::Tools {
        let t = sequence_field_diags(d, TopLevelKey::Tools);
        lemma_reports_right(a0, t, code, sp);
        lemma_reports_left(a0 + t, out, code, sp);
        lemma_reports_left(a0 + t + out, sequence_field_diags(d, TopLevelKey::Constraints), code, sp);
        lemma_reports_left(a0 + t + out + sequence_field_diags(d, TopLevelKey::Constraints), vars_diags(d), code, sp);
        lemma_reports_left(
            a0 + t + out + sequence_field_diags(d, TopLevelKey::Constraints) + vars_diags(d),
            ref_keys(d, 6),
            code,
            sp,
        );
    } else {
        let c = sequence_field_diags(d, TopLevelKey::Constraints);
        let a1 = a0 + sequence_field_diags(d, TopLevelKey::Tools) + out;
        lemma_reports_right(a1, c, code, sp);
        lemma_reports_left(a1 + c, vars_diags(d), code, sp);
        lemma_reports_left(a1 + c + vars_diags(d), ref_keys(d, 6), code, sp);
    }
}

} // verus!
