//! The `shadow` target: one line per present reserved key, in the compact
//! `@`-marker encoding (V0) or in the XML-tag encoding (V1).
use vstd::prelude::*;

use crate::ast::{
    key_name, lemma_mapping_view, lemma_sequence_view, ordered_entries_of, Document, DocumentModel,
    EntryModel, MappingEntry, Node, NodeModel, TopLevelKey,
};
use crate::formatter::{lines_model, quote_scalar, quoted};
use crate::provider::{shadow_profile_of, ProfileError, Provider, ShadowProfile};
use crate::text::{join, join_strings, push_str, string_of};
use crate::transpile::Emitter;
use crate::transpile::vars::{expand_document, expand_document_model};

verus! {

// ---------------------------------------------------------------------------
// V0: `@a="..."`, `{key="...";...}`, `["...",...]`.
// ---------------------------------------------------------------------------

/// The marker of a reserved key.
pub open spec fn marker(k: TopLevelKey) -> Seq<char> {
    match k {
        TopLevelKey::Agent => "@a"@,
        TopLevelKey::System => "@s"@,
        TopLevelKey::User => "@u"@,
        TopLevelKey::Memory => "@m"@,
        TopLevelKey::Tools => "@t"@,
        TopLevelKey::Output => "@o"@,
        TopLevelKey::Constraints => "@c"@,
        TopLevelKey::Vars => "@v"@,
    }
}

/// The V0 encoding of a node.
pub open spec fn v0_node(n: NodeModel) -> Seq<char>
    decreases n, 1nat,
{
    match n {
        NodeModel::Scalar { value, .. } => quoted(value),
        NodeModel::Mapping { entries, .. } => "{"@ + v0_entries(entries, entries.len()) + "}"@,
        NodeModel::Sequence { values, .. } => "["@ + v0_items(values, values.len()) + "]"@,
    }
}

/// The first `k` entries, `;`-separated.
pub open spec fn v0_entries(entries: Seq<EntryModel>, k: nat) -> Seq<char>
    decreases entries, k,
{
    if k == 0 || k > entries.len() {
        Seq::empty()
    } else {
        v0_entries(entries, (k - 1) as nat) + (if k > 1 {
            ";"@
        } else {
            Seq::empty()
        }) + entries[k - 1].key + "="@ + v0_node(entries[k - 1].value)
    }
}

/// The first `k` items, `,`-separated.
pub open spec fn v0_items(values: Seq<NodeModel>, k: nat) -> Seq<char>
    decreases values, k,
{
    if k == 0 || k > values.len() {
        Seq::empty()
    } else {
        v0_items(values, (k - 1) as nat) + (if k > 1 {
            ","@
        } else {
            Seq::empty()
        }) + v0_node(values[k - 1])
    }
}

/// The V0 lines of the first `k` present reserved keys.
pub open spec fn v0_lines(pairs: Seq<(TopLevelKey, NodeModel)>, k: nat) -> Seq<Seq<char>>
    decreases k,
{
    if k == 0 || k > pairs.len() {
        Seq::empty()
    } else {
        v0_lines(pairs, (k - 1) as nat).push(marker(pairs[k - 1].0) + "="@ + v0_node(pairs[k - 1].1))
    }
}

pub open spec fn v0_document(d: DocumentModel) -> Seq<char> {
    join(v0_lines(ordered_entries_of(d), ordered_entries_of(d).len()), "\n"@)
}

// ---------------------------------------------------------------------------
// V1: `<agent>...</agent>`, blocks of `key: value` lines, tagged items.
// ---------------------------------------------------------------------------

/// The tag that wraps each item of a sequence under `k`.
pub open spec fn item_tag(k: TopLevelKey) -> Seq<char> {
    match k {
        TopLevelKey::Tools => "tool"@,
        TopLevelKey::Constraints => "rule"@,
        _ => "item"@,
    }
}

pub open spec fn open_tag(t: Seq<char>) -> Seq<char> {
    "<"@ + t + ">"@
}

pub open spec fn close_tag(t: Seq<char>) -> Seq<char> {
    "</"@ + t + ">"@
}

/// A value on a V1 line: a scalar bare, anything else in its V0 encoding.
pub open spec fn v1_inline(n: NodeModel) -> Seq<char> {
    match n {
        NodeModel::Scalar { value, .. } => value,
        _ => v0_node(n),
    }
}

pub open spec fn v1_entry_lines(entries: Seq<EntryModel>, k: nat) -> Seq<Seq<char>>
    decreases k,
{
    if k == 0 || k > entries.len() {
        Seq::empty()
    } else {
        v1_entry_lines(entries, (k - 1) as nat).push(
            entries[k - 1].key + ": "@ + v1_inline(entries[k - 1].value),
        )
    }
}

pub open spec fn v1_item_lines(values: Seq<NodeModel>, tag: Seq<char>, k: nat) -> Seq<Seq<char>>
    decreases k,
{
    if k == 0 || k > values.len() {
        Seq::empty()
    } else {
        v1_item_lines(values, tag, (k - 1) as nat).push(
            open_tag(tag) + v1_inline(values[k - 1]) + close_tag(tag),
        )
    }
}

/// The V1 lines of reserved key `k` bound to `n`.
pub open spec fn v1_block(k: TopLevelKey, n: NodeModel) -> Seq<Seq<char>> {
    let tag = key_name(k);
    match n {
        NodeModel::Scalar { value, .. } => seq![open_tag(tag) + value + close_tag(tag)],
        NodeModel::Mapping { entries, .. } => seq![open_tag(tag)] + v1_entry_lines(
            entries,
            entries.len(),
        ) + seq![close_tag(tag)],
        NodeModel::Sequence { values, .. } => seq![open_tag(tag)] + v1_item_lines(
            values,
            item_tag(k),
            values.len(),
        ) + seq![close_tag(tag)],
    }
}

pub open spec fn v1_lines(pairs: Seq<(TopLevelKey, NodeModel)>, k: nat) -> Seq<Seq<char>>
    decreases k,
{
    if k == 0 || k > pairs.len() {
        Seq::empty()
    } else {
        v1_lines(pairs, (k - 1) as nat) + v1_block(pairs[k - 1].0, pairs[k - 1].1)
    }
}

pub open spec fn v1_document(d: DocumentModel) -> Seq<char> {
    join(v1_lines(ordered_entries_of(d), ordered_entries_of(d).len()), "\n"@)
}

/// The `shadow` output for `provider`: the document with its references
/// expanded, in the encoding of the provider's profile.
pub open spec fn shadow_document(d: DocumentModel, provider: Provider) -> Seq<char> {
    match shadow_profile_of(provider) {
        ShadowProfile::V0 => v0_document(expand_document_model(d)),
        ShadowProfile::V1Anthropic => v1_document(expand_document_model(d)),
    }
}

// ---------------------------------------------------------------------------
// Implementation.
// ---------------------------------------------------------------------------

fn marker_for(key: TopLevelKey) -> (s: &'static str)
    ensures
        s@ == marker(key),
{
    match key {
        TopLevelKey::Agent => "@a",
        TopLevelKey::System => "@s",
        TopLevelKey::User => "@u",
        TopLevelKey::Memory => "@m",
        TopLevelKey::Tools => "@t",
        TopLevelKey::Output => "@o",
        TopLevelKey::Constraints => "@c",
        TopLevelKey::Vars => "@v",
    }
}

fn render_node(value: &Node) -> (r: String)
    ensures
        r@ == v0_node(value@),
    decreases value, 1nat,
{
    match value {
        Node::Scalar { value: scalar, .. } => quote_scalar(scalar.as_str()),
        Node::Mapping { entries, span } => render_mapping(value, entries, *span),
        Node::Sequence { values, span } => render_sequence(value, values, *span),
    }
}

#[verifier::loop_isolation(false)]
fn render_mapping(whole: &Node, entries: &Vec<MappingEntry>, span: crate::diagnostics::Span) -> (r: String)
    requires
        *whole == (Node::Mapping { entries: *entries, span }),
    ensures
        r@ == v0_node(whole@),
    decreases whole, 0nat,
{
    proof {
        lemma_mapping_view(*entries, span);
    }
    let ghost em = entries@.map_values(|e: MappingEntry| e@);
    assert(whole@ == (NodeModel::Mapping { entries: em, span }));
    let mut rendered = string_of("{");
    let mut i: usize = 0;
    assert(rendered@ =~= "{"@ + v0_entries(em, 0));
    while i < entries.len()
        invariant
            i <= entries@.len(),
            em == entries@.map_values(|e: MappingEntry| e@),
            rendered@ == "{"@ + v0_entries(em, i as nat),
        decreases entries@.len() - i,
    {
        proof {
            assert(decreases_to!(*whole => *entries));
            assert(decreases_to!(*entries => entries@));
            assert(decreases_to!(entries@ => entries@[i as int]));
            assert(decreases_to!(entries@[i as int] => entries@[i as int].value));
            assert(em[i as int] == entries@[i as int]@);
        }
        let ghost before = rendered@;
        if i > 0 {
            push_str(&mut rendered, ";");
        }
        push_str(&mut rendered, entries[i].key.as_str());
        push_str(&mut rendered, "=");
        let inner = render_node(&entries[i].value);
        push_str(&mut rendered, inner.as_str());
        assert(rendered@ =~= "{"@ + v0_entries(em, (i + 1) as nat));
        i += 1;
    }
    push_str(&mut rendered, "}");
    rendered
}

#[verifier::loop_isolation(false)]
fn render_sequence(whole: &Node, values: &Vec<Node>, span: crate::diagnostics::Span) -> (r: String)
    requires
        *whole == (Node::Sequence { values: *values, span }),
    ensures
        r@ == v0_node(whole@),
    decreases whole, 0nat,
{
    proof {
        lemma_sequence_view(*values, span);
    }
    let ghost vm = values@.map_values(|n: Node| n@);
    assert(whole@ == (NodeModel::Sequence { values: vm, span }));
    let mut rendered = string_of("[");
    let mut i: usize = 0;
    assert(rendered@ =~= "["@ + v0_items(vm, 0));
    while i < values.len()
        invariant
            i <= values@.len(),
            vm == values@.map_values(|n: Node| n@),
            rendered@ == "["@ + v0_items(vm, i as nat),
        decreases values@.len() - i,
    {
        proof {
            assert(decreases_to!(*whole => *values));
            assert(decreases_to!(*values => values@));
            assert(decreases_to!(values@ => values@[i as int]));
            assert(vm[i as int] == values@[i as int]@);
        }
        if i > 0 {
            push_str(&mut rendered, ",");
        }
        let inner = render_node(&values[i]);
        push_str(&mut rendered, inner.as_str());
        assert(rendered@ =~= "["@ + v0_items(vm, (i + 1) as nat));
        i += 1;
    }
    push_str(&mut rendered, "]");
    rendered
}

fn render_v0_document(document: &Document) -> (r: String)
    ensures
        r@ == v0_document(document@),
{
    let pairs = document.ordered_entries();
    let ghost pm = pairs@.map_values(|p: (TopLevelKey, &Node)| (p.0, p.1@));
    let mut lines: Vec<String> = Vec::new();
    let mut i: usize = 0;
    assert(lines_model(lines@) =~= v0_lines(pm, 0));
    while i < pairs.len()
        invariant
            i <= pairs@.len(),
            pm == pairs@.map_values(|p: (TopLevelKey, &Node)| (p.0, p.1@)),
            pm == ordered_entries_of(document@),
            lines_model(lines@) == v0_lines(pm, i as nat),
        decreases pairs@.len() - i,
    {
        let (key, value) = pairs[i];
        assert(pm[i as int] == (key, value@));
        let mut line = string_of(marker_for(key));
        push_str(&mut line, "=");
        let inner = render_node(value);
        push_str(&mut line, inner.as_str());
        let ghost lm = line@;
        let ghost before = lines_model(lines@);
        lines.push(line);
        assert(lines_model(lines@) =~= before.push(lm));
        i += 1;
    }
    join_strings(&lines, "\n")
}

fn item_tag_for(key: TopLevelKey) -> (s: &'static str)
    ensures
        s@ == item_tag(key),
{
    match key {
        TopLevelKey::Tools => "tool",
        TopLevelKey::Constraints => "rule",
        _ => "item",
    }
}

fn open_tag_string(tag: &str) -> (r: String)
    ensures
        r@ == open_tag(tag@),
{
    let mut r = string_of("<");
    push_str(&mut r, tag);
    push_str(&mut r, ">");
    r
}

fn close_tag_string(tag: &str) -> (r: String)
    ensures
        r@ == close_tag(tag@),
{
    let mut r = string_of("</");
    push_str(&mut r, tag);
    push_str(&mut r, ">");
    r
}

fn render_inline(value: &Node) -> (r: String)
    ensures
        r@ == v1_inline(value@),
{
    match value {
        Node::Scalar { value: scalar, .. } => scalar.clone(),
        _ => render_node(value),
    }
}

#[verifier::loop_isolation(false)]
fn render_v1_block(lines: &mut Vec<String>, key: TopLevelKey, value: &Node)
    ensures
        lines_model(final(lines)@) == lines_model(old(lines)@) + v1_block(key, value@),
{
    let ghost start = lines_model(lines@);
    let tag = key.as_str();
    match value {
        Node::Scalar { value: scalar, .. } => {
            let mut line = open_tag_string(tag);
            push_str(&mut line, scalar.as_str());
            let close = close_tag_string(tag);
            push_str(&mut line, close.as_str());
            let ghost lm = line@;
            lines.push(line);
            assert(lines_model(lines@) =~= start + seq![lm]);
        },
        Node::Mapping { entries, span } => {
            proof {
                lemma_mapping_view(*entries, *span);
            }
            let ghost em = entries@.map_values(|e: MappingEntry| e@);
            let open = open_tag_string(tag);
            let ghost om = open@;
            lines.push(open);
            let ghost head = lines_model(lines@);
            assert(head =~= start + seq![om]);
            let mut i: usize = 0;
            assert(lines_model(lines@) =~= head + v1_entry_lines(em, 0));
            while i < entries.len()
                invariant
                    i <= entries@.len(),
                    em == entries@.map_values(|e: MappingEntry| e@),
                    lines_model(lines@) == head + v1_entry_lines(em, i as nat),
                decreases entries@.len() - i,
            {
                assert(em[i as int] == entries@[i as int]@);
                let mut line = entries[i].key.clone();
                push_str(&mut line, ": ");
                let inner = render_inline(&entries[i].value);
                push_str(&mut line, inner.as_str());
                let ghost lm = line@;
                let ghost before = lines_model(lines@);
                lines.push(line);
                assert(lines_model(lines@) =~= before.push(lm));
                assert(lines_model(lines@) =~= head + v1_entry_lines(em, (i + 1) as nat));
                i += 1;
            }
            let close = close_tag_string(tag);
            let ghost cm = close@;
            let ghost body = lines_model(lines@);
            lines.push(close);
            assert(lines_model(lines@) =~= body.push(cm));
            assert(lines_model(lines@) =~= start + v1_block(key, value@));
        },
        Node::Sequence { values, span } => {
            proof {
                lemma_sequence_view(*values, *span);
            }
            let ghost vm = values@.map_values(|n: Node| n@);
            let item = item_tag_for(key);
            let open = open_tag_string(tag);
            let ghost om = open@;
            lines.push(open);
            let ghost head = lines_model(lines@);
            assert(head =~= start + seq![om]);
            let mut i: usize = 0;
            assert(lines_model(lines@) =~= head + v1_item_lines(vm, item_tag(key), 0));
            while i < values.len()
                invariant
                    i <= values@.len(),
                    vm == values@.map_values(|n: Node| n@),
                    lines_model(lines@) == head + v1_item_lines(vm, item_tag(key), i as nat),
                decreases values@.len() - i,
            {
                assert(vm[i as int] == values@[i as int]@);
                let mut line = open_tag_string(item);
                let inner = render_inline(&values[i]);
                push_str(&mut line, inner.as_str());
                let close = close_tag_string(item);
                push_str(&mut line, close.as_str());
                let ghost lm = line@;
                let ghost before = lines_model(lines@);
                lines.push(line);
                assert(lines_model(lines@) =~= before.push(lm));
                assert(lines_model(lines@) =~= head + v1_item_lines(vm, item_tag(key), (i + 1) as nat));
                i += 1;
            }
            let close = close_tag_string(tag);
            let ghost cm = close@;
            let ghost body = lines_model(lines@);
            lines.push(close);
            assert(lines_model(lines@) =~= body.push(cm));
            assert(lines_model(lines@) =~= start + v1_block(key, value@));
        },
    }
}

fn render_v1_document(document: &Document) -> (r: String)
    ensures
        r@ == v1_document(document@),
{
    let pairs = document.ordered_entries();
    let ghost pm = pairs@.map_values(|p: (TopLevelKey, &Node)| (p.0, p.1@));
    let mut lines: Vec<String> = Vec::new();
    let mut i: usize = 0;
    assert(lines_model(lines@) =~= v1_lines(pm, 0));
    while i < pairs.len()
        invariant
            i <= pairs@.len(),
            pm == pairs@.map_values(|p: (TopLevelKey, &Node)| (p.0, p.1@)),
            pm == ordered_entries_of(document@),
            lines_model(lines@) == v1_lines(pm, i as nat),
        decreases pairs@.len() - i,
    {
        let (key, value) = pairs[i];
        assert(pm[i as int] == (key, value@));
        render_v1_block(&mut lines, key, value);
        assert(lines_model(lines@) =~= v1_lines(pm, (i + 1) as nat));
        i += 1;
    }
    join_strings(&lines, "\n")
}

fn render_document(document: &Document, shadow_profile: ShadowProfile) -> (r: String)
    ensures
        r@ == match shadow_profile {
            ShadowProfile::V0 => v0_document(document@),
            ShadowProfile::V1Anthropic => v1_document(document@),
        },
{
    match shadow_profile {
        ShadowProfile::V0 => render_v0_document(document),
        ShadowProfile::V1Anthropic => render_v1_document(document),
    }
}

/// The shadow encoding of `document`, its references expanded, for `provider`.
pub fn emit_with_provider(document: &Document, provider: Provider) -> (r: Result<String, ProfileError>)
    ensures
        r is Ok,
        r matches Ok(s) ==> s@ == shadow_document(document@, provider),
{
    let shadow_profile = provider.profile().shadow_profile()?;
    let expanded = expand_document(document);
    Ok(render_document(&expanded, shadow_profile))
}

/// The `shadow` emitter for the generic provider.
pub struct ShadowEmitter;

impl Emitter for ShadowEmitter {
    open spec fn rendering(&self, d: DocumentModel) -> Seq<char> {
        shadow_document(d, Provider::Generic)
    }

    fn emit(&self, document: &Document) -> (r: String) {
        match emit_with_provider(document, Provider::Generic) {
            Ok(s) => s,
            Err(_) => {
                proof {
                    assert(false);
                }
                String::new()
            },
        }
    }
}

// ---------------------------------------------------------------------------
// Laws.
// ---------------------------------------------------------------------------

/// The generic and the openai providers get the same shadow output.
pub proof fn law_generic_and_openai_agree(d: DocumentModel)
    ensures
        shadow_document(d, Provider::Generic) == shadow_document(d, Provider::Openai),
{
}

/// The V0 encoding of mapping entry `j`: its key, `=`, and the V0 encoding
/// of its value.
pub open spec fn v0_pair(entries: Seq<EntryModel>, j: int) -> Seq<char> {
    entries[j].key + "="@ + v0_node(entries[j].value)
}

proof fn lemma_v0_entries_join(entries: Seq<EntryModel>, k: nat)
    requires
        k <= entries.len(),
    ensures
        v0_entries(entries, k) == join(Seq::new(k, |j: int| v0_pair(entries, j)), ";"@),
    decreases k,
{
    if k > 0 {
        lemma_v0_entries_join(entries, (k - 1) as nat);
        let all = Seq::new(k, |j: int| v0_pair(entries, j));
        assert(all.drop_last() =~= Seq::new((k - 1) as nat, |j: int| v0_pair(entries, j)));
        if k == 1 {
            assert(Seq::new(0nat, |j: int| v0_pair(entries, j)) =~= Seq::<Seq<char>>::empty());
            assert(v0_entries(entries, 0) =~= Seq::<char>::empty());
            assert(v0_entries(entries, 1) =~= v0_pair(entries, 0));
        } else {
            assert(v0_entries(entries, k) =~= v0_entries(entries, (k - 1) as nat) + ";"@ + v0_pair(entries, k - 1));
        }
    }
}

proof fn lemma_v0_items_join(values: Seq<NodeModel>, k: nat)
    requires
        k <= values.len(),
    ensures
        v0_items(values, k) == join(Seq::new(k, |j: int| v0_node(values[j])), ","@),
    decreases k,
{
    if k > 0 {
        lemma_v0_items_join(values, (k - 1) as nat);
        let all = Seq::new(k, |j: int| v0_node(values[j]));
        assert(all.drop_last() =~= Seq::new((k - 1) as nat, |j: int| v0_node(values[j])));
        if k == 1 {
            assert(Seq::new(0nat, |j: int| v0_node(values[j])) =~= Seq::<Seq<char>>::empty());
            assert(v0_items(values, 0) =~= Seq::<char>::empty());
            assert(v0_items(values, 1) =~= v0_node(values[0]));
        } else {
            assert(v0_items(values, k) =~= v0_items(values, (k - 1) as nat) + ","@ + v0_node(values[k - 1]));
        }
    }
}

/// In V0 a mapping is `{`, its entries as `key=value` joined by `;`, and
/// `}`, every value encoded in V0 in turn whatever its kind; a sequence is
/// `[`, its items encoded in V0 and joined by `,`, and `]`.
pub proof fn law_v0_is_recursive(entries: Seq<EntryModel>, values: Seq<NodeModel>, span: crate::diagnostics::Span)
    ensures
        v0_node(NodeModel::Mapping { entries, span }) == "{"@ + join(
            Seq::new(entries.len(), |j: int| v0_pair(entries, j)),
            ";"@,
        ) + "}"@,
        v0_node(NodeModel::Sequence { values, span }) == "["@ + join(
            Seq::new(values.len(), |j: int| v0_node(values[j])),
            ","@,
        ) + "]"@,
{
    lemma_v0_entries_join(entries, entries.len());
    lemma_v0_items_join(values, values.len());
}

} // verus!
