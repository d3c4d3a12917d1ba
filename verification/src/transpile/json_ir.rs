//! The `json-ir` target: a JSON object with two spaces per level.
use vstd::prelude::*;

use crate::ast::{
    lemma_mapping_child_depth, lemma_sequence_child_depth,
    document_within_depth, key_name, lemma_mapping_view, lemma_sequence_view, max_nesting,
    ordered_entries_of, within_depth, Document, DocumentModel, EntryModel, MappingEntry, Node,
    NodeModel, TopLevelKey,
};
use crate::formatter::{lemma_ordered_within, lines_model, quote_scalar, quoted};
use crate::text::{join, join_strings, push_str, spaces, spaces_string, string_of};
use crate::transpile::Emitter;
use crate::transpile::vars::{expand_document, expand_document_model, lemma_expand_document_within_depth};

verus! {

/// The comma that follows every element but the last of `len`.
pub open spec fn separator(k: nat, len: nat) -> Seq<char> {
    if k == len {
        Seq::empty()
    } else {
        ","@
    }
}

/// The JSON text of a node whose first line sits at `indent` spaces.
pub open spec fn json_node(n: NodeModel, indent: nat) -> Seq<char>
    decreases n, 1nat,
{
    match n {
        NodeModel::Scalar { value, .. } => quoted(value),
        NodeModel::Sequence { values, .. } => if values.len() == 0 {
            "[]"@
        } else {
            join(
                seq!["["@] + array_lines(values, indent, values.len()) + seq![spaces(indent) + "]"@],
                "\n"@,
            )
        },
        NodeModel::Mapping { entries, .. } => if entries.len() == 0 {
            "{}"@
        } else {
            join(
                seq!["{"@] + object_lines(entries, indent, entries.len()) + seq![
                    spaces(indent) + "}"@,
                ],
                "\n"@,
            )
        },
    }
}

/// The lines of the first `k` array elements.
pub open spec fn array_lines(values: Seq<NodeModel>, indent: nat, k: nat) -> Seq<Seq<char>>
    decreases values, k,
{
    if k == 0 || k > values.len() {
        Seq::empty()
    } else {
        array_lines(values, indent, (k - 1) as nat).push(
            spaces(indent + 2) + json_node(values[k - 1], indent + 2) + separator(k, values.len()),
        )
    }
}

/// The lines of the first `k` object members.
pub open spec fn object_lines(entries: Seq<EntryModel>, indent: nat, k: nat) -> Seq<Seq<char>>
    decreases entries, k,
{
    if k == 0 || k > entries.len() {
        Seq::empty()
    } else {
        object_lines(entries, indent, (k - 1) as nat).push(
            spaces(indent + 2) + quoted(entries[k - 1].key) + ": "@ + json_node(
                entries[k - 1].value,
                indent + 2,
            ) + separator(k, entries.len()),
        )
    }
}

/// The lines of the first `k` top-level members.
pub open spec fn top_lines(pairs: Seq<(TopLevelKey, NodeModel)>, k: nat) -> Seq<Seq<char>>
    decreases k,
{
    if k == 0 || k > pairs.len() {
        Seq::empty()
    } else {
        top_lines(pairs, (k - 1) as nat).push(
            spaces(2) + quoted(key_name(pairs[k - 1].0)) + ": "@ + json_node(pairs[k - 1].1, 2)
                + separator(k, pairs.len()),
        )
    }
}

/// The JSON text of a document's present reserved keys, as they are.
pub open spec fn json_document_unexpanded(d: DocumentModel) -> Seq<char> {
    let pairs = ordered_entries_of(d);
    if pairs.len() == 0 {
        "{}"@
    } else {
        join(seq!["{"@] + top_lines(pairs, pairs.len()) + seq!["}"@], "\n"@)
    }
}

/// The `json-ir` output: the document with its references expanded, as JSON.
pub open spec fn json_document(d: DocumentModel) -> Seq<char> {
    json_document_unexpanded(expand_document_model(d))
}

fn separator_str(k: usize, len: usize) -> (s: &'static str)
    ensures
        s@ == separator(k as nat, len as nat),
{
    if k == len {
        proof {
            assert(""@ =~= Seq::<char>::empty()) by {
                reveal_strlit("");
            }
        }
        ""
    } else {
        ","
    }
}

fn render_node(value: &Node, indent: usize, Ghost(depth): Ghost<nat>) -> (r: String)
    requires
        within_depth(value@, depth),
        indent + 2 * depth + 2 <= usize::MAX,
    ensures
        r@ == json_node(value@, indent as nat),
    decreases value,
{
    match value {
        Node::Scalar { value: scalar, .. } => quote_scalar(scalar.as_str()),
        Node::Sequence { values, span } => {
            proof {
                lemma_sequence_view(*values, *span);
            }
            render_array(value, values, *span, indent, Ghost(depth))
        },
        Node::Mapping { entries, span } => {
            proof {
                lemma_mapping_view(*entries, *span);
            }
            render_object(value, entries, *span, indent, Ghost(depth))
        },
    }
}

#[verifier::loop_isolation(false)]
fn render_array(whole: &Node, items: &Vec<Node>, span: crate::diagnostics::Span, indent: usize, Ghost(depth): Ghost<nat>) -> (r: String)
    requires
        *whole == (Node::Sequence { values: *items, span }),
        within_depth(whole@, depth),
        indent + 2 * depth + 2 <= usize::MAX,
    ensures
        r@ == json_node(whole@, indent as nat),
    decreases whole, 0nat,
{
    proof {
        lemma_sequence_view(*items, span);
    }
    let ghost vm = items@.map_values(|n: Node| n@);
    if items.len() == 0 {
        return string_of("[]");
    }
    let mut lines: Vec<String> = Vec::new();
    lines.push(string_of("["));
    let ghost head = lines_model(lines@);
    assert(head =~= seq!["["@]);
    let mut i: usize = 0;
    assert(lines_model(lines@) =~= head + array_lines(vm, indent as nat, 0));
    while i < items.len()
        invariant
            i <= items@.len(),
            vm == items@.map_values(|n: Node| n@),
            lines_model(lines@) == head + array_lines(vm, indent as nat, i as nat),
        decreases items@.len() - i,
    {
        proof {
            assert(decreases_to!(*whole => *items));
            assert(decreases_to!(*items => items@));
            assert(decreases_to!(items@ => items@[i as int]));
            assert(vm[i as int] == items@[i as int]@);
            lemma_sequence_child_depth(*items, span, depth, i as int);
        }
        let mut line = spaces_string(indent + 2);
        let inner = render_node(&items[i], indent + 2, Ghost((depth - 1) as nat));
        push_str(&mut line, inner.as_str());
        push_str(&mut line, separator_str(i + 1, items.len()));
        let ghost lm = line@;
        assert(lm == spaces((indent + 2) as nat) + json_node(vm[i as int], (indent + 2) as nat)
            + separator((i + 1) as nat, vm.len()));
        let ghost before = lines_model(lines@);
        lines.push(line);
        assert(lines_model(lines@) =~= before.push(lm));
        assert(lines_model(lines@) =~= head + array_lines(vm, indent as nat, (i + 1) as nat));
        i += 1;
    }
    let mut last = spaces_string(indent);
    push_str(&mut last, "]");
    let ghost body = lines_model(lines@);
    let ghost lm = last@;
    lines.push(last);
    assert(lines_model(lines@) =~= body.push(lm));
    assert(whole@ == (NodeModel::Sequence { values: vm, span }));
    assert(lines_model(lines@) =~= seq!["["@] + array_lines(vm, indent as nat, vm.len()) + seq![
        spaces(indent as nat) + "]"@,
    ]);
    join_strings(&lines, "\n")
}

#[verifier::loop_isolation(false)]
fn render_object(whole: &Node, entries: &Vec<MappingEntry>, span: crate::diagnostics::Span, indent: usize, Ghost(depth): Ghost<nat>) -> (r: String)
    requires
        *whole == (Node::Mapping { entries: *entries, span }),
        within_depth(whole@, depth),
        indent + 2 * depth + 2 <= usize::MAX,
    ensures
        r@ == json_node(whole@, indent as nat),
    decreases whole, 0nat,
{
    proof {
        lemma_mapping_view(*entries, span);
    }
    let ghost em = entries@.map_values(|e: MappingEntry| e@);
    if entries.len() == 0 {
        return string_of("{}");
    }
    let mut lines: Vec<String> = Vec::new();
    lines.push(string_of("{"));
    let ghost head = lines_model(lines@);
    assert(head =~= seq!["{"@]);
    let mut i: usize = 0;
    assert(lines_model(lines@) =~= head + object_lines(em, indent as nat, 0));
    while i < entries.len()
        invariant
            i <= entries@.len(),
            em == entries@.map_values(|e: MappingEntry| e@),
            lines_model(lines@) == head + object_lines(em, indent as nat, i as nat),
        decreases entries@.len() - i,
    {
        proof {
            assert(decreases_to!(*whole => *entries));
            assert(decreases_to!(*entries => entries@));
            assert(decreases_to!(entries@ => entries@[i as int]));
            assert(decreases_to!(entries@[i as int] => entries@[i as int].value));
            assert(em[i as int] == entries@[i as int]@);
            lemma_mapping_child_depth(*entries, span, depth, i as int);
        }
        let mut line = spaces_string(indent + 2);
        let key = quote_scalar(entries[i].key.as_str());
        push_str(&mut line, key.as_str());
        push_str(&mut line, ": ");
        let inner = render_node(&entries[i].value, indent + 2, Ghost((depth - 1) as nat));
        push_str(&mut line, inner.as_str());
        push_str(&mut line, separator_str(i + 1, entries.len()));
        let ghost lm = line@;
        assert(lm == spaces((indent + 2) as nat) + quoted(em[i as int].key) + ": "@ + json_node(
            em[i as int].value,
            (indent + 2) as nat,
        ) + separator((i + 1) as nat, em.len()));
        let ghost before = lines_model(lines@);
        lines.push(line);
        assert(lines_model(lines@) =~= before.push(lm));
        assert(lines_model(lines@) =~= head + object_lines(em, indent as nat, (i + 1) as nat));
        i += 1;
    }
    let mut last = spaces_string(indent);
    push_str(&mut last, "}");
    let ghost body = lines_model(lines@);
    let ghost lm = last@;
    lines.push(last);
    assert(lines_model(lines@) =~= body.push(lm));
    assert(whole@ == (NodeModel::Mapping { entries: em, span }));
    assert(lines_model(lines@) =~= seq!["{"@] + object_lines(em, indent as nat, em.len()) + seq![
        spaces(indent as nat) + "}"@,
    ]);
    join_strings(&lines, "\n")
}

/// The JSON object of the present reserved keys, in document order.
fn render_object_from_pairs(pairs: &Vec<(TopLevelKey, &Node)>, Ghost(d): Ghost<DocumentModel>) -> (r: String)
    requires
        pairs@.map_values(|p: (TopLevelKey, &Node)| (p.0, p.1@)) == ordered_entries_of(d),
        document_within_depth(d),
    ensures
        r@ == json_document_unexpanded(d),
{
    let ghost pm = pairs@.map_values(|p: (TopLevelKey, &Node)| (p.0, p.1@));
    if pairs.len() == 0 {
        return string_of("{}");
    }
    let mut lines: Vec<String> = Vec::new();
    lines.push(string_of("{"));
    let ghost head = lines_model(lines@);
    assert(head =~= seq!["{"@]);
    let mut i: usize = 0;
    assert(lines_model(lines@) =~= head + top_lines(pm, 0));
    while i < pairs.len()
        invariant
            i <= pairs@.len(),
            pm == pairs@.map_values(|p: (TopLevelKey, &Node)| (p.0, p.1@)),
            pm == ordered_entries_of(d),
            document_within_depth(d),
            lines_model(lines@) == head + top_lines(pm, i as nat),
        decreases pairs@.len() - i,
    {
        let (key, value) = pairs[i];
        proof {
            assert(pm[i as int] == (key, value@));
            lemma_ordered_within(d, i as int);
        }
        let mut line = spaces_string(2);
        let k = quote_scalar(key.as_str());
        push_str(&mut line, k.as_str());
        push_str(&mut line, ": ");
        let inner = render_node(value, 2, Ghost(max_nesting()));
        push_str(&mut line, inner.as_str());
        push_str(&mut line, separator_str(i + 1, pairs.len()));
        let ghost lm = line@;
        let ghost before = lines_model(lines@);
        lines.push(line);
        assert(lines_model(lines@) =~= before.push(lm));
        assert(lines_model(lines@) =~= head + top_lines(pm, (i + 1) as nat));
        i += 1;
    }
    let last = string_of("}");
    let ghost body = lines_model(lines@);
    let ghost lm = last@;
    lines.push(last);
    assert(lines_model(lines@) =~= body.push(lm));
    assert(lines_model(lines@) =~= seq!["{"@] + top_lines(pm, pm.len()) + seq!["}"@]);
    join_strings(&lines, "\n")
}

/// The `json-ir` emitter.
pub struct JsonIrEmitter;

impl Emitter for JsonIrEmitter {
    open spec fn rendering(&self, d: DocumentModel) -> Seq<char> {
        json_document(d)
    }

    /// The document, its references expanded, as JSON.
    fn emit(&self, document: &Document) -> (r: String) {
        let expanded = expand_document(document);
        proof {
            lemma_expand_document_within_depth(document@);
        }
        let pairs = expanded.ordered_entries();
        render_object_from_pairs(&pairs, Ghost(expanded@))
    }
}

/// The line of object member `j`, without its separator.
pub open spec fn member_line(entries: Seq<EntryModel>, indent: nat, j: int) -> Seq<char> {
    spaces(indent + 2) + quoted(entries[j].key) + ": "@ + json_node(entries[j].value, indent + 2)
}

/// The line of array element `j`, without its separator.
pub open spec fn element_line(values: Seq<NodeModel>, indent: nat, j: int) -> Seq<char> {
    spaces(indent + 2) + json_node(values[j], indent + 2)
}

/// `","` after every one of `len` elements but the last.
pub open spec fn comma_unless_last(j: int, len: nat) -> Seq<char> {
    if j + 1 < len {
        ","@
    } else {
        Seq::empty()
    }
}

proof fn lemma_object_lines(entries: Seq<EntryModel>, indent: nat, k: nat)
    requires
        k <= entries.len(),
    ensures
        object_lines(entries, indent, k) =~= Seq::new(
            k,
            |j: int| member_line(entries, indent, j) + comma_unless_last(j, entries.len()),
        ),
    decreases k,
{
    if k > 0 {
        lemma_object_lines(entries, indent, (k - 1) as nat);
    }
}

proof fn lemma_array_lines(values: Seq<NodeModel>, indent: nat, k: nat)
    requires
        k <= values.len(),
    ensures
        array_lines(values, indent, k) =~= Seq::new(
            k,
            |j: int| element_line(values, indent, j) + comma_unless_last(j, values.len()),
        ),
    decreases k,
{
    if k > 0 {
        lemma_array_lines(values, indent, (k - 1) as nat);
    }
}

/// A non-empty object is `{`, one line per member (`"key": value`) with a
/// comma after every member but the last, whatever the member's value, and
/// `}` at the object's indentation, the lines joined by line feeds.
pub proof fn law_object_members_are_comma_separated(entries: Seq<EntryModel>, span: crate::diagnostics::Span, indent: nat)
    requires
        entries.len() > 0,
    ensures
        json_node(NodeModel::Mapping { entries, span }, indent) == join(
            seq!["{"@] + Seq::new(
                entries.len(),
                |j: int| member_line(entries, indent, j) + comma_unless_last(j, entries.len()),
            ) + seq![spaces(indent) + "}"@],
            "\n"@,
        ),
{
    lemma_object_lines(entries, indent, entries.len());
}

/// A non-empty array is `[`, one line per element with a comma after every
/// element but the last, whatever the element, and `]` at the array's
/// indentation, the lines joined by line feeds.
pub proof fn law_array_elements_are_comma_separated(values: Seq<NodeModel>, span: crate::diagnostics::Span, indent: nat)
    requires
        values.len() > 0,
    ensures
        json_node(NodeModel::Sequence { values, span }, indent) == join(
            seq!["["@] + Seq::new(
                values.len(),
                |j: int| element_line(values, indent, j) + comma_unless_last(j, values.len()),
            ) + seq![spaces(indent) + "]"@],
            "\n"@,
        ),
{
    lemma_array_lines(values, indent, values.len());
}

proof fn lemma_top_lines(pairs: Seq<(TopLevelKey, NodeModel)>, k: nat)
    requires
        k <= pairs.len(),
    ensures
        top_lines(pairs, k) =~= Seq::new(
            k,
            |j: int| spaces(2) + quoted(key_name(pairs[j].0)) + ": "@ + json_node(pairs[j].1, 2)
                + comma_unless_last(j, pairs.len()),
        ),
    decreases k,
{
    if k > 0 {
        lemma_top_lines(pairs, (k - 1) as nat);
    }
}

/// The JSON text of a document with a reserved key present is `{`, one line
/// per present key in document order (`"key": value`) with a comma after
/// every one but the last, and `}`, the lines joined by line feeds.
pub proof fn law_document_members_are_comma_separated(d: DocumentModel)
    requires
        ordered_entries_of(d).len() > 0,
    ensures
        json_document_unexpanded(d) == join(
            seq!["{"@] + Seq::new(
                ordered_entries_of(d).len(),
                |j: int| spaces(2) + quoted(key_name(ordered_entries_of(d)[j].0)) + ": "@ + json_node(
                    ordered_entries_of(d)[j].1,
                    2,
                ) + comma_unless_last(j, ordered_entries_of(d).len()),
            ) + seq!["}"@],
            "\n"@,
        ),
{
    lemma_top_lines(ordered_entries_of(d), ordered_entries_of(d).len());
}

} // verus!
