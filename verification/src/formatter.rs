//! Canonical formatting: reserved keys in document order, two spaces per
//! level, scalars bare only when made of ASCII letters, digits, `_` and `-`.
use vstd::prelude::*;

use crate::ast::{
    lemma_mapping_child_depth, lemma_sequence_child_depth,
    document_within_depth, field, key_name, lemma_mapping_view, lemma_sequence_view,
    max_nesting, ordered_entries_of, within_depth, Document, DocumentModel, EntryModel,
    MappingEntry, Node, NodeModel, TopLevelKey,
};
use crate::text::{
    chars_of, is_ascii_alnum, join, join_strings, push_char, push_str, spaces, spaces_string,
    string_of,
};

verus! {

/// Characters that may appear in a bare scalar.
pub open spec fn is_bare_char(c: char) -> bool {
    is_ascii_alnum(c) || c == '_' || c == '-'
}

/// A scalar that is written without quotes.
pub open spec fn is_bare(v: Seq<char>) -> bool {
    v.len() > 0 && forall|i: int| 0 <= i < v.len() ==> is_bare_char(#[trigger] v[i])
}

/// The escaped form of one character inside double quotes.
pub open spec fn escape_seq(c: char) -> Seq<char> {
    if c == '\\' {
        seq!['\\', '\\']
    } else if c == '"' {
        seq!['\\', '"']
    } else if c == '\n' {
        seq!['\\', 'n']
    } else if c == '\r' {
        seq!['\\', 'r']
    } else if c == '\t' {
        seq!['\\', 't']
    } else {
        seq![c]
    }
}

/// Every character escaped.
pub open spec fn escaped(v: Seq<char>) -> Seq<char>
    decreases v.len(),
{
    if v.len() == 0 {
        Seq::empty()
    } else {
        escaped(v.drop_last()) + escape_seq(v.last())
    }
}

/// A double-quoted string with backslash escapes.
pub open spec fn quoted(v: Seq<char>) -> Seq<char> {
    seq!['"'] + escaped(v) + seq!['"']
}

/// How a scalar is written.
pub open spec fn scalar_text(v: Seq<char>) -> Seq<char> {
    if is_bare(v) {
        v
    } else {
        quoted(v)
    }
}

/// The lines of `key` bound to `n`, at `indent` spaces.
pub open spec fn entry_lines(indent: nat, key: Seq<char>, n: NodeModel) -> Seq<Seq<char>>
    decreases n, 0nat,
{
    match n {
        NodeModel::Scalar { value, .. } => seq![spaces(indent) + key + ": "@ + scalar_text(value)],
        NodeModel::Mapping { entries, .. } => seq![spaces(indent) + key + ":"@] + entries_lines(
            indent + 2,
            entries,
            entries.len(),
        ),
        NodeModel::Sequence { values, .. } => seq![spaces(indent) + key + ":"@] + items_lines(
            indent + 2,
            values,
            values.len(),
        ),
    }
}

/// The lines of the list item `n`, at `indent` spaces.
pub open spec fn item_lines(indent: nat, n: NodeModel) -> Seq<Seq<char>>
    decreases n, 0nat,
{
    match n {
        NodeModel::Scalar { value, .. } => seq![spaces(indent) + "- "@ + scalar_text(value)],
        NodeModel::Mapping { entries, .. } => seq![spaces(indent) + "-"@] + entries_lines(
            indent + 2,
            entries,
            entries.len(),
        ),
        NodeModel::Sequence { values, .. } => seq![spaces(indent) + "-"@] + items_lines(
            indent + 2,
            values,
            values.len(),
        ),
    }
}

/// The lines of the first `k` entries.
pub open spec fn entries_lines(indent: nat, entries: Seq<EntryModel>, k: nat) -> Seq<Seq<char>>
    decreases entries, k,
{
    if k == 0 || k > entries.len() {
        Seq::empty()
    } else {
        entries_lines(indent, entries, (k - 1) as nat) + entry_lines(
            indent,
            entries[k - 1].key,
            entries[k - 1].value,
        )
    }
}

/// The lines of the first `k` items.
pub open spec fn items_lines(indent: nat, values: Seq<NodeModel>, k: nat) -> Seq<Seq<char>>
    decreases values, k,
{
    if k == 0 || k > values.len() {
        Seq::empty()
    } else {
        items_lines(indent, values, (k - 1) as nat) + item_lines(indent, values[k - 1])
    }
}

/// The lines of the first `k` present reserved keys.
pub open spec fn document_lines_upto(entries: Seq<(TopLevelKey, NodeModel)>, k: nat) -> Seq<Seq<char>>
    decreases k,
{
    if k == 0 || k > entries.len() {
        Seq::empty()
    } else {
        document_lines_upto(entries, (k - 1) as nat) + entry_lines(
            0,
            key_name(entries[k - 1].0),
            entries[k - 1].1,
        )
    }
}

pub open spec fn document_lines(d: DocumentModel) -> Seq<Seq<char>> {
    document_lines_upto(ordered_entries_of(d), ordered_entries_of(d).len())
}

/// The canonical text of a document: its lines joined by line feeds.
pub open spec fn format_model(d: DocumentModel) -> Seq<char> {
    join(document_lines(d), "\n"@)
}

pub open spec fn lines_model(lines: Seq<String>) -> Seq<Seq<char>> {
    lines.map_values(|l: String| l@)
}

fn is_bare_scalar(value: &str) -> (b: bool)
    ensures
        b == is_bare(value@),
{
    let cs = chars_of(value);
    if cs.len() == 0 {
        return false;
    }
    let mut i: usize = 0;
    while i < cs.len()
        invariant
            i <= cs@.len(),
            cs@ == value@,
            forall|j: int| 0 <= j < i ==> is_bare_char(#[trigger] cs@[j]),
        decreases cs@.len() - i,
    {
        let c = cs[i];
        let u = c as u32;
        let ok = (0x61 <= u && u <= 0x7a) || (0x41 <= u && u <= 0x5a) || (0x30 <= u && u <= 0x39)
            || c == '_' || c == '-';
        if !ok {
            return false;
        }
        i += 1;
    }
    true
}

/// `value` in double quotes with `\`, `"`, line feed, carriage return and
/// tab escaped.
pub fn quote_scalar(value: &str) -> (r: String)
    ensures
        r@ == quoted(value@),
{
    let cs = chars_of(value);
    let mut r = String::new();
    push_char(&mut r, '"');
    let mut i: usize = 0;
    while i < cs.len()
        invariant
            i <= cs@.len(),
            cs@ == value@,
            r@ == seq!['"'] + escaped(cs@.take(i as int)),
        decreases cs@.len() - i,
    {
        let c = cs[i];
        let ghost before = r@;
        if c == '\\' {
            push_char(&mut r, '\\');
            push_char(&mut r, '\\');
        } else if c == '"' {
            push_char(&mut r, '\\');
            push_char(&mut r, '"');
        } else if c == '\n' {
            push_char(&mut r, '\\');
            push_char(&mut r, 'n');
        } else if c == '\r' {
            push_char(&mut r, '\\');
            push_char(&mut r, 'r');
        } else if c == '\t' {
            push_char(&mut r, '\\');
            push_char(&mut r, 't');
        } else {
            push_char(&mut r, c);
        }
        assert(cs@.take(i + 1).drop_last() =~= cs@.take(i as int));
        assert(r@ =~= before + escape_seq(c));
        i += 1;
    }
    assert(cs@.take(cs@.len() as int) =~= cs@);
    push_char(&mut r, '"');
    r
}

/// How a scalar is written in canonical form.
pub fn format_scalar(value: &str) -> (r: String)
    ensures
        r@ == scalar_text(value@),
{
    if is_bare_scalar(value) {
        string_of(value)
    } else {
        quote_scalar(value)
    }
}

#[verifier::loop_isolation(false)]
fn render_mapping_entry(lines: &mut Vec<String>, indent: usize, key: &str, value: &Node, Ghost(depth): Ghost<nat>)
    requires
        within_depth(value@, depth),
        indent + 2 * depth + 2 <= usize::MAX,
    ensures
        lines_model(final(lines)@) == lines_model(old(lines)@) + entry_lines(indent as nat, key@, value@),
    decreases value,
{
    let ghost start = lines_model(lines@);
    let prefix = spaces_string(indent);
    match value {
        Node::Scalar { value: scalar, .. } => {
            let mut line = prefix;
            push_str(&mut line, key);
            push_str(&mut line, ": ");
            let text = format_scalar(scalar.as_str());
            push_str(&mut line, text.as_str());
            let ghost lm = line@;
            lines.push(line);
            assert(lines_model(lines@) =~= start + seq![lm]);
        },
        Node::Mapping { entries, span } => {
            proof {
                lemma_mapping_view(*entries, *span);
            }
            let ghost em = entries@.map_values(|e: MappingEntry| e@);
            let mut line = prefix;
            push_str(&mut line, key);
            push_str(&mut line, ":");
            let ghost lm = line@;
            lines.push(line);
            let ghost head = lines_model(lines@);
            assert(head =~= start + seq![lm]);
            let mut i: usize = 0;
            assert(lines_model(lines@) =~= head + entries_lines((indent + 2) as nat, em, 0));
            while i < entries.len()
                invariant
                    i <= entries@.len(),
                    em == entries@.map_values(|e: MappingEntry| e@),
                    lines_model(lines@) == head + entries_lines((indent + 2) as nat, em, i as nat),
                decreases entries@.len() - i,
            {
                proof {
                    assert(decreases_to!(*value => *entries));
                    assert(decreases_to!(*entries => entries@));
                    assert(decreases_to!(entries@ => entries@[i as int]));
                    assert(decreases_to!(entries@[i as int] => entries@[i as int].value));
                    assert(em[i as int] == entries@[i as int]@);
                    lemma_mapping_child_depth(*entries, *span, depth, i as int);
                }
                render_mapping_entry(
                    lines,
                    indent + 2,
                    entries[i].key.as_str(),
                    &entries[i].value,
                    Ghost((depth - 1) as nat),
                );
                assert(lines_model(lines@) =~= head + entries_lines((indent + 2) as nat, em, (i + 1) as nat));
                i += 1;
            }
            assert(lines_model(lines@) =~= start + entry_lines(indent as nat, key@, value@));
        },
        Node::Sequence { values, span } => {
            proof {
                lemma_sequence_view(*values, *span);
            }
            let ghost vm = values@.map_values(|n: Node| n@);
            assert(value@ == (NodeModel::Sequence { values: vm, span: *span }));
            let mut line = prefix;
            push_str(&mut line, key);
            push_str(&mut line, ":");
            let ghost lm = line@;
            lines.push(line);
            let ghost head = lines_model(lines@);
            assert(head =~= start + seq![lm]);
            let mut i: usize = 0;
            assert(lines_model(lines@) =~= head + items_lines((indent + 2) as nat, vm, 0));
            while i < values.len()
                invariant
                    i <= values@.len(),
                    vm == values@.map_values(|n: Node| n@),
                    lines_model(lines@) == head + items_lines((indent + 2) as nat, vm, i as nat),
                decreases values@.len() - i,
            {
                proof {
                    assert(decreases_to!(*value => *values));
                    assert(decreases_to!(*values => values@));
                    assert(decreases_to!(values@ => values@[i as int]));
                    assert(vm[i as int] == values@[i as int]@);
                    lemma_sequence_child_depth(*values, *span, depth, i as int);
                }
                render_list_item(lines, indent + 2, &values[i], Ghost((depth - 1) as nat));
                assert(lines_model(lines@) =~= head + items_lines((indent + 2) as nat, vm, (i + 1) as nat));
                i += 1;
            }
            assert(lines_model(lines@) =~= start + entry_lines(indent as nat, key@, value@));
        },
    }
}

#[verifier::loop_isolation(false)]
fn render_list_item(lines: &mut Vec<String>, indent: usize, value: &Node, Ghost(depth): Ghost<nat>)
    requires
        within_depth(value@, depth),
        indent + 2 * depth + 2 <= usize::MAX,
    ensures
        lines_model(final(lines)@) == lines_model(old(lines)@) + item_lines(indent as nat, value@),
    decreases value,
{
    let ghost start = lines_model(lines@);
    let prefix = spaces_string(indent);
    match value {
        Node::Scalar { value: scalar, .. } => {
            let mut line = prefix;
            push_str(&mut line, "- ");
            let text = format_scalar(scalar.as_str());
            push_str(&mut line, text.as_str());
            let ghost lm = line@;
            lines.push(line);
            assert(lines_model(lines@) =~= start + seq![lm]);
        },
        Node::Mapping { entries, span } => {
            proof {
                lemma_mapping_view(*entries, *span);
            }
            let ghost em = entries@.map_values(|e: MappingEntry| e@);
            let mut line = prefix;
            push_str(&mut line, "-");
            let ghost lm = line@;
            lines.push(line);
            let ghost head = lines_model(lines@);
            assert(head =~= start + seq![lm]);
            let mut i: usize = 0;
            assert(lines_model(lines@) =~= head + entries_lines((indent + 2) as nat, em, 0));
            while i < entries.len()
                invariant
                    i <= entries@.len(),
                    em == entries@.map_values(|e: MappingEntry| e@),
                    lines_model(lines@) == head + entries_lines((indent + 2) as nat, em, i as nat),
                decreases entries@.len() - i,
            {
                proof {
                    assert(decreases_to!(*value => *entries));
                    assert(decreases_to!(*entries => entries@));
                    assert(decreases_to!(entries@ => entries@[i as int]));
                    assert(decreases_to!(entries@[i as int] => entries@[i as int].value));
                    assert(em[i as int] == entries@[i as int]@);
                    lemma_mapping_child_depth(*entries, *span, depth, i as int);
                }
                render_mapping_entry(
                    lines,
                    indent + 2,
                    entries[i].key.as_str(),
                    &entries[i].value,
                    Ghost((depth - 1) as nat),
                );
                assert(lines_model(lines@) =~= head + entries_lines((indent + 2) as nat, em, (i + 1) as nat));
                i += 1;
            }
            assert(lines_model(lines@) =~= start + item_lines(indent as nat, value@));
        },
        Node::Sequence { values, span } => {
            proof {
                lemma_sequence_view(*values, *span);
            }
            let ghost vm = values@.map_values(|n: Node| n@);
            assert(value@ == (NodeModel::Sequence { values: vm, span: *span }));
            let mut line = prefix;
            push_str(&mut line, "-");
            let ghost lm = line@;
            lines.push(line);
            let ghost head = lines_model(lines@);
            assert(head =~= start + seq![lm]);
            let mut i: usize = 0;
            assert(lines_model(lines@) =~= head + items_lines((indent + 2) as nat, vm, 0));
            while i < values.len()
                invariant
                    i <= values@.len(),
                    vm == values@.map_values(|n: Node| n@),
                    lines_model(lines@) == head + items_lines((indent + 2) as nat, vm, i as nat),
                decreases values@.len() - i,
            {
                proof {
                    assert(decreases_to!(*value => *values));
                    assert(decreases_to!(*values => values@));
                    assert(decreases_to!(values@ => values@[i as int]));
                    assert(vm[i as int] == values@[i as int]@);
                    lemma_sequence_child_depth(*values, *span, depth, i as int);
                }
                render_list_item(lines, indent + 2, &values[i], Ghost((depth - 1) as nat));
                assert(lines_model(lines@) =~= head + items_lines((indent + 2) as nat, vm, (i + 1) as nat));
                i += 1;
            }
            assert(lines_model(lines@) =~= start + item_lines(indent as nat, value@));
        },
    }
}

/// Present reserved keys are within the nesting limit.
pub proof fn lemma_ordered_within(d: DocumentModel, i: int)
    requires
        document_within_depth(d),
        0 <= i < ordered_entries_of(d).len(),
    ensures
        within_depth(ordered_entries_of(d)[i].1, max_nesting()),
        field(d, ordered_entries_of(d)[i].0) == Some(ordered_entries_of(d)[i].1),
{
    lemma_entries_among_fields(d, crate::ast::ordered_keys(), i);
}

proof fn lemma_entries_among_fields(d: DocumentModel, keys: Seq<TopLevelKey>, i: int)
    requires
        document_within_depth(d),
        0 <= i < crate::ast::entries_among(d, keys).len(),
    ensures
        within_depth(crate::ast::entries_among(d, keys)[i].1, max_nesting()),
        field(d, crate::ast::entries_among(d, keys)[i].0) == Some(crate::ast::entries_among(d, keys)[i].1),
    decreases keys.len(),
{
    if keys.len() > 0 {
        let front = crate::ast::entries_among(d, keys.drop_last());
        if i < front.len() {
            lemma_entries_among_fields(d, keys.drop_last(), i);
        }
    }
}

/// The canonical text of `document`.
pub fn format_document(document: &Document) -> (r: String)
    requires
        document_within_depth(document@),
    ensures
        r@ == format_model(document@),
{
    let entries = document.ordered_entries();
    let ghost em = entries@.map_values(|p: (TopLevelKey, &Node)| (p.0, p.1@));
    let mut lines: Vec<String> = Vec::new();
    let mut i: usize = 0;
    assert(lines_model(lines@) =~= document_lines_upto(em, 0));
    while i < entries.len()
        invariant
            i <= entries@.len(),
            em == entries@.map_values(|p: (TopLevelKey, &Node)| (p.0, p.1@)),
            em == ordered_entries_of(document@),
            document_within_depth(document@),
            lines_model(lines@) == document_lines_upto(em, i as nat),
        decreases entries@.len() - i,
    {
        let (key, value) = entries[i];
        proof {
            assert(em[i as int] == (key, value@));
            lemma_ordered_within(document@, i as int);
        }
        render_mapping_entry(&mut lines, 0, key.as_str(), value, Ghost(max_nesting()));
        assert(lines_model(lines@) =~= document_lines_upto(em, (i + 1) as nat));
        i += 1;
    }
    join_strings(&lines, "\n")
}

} // verus!
