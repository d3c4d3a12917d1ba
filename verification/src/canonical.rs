//! The canonical form is a fixed point: formatting a parsed document, parsing
//! the result and formatting again gives the same text.
//!
//! The proof follows the text through the lexer (every canonical line lexes
//! to the token it was written from) and the parser (the tokens of a block
//! rebuild the block, spans aside).
use vstd::prelude::*;

use crate::ast::{
    directive_keyword, entries_among, field, key_name, keyword_key, law_keyword_roundtrip,
    opt_stripped, ordered_entries_of, ordered_keys, strip_spans, with_field, zero_span,
    DocumentModel, EntryModel, NodeModel, TopLevelKey,
};
use crate::parser::{p_block, p_document, p_map, p_nested, p_seq, parse_model};
use crate::formatter::{
    document_lines, document_lines_upto, entries_lines, entry_lines, escape_seq, escaped, format_model,
    is_bare, is_bare_char, item_lines, items_lines, quoted, scalar_text,
};
use crate::lexer::{
    lex, lex_content, lex_errors, lex_line, lex_list_item, lex_mapping, lex_scalar, lex_tokens, lines,
    newline_index, quoted_scan, strip_cr, LineKindModel, LineOutcome, LineTokenModel, TextModel,
};
use crate::diagnostics::Span;
use crate::text::{
    ascii_ws_pred, ident_continue_pred, is_ascii_ws, is_ident_continue, is_ident_start, is_ws,
    lemma_run_len, lemma_ws_suffix, run_len, space_pred, space_prefix_len, spaces, trim, trim_end,
    trim_start, ws_pred, ws_prefix_len, ws_suffix_len, join, lemma_run_len_bound,
};

verus! {

// ---------------------------------------------------------------------------
// Scalars: the written form of a value lexes back to the value.
// ---------------------------------------------------------------------------

/// Whether `c` may stand in a canonical line: no tab, line feed or carriage
/// return.
pub open spec fn plain_char(c: char) -> bool {
    c != '\t' && c != '\n' && c != '\r'
}

proof fn lemma_escaped_plain(v: Seq<char>)
    ensures
        forall|j: int| 0 <= j < escaped(v).len() ==> plain_char(#[trigger] escaped(v)[j]),
    decreases v.len(),
{
    if v.len() > 0 {
        lemma_escaped_plain(v.drop_last());
        let a = escaped(v.drop_last());
        let b = escape_seq(v.last());
        assert forall|j: int| 0 <= j < (a + b).len() implies plain_char(#[trigger] (a + b)[j]) by {
            if j >= a.len() {
                assert((a + b)[j] == b[j - a.len()]);
            } else {
                assert((a + b)[j] == a[j]);
            }
        }
    }
}

proof fn lemma_escaped_step(v: Seq<char>, i: int)
    requires
        0 <= i < v.len(),
    ensures
        escaped(v.take(i + 1)) == escaped(v.take(i)) + escape_seq(v[i]),
{
    assert(v.take(i + 1).drop_last() =~= v.take(i));
}

proof fn lemma_escaped_prefix(v: Seq<char>, i: int)
    requires
        0 <= i <= v.len(),
    ensures
        escaped(v.take(i)).len() <= escaped(v).len(),
        escaped(v).take(escaped(v.take(i)).len() as int) == escaped(v.take(i)),
    decreases v.len() - i,
{
    if i == v.len() {
        assert(v.take(i) =~= v);
        assert(escaped(v).take(escaped(v).len() as int) =~= escaped(v));
    } else {
        lemma_escaped_prefix(v, i + 1);
        lemma_escaped_step(v, i);
        let a = escaped(v.take(i));
        let b = escaped(v.take(i + 1));
        assert(escaped(v).take(a.len() as int) =~= b.take(a.len() as int));
        assert(b.take(a.len() as int) =~= a);
    }
}

proof fn lemma_trim_empty_seq()
    ensures
        trim(Seq::<char>::empty()).len() == 0,
{
    let e = Seq::<char>::empty();
    assert(run_len(e, ws_pred()) == 0);
    assert(trim_start(e) =~= e);
    assert(ws_suffix_len(e) == 0);
}

proof fn lemma_scan_from(v: Seq<char>, i: int, span: Span)
    requires
        0 <= i <= v.len(),
    ensures
        quoted_scan(quoted(v), '"', 1 + escaped(v.take(i)).len() as int, v.take(i), span) == Ok::<
            TextModel,
            crate::diagnostics::DiagnosticModel,
        >(TextModel { value: v, span }),
    decreases v.len() - i,
{
    let src = quoted(v);
    let e = escaped(v);
    lemma_escaped_prefix(v, i);
    let p: int = 1 + escaped(v.take(i)).len() as int;
    if i == v.len() {
        assert(v.take(i) =~= v);
        assert(src[p] == '"');
        assert(src.skip(p + 1) =~= Seq::<char>::empty());
        lemma_trim_empty_seq();
    } else {
        lemma_escaped_prefix(v, i + 1);
        lemma_escaped_step(v, i);
        lemma_scan_from(v, i + 1, span);
        let c = v[i];
        let es = escape_seq(c);
        let ei = escaped(v.take(i));
        let ej = escaped(v.take(i + 1));
        assert(ej == ei + es);
        assert forall|t: int| 0 <= t < es.len() implies src[p + t] == es[t] by {
            assert(src[p + t] == e[ei.len() + t]);
            assert(e.take(ej.len() as int)[ei.len() + t] == ej[ei.len() + t]);
            assert(ej[ei.len() + t] == es[t]);
        }
        assert(src.len() == e.len() + 2);
        assert(v.take(i).push(c) =~= v.take(i + 1));
        if c == '\\' {
            assert(src[p] == '\\' && src[p + 1] == '\\');
        } else if c == '"' {
            assert(src[p] == '\\' && src[p + 1] == '"');
        } else if c == '\n' {
            assert(src[p] == '\\' && src[p + 1] == 'n');
        } else if c == '\r' {
            assert(src[p] == '\\' && src[p + 1] == 'r');
        } else if c == '\t' {
            assert(src[p] == '\\' && src[p + 1] == 't');
        } else {
            assert(es == seq![c]);
            assert(src[p + 0] == es[0]);
        }
    }
}

/// Reading a quoted scalar undoes quoting: for every value, the double-quoted
/// form with backslash escapes reads back to the value itself.
pub proof fn law_quoted_scalar_reads_back(v: Seq<char>, span: Span)
    ensures
        quoted_scan(quoted(v), '"', 1, Seq::empty(), span) == Ok::<
            TextModel,
            crate::diagnostics::DiagnosticModel,
        >(TextModel { value: v, span }),
        lex_scalar(quoted(v), span) == Ok::<TextModel, crate::diagnostics::DiagnosticModel>(
            TextModel { value: v, span },
        ),
{
    lemma_scan_from(v, 0, span);
    assert(v.take(0) =~= Seq::<char>::empty());
    assert(escaped(Seq::<char>::empty()) =~= Seq::<char>::empty());
    assert(quoted(v)[0] == '"');
}

/// The written form of a value lexes back to the value.
pub proof fn lemma_scalar_text_lexes(v: Seq<char>, span: Span)
    ensures
        lex_scalar(scalar_text(v), span) == Ok::<TextModel, crate::diagnostics::DiagnosticModel>(
            TextModel { value: v, span },
        ),
{
    if is_bare(v) {
        assert(is_bare_char(v[0]));
    } else {
        lemma_scan_from(v, 0, span);
        assert(v.take(0) =~= Seq::<char>::empty());
        assert(escaped(Seq::<char>::empty()) =~= Seq::<char>::empty());
        assert(v.take(0) == Seq::<char>::empty());
        assert(quoted(v)[0] == '"');
    }
}

/// The written form of a value: not empty, without tab, line feed or
/// carriage return, and neither starting nor ending with whitespace.
pub proof fn lemma_scalar_text_shape(v: Seq<char>)
    ensures
        scalar_text(v).len() > 0,
        forall|j: int| 0 <= j < scalar_text(v).len() ==> plain_char(#[trigger] scalar_text(v)[j]),
        !is_ws(scalar_text(v)[0]),
        !is_ws(scalar_text(v).last()),
        scalar_text(v)[0] != '#',
        scalar_text(v)[0] != '-' || is_bare(v),
{
    let t = scalar_text(v);
    if is_bare(v) {
        assert forall|j: int| 0 <= j < t.len() implies plain_char(#[trigger] t[j]) by {
            assert(is_bare_char(v[j]));
        }
        assert(is_bare_char(v[0]));
        assert(is_bare_char(v.last()));
    } else {
        lemma_escaped_plain(v);
        let e = escaped(v);
        assert forall|j: int| 0 <= j < t.len() implies plain_char(#[trigger] t[j]) by {
            if 0 < j < t.len() - 1 {
                assert(t[j] == e[j - 1]);
            }
        }
    }
}

// ---------------------------------------------------------------------------
// Lines: every canonical line lexes to the token it was written from.
// ---------------------------------------------------------------------------

/// What a line says, its positions aside.
pub ghost enum KindShape {
    Entry { key: Seq<char>, value: Option<Seq<char>> },
    Item { value: Option<Seq<char>> },
}

/// A token, its positions aside.
pub ghost struct LineShape {
    pub indent: nat,
    pub kind: KindShape,
}

pub open spec fn text_value(t: Option<TextModel>) -> Option<Seq<char>> {
    match t {
        Some(x) => Some(x.value),
        None => None,
    }
}

pub open spec fn kind_shape(k: LineKindModel) -> KindShape {
    match k {
        LineKindModel::Mapping { key, value, .. } => KindShape::Entry { key: key.value, value: text_value(value) },
        LineKindModel::ListItem { value, .. } => KindShape::Item { value: text_value(value) },
    }
}

pub open spec fn token_shape(t: LineTokenModel) -> LineShape {
    LineShape { indent: t.indent, kind: kind_shape(t.kind) }
}

/// A key as the lexer reads it: `[A-Za-z_][A-Za-z0-9_-]*`.
pub open spec fn key_ok(k: Seq<char>) -> bool {
    k.len() > 0 && is_ident_start(k[0]) && forall|j: int| 1 <= j < k.len() ==> is_ident_continue(#[trigger] k[j])
}

/// A line that splitting a text at its line feeds gives back as it is.
pub open spec fn clean_line(l: Seq<char>) -> bool {
    &&& l.len() > 0
    &&& forall|j: int| 0 <= j < l.len() ==> #[trigger] l[j] != '\n'
    &&& l.last() != '\r'
}

/// Whether `raw` lexes, on any line, to a token of shape `s`.
pub open spec fn line_lexes_as(raw: Seq<char>, s: LineShape) -> bool {
    forall|ln: nat| #[trigger] lex_line(raw, ln) matches LineOutcome::Token(t) && token_shape(t) == s
}

/// A line `spaces(e) + c` whose content `c` is trimmed, plain and not a
/// comment lexes as `c` at indentation `e`.
proof fn lemma_indented_line(e: nat, c: Seq<char>, ln: nat)
    requires
        e % 2 == 0,
        c.len() > 0,
        !is_ws(c[0]),
        c[0] != '#',
        !is_ws(c.last()),
        forall|j: int| 0 <= j < c.len() ==> plain_char(#[trigger] c[j]),
    ensures
        lex_line(spaces(e) + c, ln) == match lex_content(c, ln, e + 1) {
            Ok(kind) => LineOutcome::Token(LineTokenModel { indent: e, kind }),
            Err(d) => LineOutcome::Fail(d),
        },
        clean_line(spaces(e) + c),
{
    let raw = spaces(e) + c;
    assert forall|j: int| 0 <= j < raw.len() implies #[trigger] raw[j] != '\n' by {
        if j >= e {
            assert(raw[j] == c[j - e]);
        }
    }
    assert(raw.last() == c.last());
    assert forall|j: int| 0 <= j < e implies ws_pred()(#[trigger] raw[j]) by {
        assert(raw[j] == ' ');
    }
    assert(raw[e as int] == c[0]);
    lemma_run_len(raw, ws_pred(), e as int);
    assert forall|j: int| 0 <= j < e implies space_pred()(#[trigger] raw[j]) by {
        assert(raw[j] == ' ');
    }
    lemma_run_len(raw, space_pred(), e as int);
    assert(raw.skip(e as int) =~= c);
    lemma_ws_suffix(c, 0);
    assert(c.take(c.len() as int) =~= c);
    assert(trim_end(c) == c);
    assert(trim(raw) == c);
    assert(!raw.contains('\t')) by {
        if raw.contains('\t') {
            let j = choose|j: int| 0 <= j < raw.len() && raw[j] == '\t';
            if j >= e {
                assert(raw[j] == c[j - e]);
            }
        }
    }
}

proof fn lemma_key_run(key: Seq<char>, rest: Seq<char>)
    requires
        key_ok(key),
        rest.len() > 0,
        !is_ident_continue(rest[0]),
    ensures
        1 + run_len((key + rest).drop_first(), ident_continue_pred()) == key.len(),
{
    let s = (key + rest).drop_first();
    assert forall|j: int| 0 <= j < key.len() - 1 implies ident_continue_pred()(#[trigger] s[j]) by {
        assert(s[j] == key[j + 1]);
    }
    assert(s[key.len() - 1] == rest[0]);
    lemma_run_len(s, ident_continue_pred(), key.len() - 1);
}

/// `key: value` lexes to its key and value.
#[verifier::spinoff_prover]
#[verifier::rlimit(40)]
pub proof fn lemma_entry_value_line(e: nat, key: Seq<char>, v: Seq<char>)
    requires
        e % 2 == 0,
        key_ok(key),
    ensures
        line_lexes_as(
            spaces(e) + (key + ": "@ + scalar_text(v)),
            LineShape { indent: e, kind: KindShape::Entry { key, value: Some(v) } },
        ),
        clean_line(spaces(e) + (key + ": "@ + scalar_text(v))),
{
    reveal_strlit(": ");
    let t = scalar_text(v);
    lemma_scalar_text_shape(v);
    let c = key + ": "@ + t;
    let rest = ": "@ + t;
    assert(c =~= key + rest);
    assert(c[0] == key[0]);
    assert(c.last() == t.last());
    assert forall|j: int| 0 <= j < c.len() implies plain_char(#[trigger] c[j]) by {
        if j < key.len() {
            assert(c[j] == key[j]);
            if j > 0 {
                assert(is_ident_continue(key[j]));
            }
        } else if j >= key.len() + 2 {
            assert(c[j] == t[j - key.len() - 2]);
        }
    }
    assert forall|ln: nat| #[trigger] lex_line(spaces(e) + c, ln) matches LineOutcome::Token(tok)
        && token_shape(tok) == (LineShape { indent: e, kind: KindShape::Entry { key, value: Some(v) } }) by {
        lemma_indented_line(e, c, ln);
        lemma_key_run(key, rest);
        let k = key.len();
        assert(c.skip(k as int) =~= rest);
        lemma_run_len(rest, ascii_ws_pred(), 0);
        assert(rest.skip(0) =~= rest);
        let after_colon = rest.drop_first();
        assert(after_colon =~= seq![' '] + t);
        assert(after_colon[1] == t[0]);
        lemma_run_len(after_colon, ws_pred(), 1);
        assert(after_colon.skip(1) =~= t);
        assert(c.take(k as int) =~= key);
        let sp = crate::diagnostics::span_at(ln as int, (e + 1 + k + 1 + crate::text::byte_len(after_colon.take(1))) as int);
        lemma_scalar_text_lexes(v, sp);
    }
    lemma_indented_line(e, c, 0);
}

/// `key:` lexes to its key with no value.
pub proof fn lemma_entry_open_line(e: nat, key: Seq<char>)
    requires
        e % 2 == 0,
        key_ok(key),
    ensures
        line_lexes_as(
            spaces(e) + (key + ":"@),
            LineShape { indent: e, kind: KindShape::Entry { key, value: None } },
        ),
        clean_line(spaces(e) + (key + ":"@)),
{
    reveal_strlit(":");
    let c = key + ":"@;
    let rest = ":"@;
    assert(c[0] == key[0]);
    assert forall|j: int| 0 <= j < c.len() implies plain_char(#[trigger] c[j]) by {
        if j < key.len() {
            assert(c[j] == key[j]);
            if j > 0 {
                assert(is_ident_continue(key[j]));
            }
        }
    }
    assert forall|ln: nat| #[trigger] lex_line(spaces(e) + c, ln) matches LineOutcome::Token(tok)
        && token_shape(tok) == (LineShape { indent: e, kind: KindShape::Entry { key, value: None } }) by {
        lemma_indented_line(e, c, ln);
        lemma_key_run(key, rest);
        let k = key.len();
        assert(c.skip(k as int) =~= rest);
        lemma_run_len(rest, ascii_ws_pred(), 0);
        assert(rest.skip(0) =~= rest);
        let after_colon = rest.drop_first();
        assert(after_colon =~= Seq::<char>::empty());
        lemma_run_len(after_colon, ws_pred(), 0);
        assert(c.take(k as int) =~= key);
    }
    lemma_indented_line(e, c, 0);
}

/// `- value` lexes to a list item with the value.
pub proof fn lemma_item_value_line(e: nat, v: Seq<char>)
    requires
        e % 2 == 0,
    ensures
        line_lexes_as(
            spaces(e) + ("- "@ + scalar_text(v)),
            LineShape { indent: e, kind: KindShape::Item { value: Some(v) } },
        ),
        clean_line(spaces(e) + ("- "@ + scalar_text(v))),
{
    reveal_strlit("- ");
    let t = scalar_text(v);
    lemma_scalar_text_shape(v);
    let c = "- "@ + t;
    assert(c[0] == '-');
    assert(c.last() == t.last());
    assert forall|j: int| 0 <= j < c.len() implies plain_char(#[trigger] c[j]) by {
        if j >= 2 {
            assert(c[j] == t[j - 2]);
        }
    }
    assert forall|ln: nat| #[trigger] lex_line(spaces(e) + c, ln) matches LineOutcome::Token(tok)
        && token_shape(tok) == (LineShape { indent: e, kind: KindShape::Item { value: Some(v) } }) by {
        lemma_indented_line(e, c, ln);
        let rem = c.drop_first();
        assert(rem =~= seq![' '] + t);
        assert(rem[1] == t[0]);
        lemma_run_len(rem, ws_pred(), 1);
        assert(rem.skip(1) =~= t);
        let sp = crate::diagnostics::span_at(ln as int, (e + 1 + crate::text::byte_len(rem.take(1)) + 1) as int);
        lemma_scalar_text_lexes(v, sp);
    }
    lemma_indented_line(e, c, 0);
}

/// `-` lexes to a list item with no value.
pub proof fn lemma_item_open_line(e: nat)
    requires
        e % 2 == 0,
    ensures
        line_lexes_as(spaces(e) + "-"@, LineShape { indent: e, kind: KindShape::Item { value: None } }),
        clean_line(spaces(e) + "-"@),
{
    reveal_strlit("-");
    let c = "-"@;
    assert forall|ln: nat| #[trigger] lex_line(spaces(e) + c, ln) matches LineOutcome::Token(tok)
        && token_shape(tok) == (LineShape { indent: e, kind: KindShape::Item { value: None } }) by {
        lemma_indented_line(e, c, ln);
        let rem = c.drop_first();
        assert(rem =~= Seq::<char>::empty());
        lemma_run_len(rem, ws_pred(), 0);
    }
    lemma_indented_line(e, c, 0);
}

// ---------------------------------------------------------------------------
// Blocks: the lines of a tree lex to the shapes of the tree.
// ---------------------------------------------------------------------------

/// A tree that the canonical form writes back faithfully: every block has
/// at least one line and every key is an identifier.
pub open spec fn good_node(n: NodeModel) -> bool
    decreases n,
{
    match n {
        NodeModel::Scalar { .. } => true,
        NodeModel::Sequence { values, .. } => values.len() > 0 && forall|i: int|
            0 <= i < values.len() ==> good_node(#[trigger] values[i]),
        NodeModel::Mapping { entries, .. } => entries.len() > 0 && forall|i: int|
            0 <= i < entries.len() ==> key_ok(#[trigger] entries[i].key) && good_node(entries[i].value),
    }
}

/// The shapes of the lines of `key` bound to `n`.
pub open spec fn entry_shapes(indent: nat, key: Seq<char>, n: NodeModel) -> Seq<LineShape>
    decreases n, 0nat,
{
    match n {
        NodeModel::Scalar { value, .. } => seq![LineShape { indent, kind: KindShape::Entry { key, value: Some(value) } }],
        NodeModel::Mapping { entries, .. } => seq![LineShape { indent, kind: KindShape::Entry { key, value: None } }]
            + entries_shapes(indent + 2, entries, entries.len()),
        NodeModel::Sequence { values, .. } => seq![LineShape { indent, kind: KindShape::Entry { key, value: None } }]
            + items_shapes(indent + 2, values, values.len()),
    }
}

/// The shapes of the lines of the list item `n`.
pub open spec fn item_shapes(indent: nat, n: NodeModel) -> Seq<LineShape>
    decreases n, 0nat,
{
    match n {
        NodeModel::Scalar { value, .. } => seq![LineShape { indent, kind: KindShape::Item { value: Some(value) } }],
        NodeModel::Mapping { entries, .. } => seq![LineShape { indent, kind: KindShape::Item { value: None } }]
            + entries_shapes(indent + 2, entries, entries.len()),
        NodeModel::Sequence { values, .. } => seq![LineShape { indent, kind: KindShape::Item { value: None } }]
            + items_shapes(indent + 2, values, values.len()),
    }
}

pub open spec fn entries_shapes(indent: nat, entries: Seq<EntryModel>, k: nat) -> Seq<LineShape>
    decreases entries, k,
{
    if k == 0 || k > entries.len() {
        Seq::empty()
    } else {
        entries_shapes(indent, entries, (k - 1) as nat) + entry_shapes(indent, entries[k - 1].key, entries[k - 1].value)
    }
}

pub open spec fn items_shapes(indent: nat, values: Seq<NodeModel>, k: nat) -> Seq<LineShape>
    decreases values, k,
{
    if k == 0 || k > values.len() {
        Seq::empty()
    } else {
        items_shapes(indent, values, (k - 1) as nat) + item_shapes(indent, values[k - 1])
    }
}

/// Whether each line of `ls` lexes to the shape at its place in `ss`.
pub open spec fn lines_lex_as(ls: Seq<Seq<char>>, ss: Seq<LineShape>) -> bool {
    ls.len() == ss.len() && forall|i: int|
        0 <= i < ls.len() ==> line_lexes_as(#[trigger] ls[i], ss[i]) && clean_line(ls[i])
}

proof fn lemma_lines_concat(l1: Seq<Seq<char>>, s1: Seq<LineShape>, l2: Seq<Seq<char>>, s2: Seq<LineShape>)
    requires
        lines_lex_as(l1, s1),
        lines_lex_as(l2, s2),
    ensures
        lines_lex_as(l1 + l2, s1 + s2),
{
    assert forall|i: int| 0 <= i < (l1 + l2).len() implies line_lexes_as(#[trigger] (l1 + l2)[i], (s1 + s2)[i]) && clean_line((l1 + l2)[i]) by {
        if i < l1.len() {
            assert((l1 + l2)[i] == l1[i] && (s1 + s2)[i] == s1[i]);
        } else {
            assert((l1 + l2)[i] == l2[i - l1.len()] && (s1 + s2)[i] == s2[i - l1.len()]);
        }
    }
}

proof fn lemma_one_line(l: Seq<char>, s: LineShape)
    requires
        line_lexes_as(l, s),
        clean_line(l),
    ensures
        lines_lex_as(seq![l], seq![s]),
{
}

pub proof fn lemma_entry_lines_lex(indent: nat, key: Seq<char>, n: NodeModel)
    requires
        indent % 2 == 0,
        key_ok(key),
        good_node(n),
    ensures
        lines_lex_as(entry_lines(indent, key, n), entry_shapes(indent, key, n)),
    decreases n, 0nat,
{
    match n {
        NodeModel::Scalar { value, .. } => {
            lemma_entry_value_line(indent, key, value);
            assert(spaces(indent) + key + ": "@ + scalar_text(value) =~= spaces(indent) + (key + ": "@ + scalar_text(value)));
            lemma_one_line(spaces(indent) + key + ": "@ + scalar_text(value), LineShape { indent, kind: KindShape::Entry { key, value: Some(value) } });
        },
        NodeModel::Mapping { entries, .. } => {
            lemma_entry_open_line(indent, key);
            assert(spaces(indent) + key + ":"@ =~= spaces(indent) + (key + ":"@));
            lemma_one_line(spaces(indent) + key + ":"@, LineShape { indent, kind: KindShape::Entry { key, value: None } });
            lemma_entries_lines_lex(indent + 2, entries, entries.len());
            lemma_lines_concat(
                seq![spaces(indent) + key + ":"@],
                seq![LineShape { indent, kind: KindShape::Entry { key, value: None } }],
                entries_lines(indent + 2, entries, entries.len()),
                entries_shapes(indent + 2, entries, entries.len()),
            );
        },
        NodeModel::Sequence { values, .. } => {
            lemma_entry_open_line(indent, key);
            assert(spaces(indent) + key + ":"@ =~= spaces(indent) + (key + ":"@));
            lemma_one_line(spaces(indent) + key + ":"@, LineShape { indent, kind: KindShape::Entry { key, value: None } });
            lemma_items_lines_lex(indent + 2, values, values.len());
            lemma_lines_concat(
                seq![spaces(indent) + key + ":"@],
                seq![LineShape { indent, kind: KindShape::Entry { key, value: None } }],
                items_lines(indent + 2, values, values.len()),
                items_shapes(indent + 2, values, values.len()),
            );
        },
    }
}

pub proof fn lemma_item_lines_lex(indent: nat, n: NodeModel)
    requires
        indent % 2 == 0,
        good_node(n),
    ensures
        lines_lex_as(item_lines(indent, n), item_shapes(indent, n)),
    decreases n, 0nat,
{
    match n {
        NodeModel::Scalar { value, .. } => {
            lemma_item_value_line(indent, value);
            assert(spaces(indent) + "- "@ + scalar_text(value) =~= spaces(indent) + ("- "@ + scalar_text(value)));
            lemma_one_line(spaces(indent) + "- "@ + scalar_text(value), LineShape { indent, kind: KindShape::Item { value: Some(value) } });
        },
        NodeModel::Mapping { entries, .. } => {
            lemma_item_open_line(indent);
            lemma_one_line(spaces(indent) + "-"@, LineShape { indent, kind: KindShape::Item { value: None } });
            lemma_entries_lines_lex(indent + 2, entries, entries.len());
            lemma_lines_concat(
                seq![spaces(indent) + "-"@],
                seq![LineShape { indent, kind: KindShape::Item { value: None } }],
                entries_lines(indent + 2, entries, entries.len()),
                entries_shapes(indent + 2, entries, entries.len()),
            );
        },
        NodeModel::Sequence { values, .. } => {
            lemma_item_open_line(indent);
            lemma_one_line(spaces(indent) + "-"@, LineShape { indent, kind: KindShape::Item { value: None } });
            lemma_items_lines_lex(indent + 2, values, values.len());
            lemma_lines_concat(
                seq![spaces(indent) + "-"@],
                seq![LineShape { indent, kind: KindShape::Item { value: None } }],
                items_lines(indent + 2, values, values.len()),
                items_shapes(indent + 2, values, values.len()),
            );
        },
    }
}

pub proof fn lemma_entries_lines_lex(indent: nat, entries: Seq<EntryModel>, k: nat)
    requires
        indent % 2 == 0,
        k <= entries.len(),
        forall|i: int| 0 <= i < entries.len() ==> key_ok(#[trigger] entries[i].key) && good_node(entries[i].value),
    ensures
        lines_lex_as(entries_lines(indent, entries, k), entries_shapes(indent, entries, k)),
    decreases entries, k,
{
    if k > 0 {
        lemma_entries_lines_lex(indent, entries, (k - 1) as nat);
        lemma_entry_lines_lex(indent, entries[k - 1].key, entries[k - 1].value);
        lemma_lines_concat(
            entries_lines(indent, entries, (k - 1) as nat),
            entries_shapes(indent, entries, (k - 1) as nat),
            entry_lines(indent, entries[k - 1].key, entries[k - 1].value),
            entry_shapes(indent, entries[k - 1].key, entries[k - 1].value),
        );
    }
}

pub proof fn lemma_items_lines_lex(indent: nat, values: Seq<NodeModel>, k: nat)
    requires
        indent % 2 == 0,
        k <= values.len(),
        forall|i: int| 0 <= i < values.len() ==> good_node(#[trigger] values[i]),
    ensures
        lines_lex_as(items_lines(indent, values, k), items_shapes(indent, values, k)),
    decreases values, k,
{
    if k > 0 {
        lemma_items_lines_lex(indent, values, (k - 1) as nat);
        lemma_item_lines_lex(indent, values[k - 1]);
        lemma_lines_concat(
            items_lines(indent, values, (k - 1) as nat),
            items_shapes(indent, values, (k - 1) as nat),
            item_lines(indent, values[k - 1]),
            item_shapes(indent, values[k - 1]),
        );
    }
}

// ---------------------------------------------------------------------------
// Documents: the canonical text lexes to the shapes of its entries.
// ---------------------------------------------------------------------------

/// The shapes of the lines of the first `k` top-level entries.
pub open spec fn doc_shapes_upto(pairs: Seq<(TopLevelKey, NodeModel)>, k: nat) -> Seq<LineShape>
    decreases k,
{
    if k == 0 || k > pairs.len() {
        Seq::empty()
    } else {
        doc_shapes_upto(pairs, (k - 1) as nat) + entry_shapes(0, key_name(pairs[k - 1].0), pairs[k - 1].1)
    }
}

/// The shapes of the lines of the canonical text of `d`.
pub open spec fn doc_shapes(d: DocumentModel) -> Seq<LineShape> {
    doc_shapes_upto(ordered_entries_of(d), ordered_entries_of(d).len())
}

/// A document whose written entries are all written back faithfully.
pub open spec fn good_document(d: DocumentModel) -> bool {
    forall|i: int| 0 <= i < ordered_entries_of(d).len() ==> good_node(#[trigger] ordered_entries_of(d)[i].1)
}

/// Every reserved key is an identifier.
pub proof fn lemma_key_names_ok(k: TopLevelKey)
    ensures
        key_ok(key_name(k)),
{
    reveal_strlit("agent");
    reveal_strlit("system");
    reveal_strlit("user");
    reveal_strlit("memory");
    reveal_strlit("tools");
    reveal_strlit("output");
    reveal_strlit("constraints");
    reveal_strlit("vars");
}

proof fn lemma_document_lines_lex(pairs: Seq<(TopLevelKey, NodeModel)>, k: nat)
    requires
        k <= pairs.len(),
        forall|i: int| 0 <= i < pairs.len() ==> good_node(#[trigger] pairs[i].1),
    ensures
        lines_lex_as(document_lines_upto(pairs, k), doc_shapes_upto(pairs, k)),
    decreases k,
{
    if k > 0 {
        lemma_document_lines_lex(pairs, (k - 1) as nat);
        lemma_key_names_ok(pairs[k - 1].0);
        lemma_entry_lines_lex(0, key_name(pairs[k - 1].0), pairs[k - 1].1);
        lemma_lines_concat(
            document_lines_upto(pairs, (k - 1) as nat),
            doc_shapes_upto(pairs, (k - 1) as nat),
            entry_lines(0, key_name(pairs[k - 1].0), pairs[k - 1].1),
            entry_shapes(0, key_name(pairs[k - 1].0), pairs[k - 1].1),
        );
    }
}

proof fn lemma_newline_index(a: Seq<char>, rest: Seq<char>)
    requires
        forall|j: int| 0 <= j < a.len() ==> a[j] != '\n',
    ensures
        newline_index(a + seq!['\n'] + rest) == Some(a.len()),
        newline_index(a) is None,
    decreases a.len(),
{
    let s = a + seq!['\n'] + rest;
    if a.len() > 0 {
        assert(s[0] == a[0]);
        assert(s.drop_first() =~= a.drop_first() + seq!['\n'] + rest);
        lemma_newline_index(a.drop_first(), rest);
    } else {
        assert(s[0] == '\n');
    }
}

proof fn lemma_join_front(ls: Seq<Seq<char>>, sep: Seq<char>)
    requires
        ls.len() >= 2,
    ensures
        join(ls, sep) == ls[0] + sep + join(ls.drop_first(), sep),
    decreases ls.len(),
{
    if ls.len() == 2 {
        assert(ls.drop_last().len() == 1);
        assert(ls.drop_first().len() == 1);
        assert(join(ls.drop_last(), sep) == ls.drop_last()[0]);
        assert(ls.drop_last()[0] == ls[0]);
        assert(join(ls.drop_first(), sep) == ls.drop_first()[0]);
        assert(ls.drop_first()[0] == ls.last());
    } else {
        lemma_join_front(ls.drop_last(), sep);
        assert(ls.drop_last().drop_first() =~= ls.drop_first().drop_last());
        assert(ls.drop_first().last() == ls.last());
        assert(ls.drop_last()[0] == ls[0]);
        let m = join(ls.drop_first().drop_last(), sep);
        assert(join(ls.drop_first(), sep) == m + sep + ls.last());
        assert(join(ls, sep) == ls[0] + sep + m + sep + ls.last());
        assert(ls[0] + sep + m + sep + ls.last() =~= ls[0] + sep + (m + sep + ls.last()));
    }
}

/// Splitting the join of clean lines gives the lines back.
proof fn lemma_lines_of_join(ls: Seq<Seq<char>>)
    requires
        forall|i: int| 0 <= i < ls.len() ==> clean_line(#[trigger] ls[i]),
    ensures
        lines(join(ls, "\n"@)) == ls,
    decreases ls.len(),
{
    reveal_strlit("\n");
    if ls.len() == 0 {
        assert(lines(Seq::<char>::empty()) =~= ls);
    } else if ls.len() == 1 {
        assert(clean_line(ls[0]));
        lemma_newline_index(ls[0], Seq::empty());
        assert(lines(ls[0]) =~= seq![ls[0]]);
        assert(ls =~= seq![ls[0]]);
    } else {
        lemma_join_front(ls, "\n"@);
        let a = ls[0];
        assert(clean_line(a));
        let rest = join(ls.drop_first(), "\n"@);
        let s = a + seq!['\n'] + rest;
        assert(a + "\n"@ + rest =~= s);
        lemma_newline_index(a, rest);
        assert(s.take(a.len() as int) =~= a);
        assert(s.skip(a.len() as int + 1) =~= rest);
        assert(strip_cr(a) == a);
        assert forall|i: int| 0 <= i < ls.drop_first().len() implies clean_line(#[trigger] ls.drop_first()[i]) by {
            assert(ls.drop_first()[i] == ls[i + 1]);
        }
        lemma_lines_of_join(ls.drop_first());
        assert(ls =~= seq![a] + ls.drop_first());
    }
}

proof fn lemma_lex_clean_lines(ls: Seq<Seq<char>>, ss: Seq<LineShape>, n: nat)
    requires
        lines_lex_as(ls, ss),
        n <= ls.len(),
    ensures
        lex_errors(ls, n).len() == 0,
        lex_tokens(ls, n).len() == n,
        forall|i: int| 0 <= i < n ==> token_shape(#[trigger] lex_tokens(ls, n)[i]) == ss[i],
    decreases n,
{
    if n > 0 {
        lemma_lex_clean_lines(ls, ss, (n - 1) as nat);
        assert(line_lexes_as(ls[n - 1], ss[n - 1]));
        assert(lex_line(ls[n - 1], n) matches LineOutcome::Token(t) && token_shape(t) == ss[n - 1]);
        let before = lex_tokens(ls, (n - 1) as nat);
        assert forall|i: int| 0 <= i < n implies token_shape(#[trigger] lex_tokens(ls, n)[i]) == ss[i] by {
            if i < n - 1 {
                assert(lex_tokens(ls, n)[i] == before[i]);
            }
        }
    }
}

/// The canonical text of a good document lexes to its shapes.
pub proof fn lemma_lex_format(d: DocumentModel)
    requires
        good_document(d),
    ensures
        lex(format_model(d)) matches Ok(t) && t.len() == doc_shapes(d).len() && forall|i: int|
            0 <= i < t.len() ==> token_shape(#[trigger] t[i]) == doc_shapes(d)[i],
{
    let pairs = ordered_entries_of(d);
    lemma_document_lines_lex(pairs, pairs.len());
    let ls = document_lines(d);
    lemma_lines_of_join(ls);
    lemma_lex_clean_lines(ls, doc_shapes(d), ls.len());
}

// ---------------------------------------------------------------------------
// Parsing: the tokens of a block rebuild the block, spans aside.
// ---------------------------------------------------------------------------

/// The shapes of the lines under a block-valued node.
pub open spec fn block_shapes(e: nat, n: NodeModel) -> Seq<LineShape> {
    match n {
        NodeModel::Sequence { values, .. } => items_shapes(e, values, values.len()),
        NodeModel::Mapping { entries, .. } => entries_shapes(e, entries, entries.len()),
        NodeModel::Scalar { .. } => Seq::empty(),
    }
}

/// Whether the tokens from `pos` on begin with the shapes `ss`.
pub open spec fn shapes_at(t: Seq<LineTokenModel>, pos: nat, ss: Seq<LineShape>) -> bool {
    pos + ss.len() <= t.len() && forall|i: int| 0 <= i < ss.len() ==> token_shape(#[trigger] t[pos + i]) == ss[i]
}

/// Whether the input ends at `pos` or the token there is indented less than `e`.
pub open spec fn ends_before(t: Seq<LineTokenModel>, pos: nat, e: nat) -> bool {
    pos >= t.len() || t[pos as int].indent < e
}

proof fn lemma_shapes_take(t: Seq<LineTokenModel>, pos: nat, ss: Seq<LineShape>, n: nat)
    requires
        shapes_at(t, pos, ss),
        n <= ss.len(),
    ensures
        shapes_at(t, pos, ss.take(n as int)),
{
    assert forall|i: int| 0 <= i < ss.take(n as int).len() implies token_shape(#[trigger] t[pos + i]) == ss.take(n as int)[i] by {
        assert(token_shape(t[pos + i]) == ss[i]);
    }
}

proof fn lemma_shapes_skip(t: Seq<LineTokenModel>, pos: nat, ss: Seq<LineShape>, n: nat)
    requires
        shapes_at(t, pos, ss),
        n <= ss.len(),
    ensures
        shapes_at(t, pos + n, ss.skip(n as int)),
{
    assert forall|i: int| 0 <= i < ss.skip(n as int).len() implies token_shape(#[trigger] t[(pos + n) + i]) == ss.skip(n as int)[i] by {
        assert(token_shape(t[pos + (n + i)]) == ss[n + i]);
        assert((pos + n) + i == pos + (n + i));
    }
}

proof fn lemma_items_shapes_prefix(e: nat, values: Seq<NodeModel>, k: nat, m: nat)
    requires
        k <= m <= values.len(),
    ensures
        items_shapes(e, values, k).len() <= items_shapes(e, values, m).len(),
        items_shapes(e, values, m).take(items_shapes(e, values, k).len() as int) == items_shapes(e, values, k),
    decreases m - k,
{
    if k == m {
        assert(items_shapes(e, values, m).take(items_shapes(e, values, m).len() as int) =~= items_shapes(e, values, m));
    } else {
        lemma_items_shapes_prefix(e, values, k, (m - 1) as nat);
        let a = items_shapes(e, values, (m - 1) as nat);
        let b = items_shapes(e, values, m);
        assert(b == a + item_shapes(e, values[m - 1]));
        assert(b.take(items_shapes(e, values, k).len() as int) =~= a.take(items_shapes(e, values, k).len() as int));
    }
}

proof fn lemma_entries_shapes_prefix(e: nat, entries: Seq<EntryModel>, k: nat, m: nat)
    requires
        k <= m <= entries.len(),
    ensures
        entries_shapes(e, entries, k).len() <= entries_shapes(e, entries, m).len(),
        entries_shapes(e, entries, m).take(entries_shapes(e, entries, k).len() as int) == entries_shapes(e, entries, k),
    decreases m - k,
{
    if k == m {
        assert(entries_shapes(e, entries, m).take(entries_shapes(e, entries, m).len() as int) =~= entries_shapes(e, entries, m));
    } else {
        lemma_entries_shapes_prefix(e, entries, k, (m - 1) as nat);
        let a = entries_shapes(e, entries, (m - 1) as nat);
        let b = entries_shapes(e, entries, m);
        assert(b == a + entry_shapes(e, entries[m - 1].key, entries[m - 1].value));
        assert(b.take(entries_shapes(e, entries, k).len() as int) =~= a.take(entries_shapes(e, entries, k).len() as int));
    }
}

/// The tokens of item `k` of a sequence, at its place.
proof fn lemma_item_at(t: Seq<LineTokenModel>, base: nat, e: nat, values: Seq<NodeModel>, k: nat)
    requires
        k < values.len(),
        shapes_at(t, base, items_shapes(e, values, values.len())),
    ensures
        shapes_at(t, base + items_shapes(e, values, k).len(), item_shapes(e, values[k as int])),
        items_shapes(e, values, (k + 1) as nat).len() == items_shapes(e, values, k).len() + item_shapes(e, values[k as int]).len(),
{
    lemma_items_shapes_prefix(e, values, (k + 1) as nat, values.len());
    let full = items_shapes(e, values, values.len());
    let a = items_shapes(e, values, k);
    let b = items_shapes(e, values, (k + 1) as nat);
    assert(b == a + item_shapes(e, values[k as int]));
    lemma_shapes_take(t, base, full, b.len());
    lemma_shapes_skip(t, base, b, a.len());
    assert(b.skip(a.len() as int) =~= item_shapes(e, values[k as int]));
}

/// The tokens of entry `k` of a mapping, at its place.
proof fn lemma_entry_at(t: Seq<LineTokenModel>, base: nat, e: nat, entries: Seq<EntryModel>, k: nat)
    requires
        k < entries.len(),
        shapes_at(t, base, entries_shapes(e, entries, entries.len())),
    ensures
        shapes_at(t, base + entries_shapes(e, entries, k).len(), entry_shapes(e, entries[k as int].key, entries[k as int].value)),
        entries_shapes(e, entries, (k + 1) as nat).len() == entries_shapes(e, entries, k).len() + entry_shapes(e, entries[k as int].key, entries[k as int].value).len(),
{
    lemma_entries_shapes_prefix(e, entries, (k + 1) as nat, entries.len());
    let full = entries_shapes(e, entries, entries.len());
    let a = entries_shapes(e, entries, k);
    let b = entries_shapes(e, entries, (k + 1) as nat);
    assert(b == a + entry_shapes(e, entries[k as int].key, entries[k as int].value));
    lemma_shapes_take(t, base, full, b.len());
    lemma_shapes_skip(t, base, b, a.len());
    assert(b.skip(a.len() as int) =~= entry_shapes(e, entries[k as int].key, entries[k as int].value));
}

/// The block under an entry or item begins at two more columns.
proof fn lemma_block_first(e: nat, n: NodeModel)
    requires
        good_node(n),
        !(n is Scalar),
    ensures
        block_shapes(e, n).len() > 0,
        block_shapes(e, n)[0].indent == e,
        n is Sequence ==> block_shapes(e, n)[0].kind is Item,
        n is Mapping ==> block_shapes(e, n)[0].kind is Entry,
{
    match n {
        NodeModel::Sequence { values, .. } => {
            lemma_items_shapes_prefix(e, values, 1, values.len());
            assert(items_shapes(e, values, 1) == items_shapes(e, values, 0) + item_shapes(e, values[0]));
            assert(items_shapes(e, values, 1)[0] == item_shapes(e, values[0])[0]);
            assert(block_shapes(e, n)[0] == items_shapes(e, values, values.len()).take(items_shapes(e, values, 1).len() as int)[0]);
        },
        NodeModel::Mapping { entries, .. } => {
            lemma_entries_shapes_prefix(e, entries, 1, entries.len());
            assert(entries_shapes(e, entries, 1) == entries_shapes(e, entries, 0) + entry_shapes(e, entries[0].key, entries[0].value));
            assert(entries_shapes(e, entries, 1)[0] == entry_shapes(e, entries[0].key, entries[0].value)[0]);
            assert(block_shapes(e, n)[0] == entries_shapes(e, entries, entries.len()).take(entries_shapes(e, entries, 1).len() as int)[0]);
        },
        _ => {},
    }
}

/// After the shapes of item `k`, the input ends or the next item starts
/// at column `e`, so a block nested two columns deeper is over.
proof fn lemma_after_item(t: Seq<LineTokenModel>, base: nat, e: nat, values: Seq<NodeModel>, k: nat)
    requires
        k < values.len(),
        shapes_at(t, base, items_shapes(e, values, values.len())),
        ends_before(t, base + items_shapes(e, values, values.len()).len(), e),
    ensures
        ends_before(t, base + items_shapes(e, values, (k + 1) as nat).len(), e + 2),
{
    if k + 1 < values.len() {
        lemma_item_at(t, base, e, values, (k + 1) as nat);
        let p = base + items_shapes(e, values, (k + 1) as nat).len();
        assert(token_shape(t[p as int + 0int]) == item_shapes(e, values[k as int + 1])[0]);
    }
}

proof fn lemma_after_entry(t: Seq<LineTokenModel>, base: nat, e: nat, entries: Seq<EntryModel>, k: nat)
    requires
        k < entries.len(),
        shapes_at(t, base, entries_shapes(e, entries, entries.len())),
        ends_before(t, base + entries_shapes(e, entries, entries.len()).len(), e),
    ensures
        ends_before(t, base + entries_shapes(e, entries, (k + 1) as nat).len(), e + 2),
{
    if k + 1 < entries.len() {
        lemma_entry_at(t, base, e, entries, (k + 1) as nat);
        let p = base + entries_shapes(e, entries, (k + 1) as nat).len();
        assert(token_shape(t[p as int + 0int]) == entry_shapes(e, entries[k as int + 1].key, entries[k as int + 1].value)[0]);
    }
}

/// Whether `r` is a sequence at `span` whose items are `values`, spans aside.
pub open spec fn seq_rebuilds(r: NodeModel, span: Span, values: Seq<NodeModel>) -> bool {
    match r {
        NodeModel::Sequence { values: rv, span: rs } => rs == span && rv.len() == values.len() && forall|j: int|
            0 <= j < rv.len() ==> strip_spans(#[trigger] rv[j]) == strip_spans(values[j]),
        _ => false,
    }
}

/// Whether `r` is a mapping at `span` whose entries are `entries`, spans aside.
pub open spec fn map_rebuilds(r: NodeModel, span: Span, entries: Seq<EntryModel>) -> bool {
    match r {
        NodeModel::Mapping { entries: rv, span: rs } => rs == span && rv.len() == entries.len() && forall|j: int|
            0 <= j < rv.len() ==> (#[trigger] rv[j]).key == entries[j].key && strip_spans(rv[j].value)
                == strip_spans(entries[j].value),
        _ => false,
    }
}

/// The tokens of a block rebuild it.
pub proof fn lemma_parse_block(t: Seq<LineTokenModel>, pos: nat, e: nat, span: Span, n: NodeModel)
    requires
        good_node(n),
        !(n is Scalar),
        shapes_at(t, pos, block_shapes(e, n)),
        ends_before(t, pos + block_shapes(e, n).len(), e),
    ensures
        p_block(t, pos, e, span) matches Ok((n2, next)) && next == pos + block_shapes(e, n).len()
            && strip_spans(n2) == strip_spans(n),
    decreases n, 0nat,
{
    lemma_block_first(e, n);
    assert(token_shape(t[pos as int + 0int]) == block_shapes(e, n)[0]);
    match n {
        NodeModel::Sequence { values, .. } => {
            lemma_parse_items(t, pos, e, span, values, 0, Seq::empty());
            assert(items_shapes(e, values, 0).len() == 0);
            match p_seq(t, pos, e, span, Seq::empty()) {
                Ok((r, next)) => {
                    match r {
                        NodeModel::Sequence { values: rv, .. } => {
                            assert(strip_spans(r)->values =~= strip_spans(n)->values);
                        },
                        _ => {},
                    }
                },
                _ => {},
            }
        },
        NodeModel::Mapping { entries, .. } => {
            lemma_parse_entries(t, pos, e, span, entries, 0, Seq::empty());
            assert(entries_shapes(e, entries, 0).len() == 0);
            match p_map(t, pos, e, span, Seq::empty()) {
                Ok((r, next)) => {
                    match r {
                        NodeModel::Mapping { entries: rv, .. } => {
                            assert(strip_spans(r)->entries =~= strip_spans(n)->entries);
                        },
                        _ => {},
                    }
                },
                _ => {},
            }
        },
        _ => {},
    }
}

pub proof fn lemma_parse_items(
    t: Seq<LineTokenModel>,
    base: nat,
    e: nat,
    span: Span,
    values: Seq<NodeModel>,
    k: nat,
    acc: Seq<NodeModel>,
)
    requires
        values.len() > 0,
        forall|i: int| 0 <= i < values.len() ==> good_node(#[trigger] values[i]),
        k <= values.len(),
        shapes_at(t, base, items_shapes(e, values, values.len())),
        ends_before(t, base + items_shapes(e, values, values.len()).len(), e),
        acc.len() == k,
        forall|j: int| 0 <= j < k ==> strip_spans(#[trigger] acc[j]) == strip_spans(values[j]),
    ensures
        p_seq(t, base + items_shapes(e, values, k).len(), e, span, acc) matches Ok((r, next))
            && next == base + items_shapes(e, values, values.len()).len() && seq_rebuilds(r, span, values),
    decreases values, values.len() - k,
{
    let p = base + items_shapes(e, values, k).len();
    if k == values.len() {
        assert(p >= t.len() || t[p as int].indent < e);
    } else {
        lemma_item_at(t, base, e, values, k);
        lemma_items_shapes_prefix(e, values, (k + 1) as nat, values.len());
        let x = values[k as int];
        let tok = t[p as int];
        assert(token_shape(t[p as int + 0int]) == item_shapes(e, x)[0]);
        match x {
            NodeModel::Scalar { value, .. } => {
                match tok.kind {
                    LineKindModel::ListItem { dash, value: tv } => {
                        let y = NodeModel::Scalar { value: tv->0.value, span: dash };
                        let acc2 = acc.push(y);
                        assert forall|j: int| 0 <= j < k + 1 implies strip_spans(#[trigger] acc2[j]) == strip_spans(values[j]) by {
                            if j < k {
                                assert(acc2[j] == acc[j]);
                            }
                        }
                        lemma_parse_items(t, base, e, span, values, (k + 1) as nat, acc2);
                        assert(p_seq(t, p, e, span, acc) == p_seq(t, p + 1, e, span, acc2));
                    },
                    _ => {},
                }
            },
            _ => {
                match tok.kind {
                    LineKindModel::ListItem { dash, value: tv } => {
                        assert(item_shapes(e, x) == seq![LineShape { indent: e, kind: KindShape::Item { value: None } }] + block_shapes(e + 2, x));
                        lemma_shapes_skip(t, p, item_shapes(e, x), 1);
                        assert(item_shapes(e, x).skip(1) =~= block_shapes(e + 2, x));
                        lemma_after_item(t, base, e, values, k);
                        lemma_block_first(e + 2, x);
                        assert(token_shape(t[(p + 1) as int + 0int]) == block_shapes(e + 2, x)[0]);
                        lemma_parse_block(t, p + 1, e + 2, dash, x);
                        assert(p_nested(t, p + 1, e, dash) == p_block(t, p + 1, e + 2, dash));
                        match p_block(t, p + 1, e + 2, dash) {
                            Ok((n2, next)) => {
                                let acc2 = acc.push(n2);
                                assert forall|j: int| 0 <= j < k + 1 implies strip_spans(#[trigger] acc2[j]) == strip_spans(values[j]) by {
                                    if j < k {
                                        assert(acc2[j] == acc[j]);
                                    }
                                }
                                lemma_parse_items(t, base, e, span, values, (k + 1) as nat, acc2);
                                assert(p_seq(t, p, e, span, acc) == p_seq(t, next, e, span, acc2));
                            },
                            _ => {},
                        }
                    },
                    _ => {},
                }
            },
        }
    }
}

pub proof fn lemma_parse_entries(
    t: Seq<LineTokenModel>,
    base: nat,
    e: nat,
    span: Span,
    entries: Seq<EntryModel>,
    k: nat,
    acc: Seq<EntryModel>,
)
    requires
        entries.len() > 0,
        forall|i: int| 0 <= i < entries.len() ==> key_ok(#[trigger] entries[i].key) && good_node(entries[i].value),
        k <= entries.len(),
        shapes_at(t, base, entries_shapes(e, entries, entries.len())),
        ends_before(t, base + entries_shapes(e, entries, entries.len()).len(), e),
        acc.len() == k,
        forall|j: int| 0 <= j < k ==> (#[trigger] acc[j]).key == entries[j].key && strip_spans(acc[j].value) == strip_spans(entries[j].value),
    ensures
        p_map(t, base + entries_shapes(e, entries, k).len(), e, span, acc) matches Ok((r, next))
            && next == base + entries_shapes(e, entries, entries.len()).len() && map_rebuilds(r, span, entries),
    decreases entries, entries.len() - k,
{
    let p = base + entries_shapes(e, entries, k).len();
    if k == entries.len() {
        assert(p >= t.len() || t[p as int].indent < e);
    } else {
        lemma_entry_at(t, base, e, entries, k);
        lemma_entries_shapes_prefix(e, entries, (k + 1) as nat, entries.len());
        let x = entries[k as int];
        let tok = t[p as int];
        assert(token_shape(t[p as int + 0int]) == entry_shapes(e, x.key, x.value)[0]);
        assert(decreases_to!(entries => entries[k as int]));
        match x.value {
            NodeModel::Scalar { value, .. } => {
                match tok.kind {
                    LineKindModel::Mapping { key, value: tv, .. } => {
                        let y = EntryModel { key: key.value, value: NodeModel::Scalar { value: tv->0.value, span: key.span }, span: key.span };
                        let acc2 = acc.push(y);
                        assert forall|j: int| 0 <= j < k + 1 implies (#[trigger] acc2[j]).key == entries[j].key && strip_spans(acc2[j].value) == strip_spans(entries[j].value) by {
                            if j < k {
                                assert(acc2[j] == acc[j]);
                            }
                        }
                        lemma_parse_entries(t, base, e, span, entries, (k + 1) as nat, acc2);
                        assert(p_map(t, p, e, span, acc) == p_map(t, p + 1, e, span, acc2));
                    },
                    _ => {},
                }
            },
            _ => {
                match tok.kind {
                    LineKindModel::Mapping { key, value: tv, .. } => {
                        let xv = x.value;
                        assert(entry_shapes(e, x.key, xv) == seq![LineShape { indent: e, kind: KindShape::Entry { key: x.key, value: None } }] + block_shapes(e + 2, xv));
                        lemma_shapes_skip(t, p, entry_shapes(e, x.key, xv), 1);
                        assert(entry_shapes(e, x.key, xv).skip(1) =~= block_shapes(e + 2, xv));
                        lemma_after_entry(t, base, e, entries, k);
                        lemma_block_first(e + 2, xv);
                        assert(token_shape(t[(p + 1) as int + 0int]) == block_shapes(e + 2, xv)[0]);
                        assert(decreases_to!(x => xv));
                        lemma_parse_block(t, p + 1, e + 2, key.span, xv);
                        assert(p_nested(t, p + 1, e, key.span) == p_block(t, p + 1, e + 2, key.span));
                        match p_block(t, p + 1, e + 2, key.span) {
                            Ok((n2, next)) => {
                                let y = EntryModel { key: key.value, value: n2, span: key.span };
                                let acc2 = acc.push(y);
                                assert forall|j: int| 0 <= j < k + 1 implies (#[trigger] acc2[j]).key == entries[j].key && strip_spans(acc2[j].value) == strip_spans(entries[j].value) by {
                                    if j < k {
                                        assert(acc2[j] == acc[j]);
                                    }
                                }
                                lemma_parse_entries(t, base, e, span, entries, (k + 1) as nat, acc2);
                                assert(p_map(t, p, e, span, acc) == p_map(t, next, e, span, acc2));
                            },
                            _ => {},
                        }
                    },
                    _ => {},
                }
            },
        }
    }
}

// ---------------------------------------------------------------------------
// The top level: present keys in order, each once.
// ---------------------------------------------------------------------------

/// The place of a reserved key in document order.
pub open spec fn rank(k: TopLevelKey) -> nat {
    match k {
        TopLevelKey::Agent => 0,
        TopLevelKey::System => 1,
        TopLevelKey::User => 2,
        TopLevelKey::Memory => 3,
        TopLevelKey::Tools => 4,
        TopLevelKey::Output => 5,
        TopLevelKey::Constraints => 6,
        TopLevelKey::Vars => 7,
    }
}

proof fn lemma_ordered_keys_rank(i: int)
    requires
        0 <= i < 8,
    ensures
        rank(ordered_keys()[i]) == i,
{
}

/// The present keys of the first `m` in document order: each with its
/// value, in strictly increasing order, and every present one of them.
proof fn lemma_entries_among(d: DocumentModel, m: nat)
    requires
        m <= 8,
    ensures
        forall|i: int| 0 <= i < entries_among(d, ordered_keys().take(m as int)).len() ==> rank(
            (#[trigger] entries_among(d, ordered_keys().take(m as int))[i]).0,
        ) < m && field(d, entries_among(d, ordered_keys().take(m as int))[i].0) == Some(
            entries_among(d, ordered_keys().take(m as int))[i].1,
        ),
        forall|i: int, j: int|
            0 <= i < j < entries_among(d, ordered_keys().take(m as int)).len() ==> rank(
                (#[trigger] entries_among(d, ordered_keys().take(m as int))[i]).0,
            ) < rank((#[trigger] entries_among(d, ordered_keys().take(m as int))[j]).0),
        forall|k: TopLevelKey|
            rank(k) < m && (#[trigger] field(d, k)) is Some ==> exists|i: int|
                0 <= i < entries_among(d, ordered_keys().take(m as int)).len()
                    && entries_among(d, ordered_keys().take(m as int))[i].0 == k,
    decreases m,
{
    let keys = ordered_keys().take(m as int);
    let r = entries_among(d, keys);
    if m > 0 {
        lemma_entries_among(d, (m - 1) as nat);
        let prev = ordered_keys().take(m - 1);
        assert(keys.drop_last() =~= prev);
        let km = keys.last();
        assert(km == ordered_keys()[m - 1]);
        lemma_ordered_keys_rank(m - 1);
        let front = entries_among(d, prev);
        match field(d, km) {
            Some(n) => {
                assert(r == front.push((km, n)));
                assert forall|k: TopLevelKey| rank(k) < m && (#[trigger] field(d, k)) is Some implies exists|i: int|
                    0 <= i < r.len() && r[i].0 == k by {
                    if rank(k) == m - 1 {
                        assert(k == km);
                        assert(r[front.len() as int].0 == k);
                    } else {
                        let i = choose|i: int| 0 <= i < front.len() && front[i].0 == k;
                        assert(r[i] == front[i]);
                    }
                }
                assert forall|i: int, j: int| 0 <= i < j < r.len() implies rank((#[trigger] r[i]).0) < rank((#[trigger] r[j]).0) by {
                    assert(r[i] == front[i]);
                    if j < front.len() {
                        assert(r[j] == front[j]);
                    }
                }
                assert forall|i: int| 0 <= i < r.len() implies rank((#[trigger] r[i]).0) < m && field(d, r[i].0) == Some(r[i].1) by {
                    if i < front.len() {
                        assert(r[i] == front[i]);
                    }
                }
            },
            None => {
                assert(r == front);
                assert forall|k: TopLevelKey| rank(k) < m && (#[trigger] field(d, k)) is Some implies exists|i: int|
                    0 <= i < r.len() && r[i].0 == k by {
                    if rank(k) == m - 1 {
                        assert(k == km);
                    }
                }
            },
        }
    }
}

proof fn lemma_pairs_facts(d: DocumentModel)
    ensures
        ordered_entries_of(d) == entries_among(d, ordered_keys().take(8)),
{
    assert(ordered_keys().take(8) =~= ordered_keys());
}

proof fn lemma_doc_shapes_prefix(pairs: Seq<(TopLevelKey, NodeModel)>, k: nat, m: nat)
    requires
        k <= m <= pairs.len(),
    ensures
        doc_shapes_upto(pairs, k).len() <= doc_shapes_upto(pairs, m).len(),
        doc_shapes_upto(pairs, m).take(doc_shapes_upto(pairs, k).len() as int) == doc_shapes_upto(pairs, k),
    decreases m - k,
{
    if k == m {
        assert(doc_shapes_upto(pairs, m).take(doc_shapes_upto(pairs, m).len() as int) =~= doc_shapes_upto(pairs, m));
    } else {
        lemma_doc_shapes_prefix(pairs, k, (m - 1) as nat);
        let a = doc_shapes_upto(pairs, (m - 1) as nat);
        let b = doc_shapes_upto(pairs, m);
        assert(b.take(doc_shapes_upto(pairs, k).len() as int) =~= a.take(doc_shapes_upto(pairs, k).len() as int));
    }
}

proof fn lemma_key_not_directive(k: TopLevelKey)
    ensures
        key_name(k) != directive_keyword(),
{
    reveal_strlit("agent");
    reveal_strlit("system");
    reveal_strlit("user");
    reveal_strlit("memory");
    reveal_strlit("tools");
    reveal_strlit("output");
    reveal_strlit("constraints");
    reveal_strlit("vars");
    assert(key_name(k).len() != directive_keyword().len());
}

/// Whether a slot holds `n`, spans aside.
pub open spec fn slot_is(o: Option<NodeModel>, n: NodeModel) -> bool {
    match o {
        Some(x) => strip_spans(x) == strip_spans(n),
        None => false,
    }
}

/// Whether `doc` holds, for the first `k` entries of `pairs`, their values
/// up to spans, and nothing else.
pub open spec fn doc_tracks(doc: DocumentModel, pairs: Seq<(TopLevelKey, NodeModel)>, k: nat) -> bool {
    &&& doc.includes is None
    &&& forall|kk: TopLevelKey| (#[trigger] field(doc, kk)) is Some ==> exists|i: int| 0 <= i < k && pairs[i].0 == kk
    &&& forall|i: int| 0 <= i < k ==> slot_is(#[trigger] field(doc, pairs[i].0), pairs[i].1)
}

/// The present keys of a document, in strictly increasing order, each with
/// its value, and every present key among them.
proof fn lemma_pairs_ordered(d: DocumentModel)
    ensures
        forall|i: int, j: int|
            0 <= i < j < ordered_entries_of(d).len() ==> rank((#[trigger] ordered_entries_of(d)[i]).0)
                < rank((#[trigger] ordered_entries_of(d)[j]).0),
        forall|i: int|
            0 <= i < ordered_entries_of(d).len() ==> field(d, (#[trigger] ordered_entries_of(d)[i]).0)
                == Some(ordered_entries_of(d)[i].1),
        forall|kk: TopLevelKey|
            (#[trigger] field(d, kk)) is Some ==> exists|i: int|
                0 <= i < ordered_entries_of(d).len() && ordered_entries_of(d)[i].0 == kk,
{
    lemma_pairs_facts(d);
    lemma_entries_among(d, 8);
    assert forall|kk: TopLevelKey| (#[trigger] field(d, kk)) is Some implies exists|i: int|
        0 <= i < ordered_entries_of(d).len() && ordered_entries_of(d)[i].0 == kk by {
        assert(rank(kk) < 8);
    }
}

/// Once every entry is read, the document holds exactly the entries of `d`.
proof fn lemma_parse_top_end(doc: DocumentModel, d: DocumentModel)
    requires
        doc_tracks(doc, ordered_entries_of(d), ordered_entries_of(d).len()),
    ensures
        forall|kk: TopLevelKey| opt_stripped(#[trigger] field(doc, kk)) == opt_stripped(field(d, kk)),
{
    let pairs = ordered_entries_of(d);
    lemma_pairs_ordered(d);
    assert forall|kk: TopLevelKey| opt_stripped(#[trigger] field(doc, kk)) == opt_stripped(field(d, kk)) by {
        if field(d, kk) is Some {
            let i = choose|i: int| 0 <= i < pairs.len() && pairs[i].0 == kk;
            assert(slot_is(field(doc, pairs[i].0), pairs[i].1));
        } else if field(doc, kk) is Some {
            let i = choose|i: int| 0 <= i < pairs.len() && pairs[i].0 == kk;
            assert(field(d, pairs[i].0) == Some(pairs[i].1));
        }
    }
}

/// Placing entry `k` keeps the document in step with the entries read.
proof fn lemma_track_step(doc: DocumentModel, d: DocumentModel, k: nat, n2: NodeModel)
    requires
        k < ordered_entries_of(d).len(),
        doc_tracks(doc, ordered_entries_of(d), k),
        strip_spans(n2) == strip_spans(ordered_entries_of(d)[k as int].1),
    ensures
        field(doc, ordered_entries_of(d)[k as int].0) is None,
        doc_tracks(with_field(doc, ordered_entries_of(d)[k as int].0, Some(n2)), ordered_entries_of(d), (k + 1) as nat),
{
    let pairs = ordered_entries_of(d);
    lemma_pairs_ordered(d);
    let key = pairs[k as int].0;
    if field(doc, key) is Some {
        let i = choose|i: int| 0 <= i < k && pairs[i].0 == key;
        assert(rank(pairs[i].0) < rank(pairs[k as int].0));
    }
    let doc2 = with_field(doc, key, Some(n2));
    assert forall|kk: TopLevelKey| (#[trigger] field(doc2, kk)) is Some implies exists|i: int| 0 <= i < k + 1 && pairs[i].0 == kk by {
        if kk != key {
            assert(field(doc2, kk) == field(doc, kk));
        } else {
            assert(pairs[k as int].0 == kk);
        }
    }
    assert forall|i: int| 0 <= i < k + 1 implies slot_is(#[trigger] field(doc2, pairs[i].0), pairs[i].1) by {
        if i < k {
            assert(rank(pairs[i].0) < rank(pairs[k as int].0));
            assert(field(doc2, pairs[i].0) == field(doc, pairs[i].0));
        }
    }
}

/// The tokens of top-level entry `k`, and what follows them.
proof fn lemma_top_entry_at(t: Seq<LineTokenModel>, d: DocumentModel, k: nat)
    requires
        k < ordered_entries_of(d).len(),
        shapes_at(t, 0, doc_shapes(d)),
        t.len() == doc_shapes(d).len(),
    ensures
        shapes_at(t, doc_shapes_upto(ordered_entries_of(d), k).len(), entry_shapes(0, key_name(ordered_entries_of(d)[k as int].0), ordered_entries_of(d)[k as int].1)),
        doc_shapes_upto(ordered_entries_of(d), (k + 1) as nat).len() == doc_shapes_upto(ordered_entries_of(d), k).len()
            + entry_shapes(0, key_name(ordered_entries_of(d)[k as int].0), ordered_entries_of(d)[k as int].1).len(),
        ends_before(t, doc_shapes_upto(ordered_entries_of(d), (k + 1) as nat).len(), 2),
{
    let pairs = ordered_entries_of(d);
    let len = pairs.len();
    let p = doc_shapes_upto(pairs, k).len();
    lemma_doc_shapes_prefix(pairs, (k + 1) as nat, len);
    let es = entry_shapes(0, key_name(pairs[k as int].0), pairs[k as int].1);
    let b = doc_shapes_upto(pairs, (k + 1) as nat);
    assert(b == doc_shapes_upto(pairs, k) + es);
    lemma_shapes_take(t, 0, doc_shapes(d), b.len());
    lemma_shapes_skip(t, 0, b, p);
    assert(b.skip(p as int) =~= es);
    let next_pos = b.len();
    if k + 1 < len {
        lemma_doc_shapes_prefix(pairs, (k + 2) as nat, len);
        let c = doc_shapes_upto(pairs, (k + 2) as nat);
        let es2 = entry_shapes(0, key_name(pairs[k as int + 1].0), pairs[k as int + 1].1);
        assert(c == b + es2);
        lemma_shapes_take(t, 0, doc_shapes(d), c.len());
        lemma_shapes_skip(t, 0, c, next_pos);
        assert(c.skip(next_pos as int) =~= es2);
        assert(token_shape(t[next_pos as int + 0int]) == es2[0]);
    }
}

/// The tokens of the top-level entries rebuild the document.
proof fn lemma_parse_top(t: Seq<LineTokenModel>, d: DocumentModel, k: nat, doc: DocumentModel)
    requires
        forall|i: int| 0 <= i < ordered_entries_of(d).len() ==> good_node(#[trigger] ordered_entries_of(d)[i].1),
        k <= ordered_entries_of(d).len(),
        shapes_at(t, 0, doc_shapes(d)),
        t.len() == doc_shapes(d).len(),
        doc_tracks(doc, ordered_entries_of(d), k),
    ensures
        p_document(t, doc_shapes_upto(ordered_entries_of(d), k).len(), doc) matches Ok(d2) && d2.includes is None
            && forall|kk: TopLevelKey| opt_stripped(#[trigger] field(d2, kk)) == opt_stripped(field(d, kk)),
    decreases ordered_entries_of(d).len() - k,
{
    let pairs = ordered_entries_of(d);
    let len = pairs.len();
    let p = doc_shapes_upto(pairs, k).len();
    lemma_doc_shapes_prefix(pairs, k, len);
    if k == len {
        assert(p == t.len());
        lemma_parse_top_end(doc, d);
    } else {
        lemma_top_entry_at(t, d, k);
        let key = pairs[k as int].0;
        let n = pairs[k as int].1;
        let name = key_name(key);
        let es = entry_shapes(0, name, n);
        let next_pos = doc_shapes_upto(pairs, (k + 1) as nat).len();
        assert(token_shape(t[p as int + 0int]) == es[0]);
        lemma_key_not_directive(key);
        law_keyword_roundtrip(key);
        let tok = t[p as int];
        match tok.kind {
            LineKindModel::Mapping { key: kt, value: tv, .. } => {
                match n {
                    NodeModel::Scalar { .. } => {
                        let n2 = NodeModel::Scalar { value: tv->0.value, span: kt.span };
                        lemma_track_step(doc, d, k, n2);
                        let doc2 = with_field(doc, key, Some(n2));
                        lemma_parse_top(t, d, (k + 1) as nat, doc2);
                        assert(p_document(t, p, doc) == p_document(t, next_pos, doc2));
                    },
                    _ => {
                        assert(es == seq![LineShape { indent: 0, kind: KindShape::Entry { key: name, value: None } }] + block_shapes(2, n));
                        lemma_shapes_skip(t, p, es, 1);
                        assert(es.skip(1) =~= block_shapes(2, n));
                        lemma_block_first(2, n);
                        assert(token_shape(t[(p + 1) as int + 0int]) == block_shapes(2, n)[0]);
                        lemma_parse_block(t, p + 1, 2, kt.span, n);
                        assert(p_nested(t, p + 1, 0, kt.span) == p_block(t, p + 1, 2, kt.span));
                        match p_block(t, p + 1, 2, kt.span) {
                            Ok((n2, nx)) => {
                                lemma_track_step(doc, d, k, n2);
                                let doc2 = with_field(doc, key, Some(n2));
                                lemma_parse_top(t, d, (k + 1) as nat, doc2);
                                assert(p_document(t, p, doc) == p_document(t, next_pos, doc2));
                            },
                            _ => {},
                        }
                    },
                }
            },
            _ => {},
        }
    }
}

// ---------------------------------------------------------------------------
// The canonical form depends on content alone.
// ---------------------------------------------------------------------------

pub proof fn lemma_entry_lines_strip(e: nat, key: Seq<char>, n: NodeModel)
    ensures
        entry_lines(e, key, n) == entry_lines(e, key, strip_spans(n)),
    decreases n, 0nat,
{
    match n {
        NodeModel::Scalar { .. } => {},
        NodeModel::Mapping { entries, .. } => {
            let se = strip_spans(n)->entries;
            lemma_entries_lines_same(e + 2, entries, se, entries.len());
        },
        NodeModel::Sequence { values, .. } => {
            let sv = strip_spans(n)->values;
            lemma_items_lines_same(e + 2, values, sv, values.len());
        },
    }
}

pub proof fn lemma_item_lines_strip(e: nat, n: NodeModel)
    ensures
        item_lines(e, n) == item_lines(e, strip_spans(n)),
    decreases n, 0nat,
{
    match n {
        NodeModel::Scalar { .. } => {},
        NodeModel::Mapping { entries, .. } => {
            let se = strip_spans(n)->entries;
            lemma_entries_lines_same(e + 2, entries, se, entries.len());
        },
        NodeModel::Sequence { values, .. } => {
            let sv = strip_spans(n)->values;
            lemma_items_lines_same(e + 2, values, sv, values.len());
        },
    }
}

proof fn lemma_entries_lines_same(e: nat, a: Seq<EntryModel>, b: Seq<EntryModel>, k: nat)
    requires
        a.len() == b.len(),
        k <= a.len(),
        forall|i: int| 0 <= i < a.len() ==> (#[trigger] b[i]).key == a[i].key && b[i].value == strip_spans(a[i].value),
    ensures
        entries_lines(e, a, k) == entries_lines(e, b, k),
    decreases a, k,
{
    if k > 0 {
        lemma_entries_lines_same(e, a, b, (k - 1) as nat);
        assert(b[k - 1].key == a[k - 1].key && b[k - 1].value == strip_spans(a[k - 1].value));
        lemma_entry_lines_strip(e, a[k - 1].key, a[k - 1].value);
    }
}

proof fn lemma_items_lines_same(e: nat, a: Seq<NodeModel>, b: Seq<NodeModel>, k: nat)
    requires
        a.len() == b.len(),
        k <= a.len(),
        forall|i: int| 0 <= i < a.len() ==> #[trigger] b[i] == strip_spans(a[i]),
    ensures
        items_lines(e, a, k) == items_lines(e, b, k),
    decreases a, k,
{
    if k > 0 {
        lemma_items_lines_same(e, a, b, (k - 1) as nat);
        assert(b[k - 1] == strip_spans(a[k - 1]));
        lemma_item_lines_strip(e, a[k - 1]);
    }
}

proof fn lemma_entries_among_same(d1: DocumentModel, d2: DocumentModel, keys: Seq<TopLevelKey>)
    requires
        forall|kk: TopLevelKey| opt_stripped(#[trigger] field(d1, kk)) == opt_stripped(field(d2, kk)),
    ensures
        entries_among(d1, keys).len() == entries_among(d2, keys).len(),
        forall|i: int|
            0 <= i < entries_among(d1, keys).len() ==> (#[trigger] entries_among(d1, keys)[i]).0
                == entries_among(d2, keys)[i].0 && strip_spans(entries_among(d1, keys)[i].1)
                == strip_spans(entries_among(d2, keys)[i].1),
    decreases keys.len(),
{
    if keys.len() > 0 {
        lemma_entries_among_same(d1, d2, keys.drop_last());
        let f1 = entries_among(d1, keys.drop_last());
        let f2 = entries_among(d2, keys.drop_last());
        assert(opt_stripped(field(d1, keys.last())) == opt_stripped(field(d2, keys.last())));
        let r1 = entries_among(d1, keys);
        let r2 = entries_among(d2, keys);
        assert forall|i: int| 0 <= i < r1.len() implies (#[trigger] r1[i]).0 == r2[i].0 && strip_spans(r1[i].1) == strip_spans(r2[i].1) by {
            if i < f1.len() {
                assert(r1[i] == f1[i] && r2[i] == f2[i]);
            }
        }
    }
}

proof fn lemma_doc_lines_same(p1: Seq<(TopLevelKey, NodeModel)>, p2: Seq<(TopLevelKey, NodeModel)>, k: nat)
    requires
        p1.len() == p2.len(),
        k <= p1.len(),
        forall|i: int| 0 <= i < p1.len() ==> (#[trigger] p1[i]).0 == p2[i].0 && strip_spans(p1[i].1) == strip_spans(p2[i].1),
    ensures
        document_lines_upto(p1, k) == document_lines_upto(p2, k),
    decreases k,
{
    if k > 0 {
        lemma_doc_lines_same(p1, p2, (k - 1) as nat);
        assert(p1[k - 1].0 == p2[k - 1].0);
        lemma_entry_lines_strip(0, key_name(p1[k - 1].0), p1[k - 1].1);
        lemma_entry_lines_strip(0, key_name(p1[k - 1].0), p2[k - 1].1);
    }
}

/// Documents that hold the same trees, spans aside, have the same
/// canonical form.
pub proof fn law_format_ignores_positions(d1: DocumentModel, d2: DocumentModel)
    requires
        forall|kk: TopLevelKey| opt_stripped(#[trigger] field(d1, kk)) == opt_stripped(field(d2, kk)),
    ensures
        format_model(d1) == format_model(d2),
{
    lemma_entries_among_same(d1, d2, ordered_keys());
    lemma_doc_lines_same(ordered_entries_of(d1), ordered_entries_of(d2), ordered_entries_of(d1).len());
}

// ---------------------------------------------------------------------------
// What the parser builds is written back faithfully.
// ---------------------------------------------------------------------------

/// The key of a mapping line is an identifier.
pub open spec fn token_key_ok(t: LineTokenModel) -> bool {
    match t.kind {
        LineKindModel::Mapping { key, .. } => key_ok(key.value),
        LineKindModel::ListItem { .. } => true,
    }
}

pub open spec fn keys_ok(t: Seq<LineTokenModel>) -> bool {
    forall|i: int| 0 <= i < t.len() ==> token_key_ok(#[trigger] t[i])
}

proof fn lemma_lex_mapping_key(content: Seq<char>, line: nat, column: nat)
    ensures
        lex_mapping(content, line, column) matches Ok(kind) ==> token_key_ok(LineTokenModel { indent: 0, kind }),
{
    if content.len() > 0 && is_ident_start(content[0]) {
        let s = content.drop_first();
        lemma_run_len_bound(s, ident_continue_pred());
        let k = 1 + run_len(s, ident_continue_pred());
        let key = content.take(k as int);
        assert forall|j: int| 1 <= j < key.len() implies is_ident_continue(#[trigger] key[j]) by {
            assert(ident_continue_pred()(s[j - 1]));
            assert(key[j] == s[j - 1]);
        }
    }
}

proof fn lemma_lex_tokens_keys(ls: Seq<Seq<char>>, n: nat)
    ensures
        keys_ok(lex_tokens(ls, n)),
    decreases n,
{
    if n > 0 {
        lemma_lex_tokens_keys(ls, (n - 1) as nat);
        let before = lex_tokens(ls, (n - 1) as nat);
        match lex_line(ls[n - 1], n) {
            LineOutcome::Token(tok) => {
                let raw = ls[n - 1];
                let indent = space_prefix_len(raw);
                let content = trim_end(raw.skip(indent as int));
                if !(content.len() > 0 && content[0] == '-') {
                    lemma_lex_mapping_key(content, n, indent + 1);
                }
                assert forall|i: int| 0 <= i < before.push(tok).len() implies token_key_ok(#[trigger] before.push(tok)[i]) by {
                    if i < before.len() {
                        assert(before.push(tok)[i] == before[i]);
                    }
                }
            },
            _ => {},
        }
    }
}

/// Whether a slot is empty or holds a tree written back faithfully.
pub open spec fn slot_good(o: Option<NodeModel>) -> bool {
    match o {
        Some(x) => good_node(x),
        None => true,
    }
}

/// A sequence result: at least `before` items (more where `grows`), all good.
pub open spec fn seq_result_good(r: Result<(NodeModel, nat), crate::diagnostics::DiagnosticModel>, before: nat, grows: bool) -> bool {
    match r {
        Ok((n, _)) => match n {
            NodeModel::Sequence { values, .. } => values.len() >= before && (grows ==> values.len() > before)
                && forall|i: int| 0 <= i < values.len() ==> good_node(#[trigger] values[i]),
            _ => false,
        },
        Err(_) => true,
    }
}

/// A mapping result: at least `before` entries (more where `grows`), all good.
pub open spec fn map_result_good(r: Result<(NodeModel, nat), crate::diagnostics::DiagnosticModel>, before: nat, grows: bool) -> bool {
    match r {
        Ok((n, _)) => match n {
            NodeModel::Mapping { entries, .. } => entries.len() >= before && (grows ==> entries.len() > before)
                && forall|i: int| 0 <= i < entries.len() ==> key_ok(#[trigger] entries[i].key) && good_node(entries[i].value),
            _ => false,
        },
        Err(_) => true,
    }
}

pub proof fn lemma_good_nested(t: Seq<LineTokenModel>, pos: nat, parent_indent: nat, parent_span: Span)
    requires
        keys_ok(t),
    ensures
        p_nested(t, pos, parent_indent, parent_span) matches Ok((n, _)) ==> good_node(n) && !(n is Scalar),
    decreases t.len() - pos, 3int,
{
    if pos < t.len() && t[pos as int].indent == parent_indent + 2 {
        lemma_good_block(t, pos, parent_indent + 2, parent_span);
    }
}

proof fn lemma_block_from_seq(r: Result<(NodeModel, nat), crate::diagnostics::DiagnosticModel>)
    requires
        seq_result_good(r, 0, true),
    ensures
        r matches Ok((n, _)) ==> good_node(n) && !(n is Scalar),
{
}

proof fn lemma_block_from_map(r: Result<(NodeModel, nat), crate::diagnostics::DiagnosticModel>)
    requires
        map_result_good(r, 0, true),
    ensures
        r matches Ok((n, _)) ==> good_node(n) && !(n is Scalar),
{
}

pub proof fn lemma_good_block(t: Seq<LineTokenModel>, pos: nat, expected: nat, span: Span)
    requires
        keys_ok(t),
    ensures
        p_block(t, pos, expected, span) matches Ok((n, _)) ==> good_node(n) && !(n is Scalar),
    decreases t.len() - pos, 2int,
{
    if pos < t.len() && t[pos as int].indent == expected {
        match t[pos as int].kind {
            LineKindModel::ListItem { .. } => {
                lemma_good_seq(t, pos, expected, span, Seq::empty());
                lemma_block_from_seq(p_seq(t, pos, expected, span, Seq::empty()));
                assert(p_block(t, pos, expected, span) == p_seq(t, pos, expected, span, Seq::empty()));
            },
            LineKindModel::Mapping { .. } => {
                lemma_good_map(t, pos, expected, span, Seq::empty());
                lemma_block_from_map(p_map(t, pos, expected, span, Seq::empty()));
                assert(p_block(t, pos, expected, span) == p_map(t, pos, expected, span, Seq::empty()));
            },
        }
    }
}

pub proof fn lemma_good_seq(t: Seq<LineTokenModel>, pos: nat, expected: nat, span: Span, items: Seq<NodeModel>)
    requires
        keys_ok(t),
        forall|i: int| 0 <= i < items.len() ==> good_node(#[trigger] items[i]),
    ensures
        seq_result_good(
            p_seq(t, pos, expected, span, items),
            items.len(),
            pos < t.len() && t[pos as int].indent == expected && t[pos as int].kind is ListItem,
        ),
    decreases t.len() - pos, 1int,
{
    if pos < t.len() && t[pos as int].indent == expected {
        match t[pos as int].kind {
            LineKindModel::ListItem { dash, value } => match value {
                Some(v) => {
                    let x = NodeModel::Scalar { value: v.value, span: dash };
                    assert forall|i: int| 0 <= i < items.push(x).len() implies good_node(#[trigger] items.push(x)[i]) by {
                        if i < items.len() {
                            assert(items.push(x)[i] == items[i]);
                        }
                    }
                    lemma_good_seq(t, pos + 1, expected, span, items.push(x));
                    assert(p_seq(t, pos, expected, span, items) == p_seq(t, pos + 1, expected, span, items.push(x)));
                },
                None => {
                    lemma_good_nested(t, pos + 1, expected, dash);
                    crate::parser::lemma_progress_nested(t, pos + 1, expected, dash);
                    match p_nested(t, pos + 1, expected, dash) {
                        Ok((n, next)) => {
                            assert forall|i: int| 0 <= i < items.push(n).len() implies good_node(#[trigger] items.push(n)[i]) by {
                                if i < items.len() {
                                    assert(items.push(n)[i] == items[i]);
                                }
                            }
                            lemma_good_seq(t, next, expected, span, items.push(n));
                            assert(p_seq(t, pos, expected, span, items) == p_seq(t, next, expected, span, items.push(n)));
                        },
                        Err(_) => {},
                    }
                },
            },
            _ => {},
        }
    }
}

proof fn lemma_entries_push_good(entries: Seq<EntryModel>, x: EntryModel)
    requires
        forall|i: int| 0 <= i < entries.len() ==> key_ok(#[trigger] entries[i].key) && good_node(entries[i].value),
        key_ok(x.key),
        good_node(x.value),
    ensures
        forall|i: int| 0 <= i < entries.push(x).len() ==> key_ok(#[trigger] entries.push(x)[i].key) && good_node(entries.push(x)[i].value),
{
    assert forall|i: int| 0 <= i < entries.push(x).len() implies key_ok(#[trigger] entries.push(x)[i].key) && good_node(entries.push(x)[i].value) by {
        if i < entries.len() {
            assert(entries.push(x)[i] == entries[i]);
        }
    }
}

proof fn lemma_map_grow(r: Result<(NodeModel, nat), crate::diagnostics::DiagnosticModel>, b: nat, g: bool)
    requires
        map_result_good(r, b + 1, g),
    ensures
        map_result_good(r, b, true),
{
}

proof fn lemma_map_done(entries: Seq<EntryModel>, span: Span, pos: nat)
    requires
        forall|i: int| 0 <= i < entries.len() ==> key_ok(#[trigger] entries[i].key) && good_node(entries[i].value),
    ensures
        map_result_good(Ok((NodeModel::Mapping { entries, span }, pos)), entries.len(), false),
{
}

pub proof fn lemma_good_map(t: Seq<LineTokenModel>, pos: nat, expected: nat, span: Span, entries: Seq<EntryModel>)
    requires
        keys_ok(t),
        forall|i: int| 0 <= i < entries.len() ==> key_ok(#[trigger] entries[i].key) && good_node(entries[i].value),
    ensures
        map_result_good(
            p_map(t, pos, expected, span, entries),
            entries.len(),
            pos < t.len() && t[pos as int].indent == expected && t[pos as int].kind is Mapping,
        ),
    decreases t.len() - pos, 1int,
{
    if pos < t.len() && t[pos as int].indent == expected {
        assert(token_key_ok(t[pos as int]));
        match t[pos as int].kind {
            LineKindModel::Mapping { key, value, .. } => match value {
                Some(v) => {
                    let x = EntryModel { key: key.value, value: NodeModel::Scalar { value: v.value, span: key.span }, span: key.span };
                    lemma_entries_push_good(entries, x);
                    lemma_good_map(t, pos + 1, expected, span, entries.push(x));
                    lemma_map_grow(
                        p_map(t, pos + 1, expected, span, entries.push(x)),
                        entries.len(),
                        pos + 1 < t.len() && t[pos as int + 1].indent == expected && t[pos as int + 1].kind is Mapping,
                    );
                    assert(p_map(t, pos, expected, span, entries) == p_map(t, pos + 1, expected, span, entries.push(x)));
                },
                None => {
                    lemma_good_nested(t, pos + 1, expected, key.span);
                    crate::parser::lemma_progress_nested(t, pos + 1, expected, key.span);
                    match p_nested(t, pos + 1, expected, key.span) {
                        Ok((n, next)) => {
                            let x = EntryModel { key: key.value, value: n, span: key.span };
                            lemma_entries_push_good(entries, x);
                            lemma_good_map(t, next, expected, span, entries.push(x));
                            lemma_map_grow(
                                p_map(t, next, expected, span, entries.push(x)),
                                entries.len(),
                                next < t.len() && t[next as int].indent == expected && t[next as int].kind is Mapping,
                            );
                            assert(p_map(t, pos, expected, span, entries) == p_map(t, next, expected, span, entries.push(x)));
                        },
                        Err(_) => {},
                    }
                },
            },
            LineKindModel::ListItem { .. } => {},
        }
    } else {
        lemma_map_done(entries, span, pos);
    }
}

pub proof fn lemma_good_document(t: Seq<LineTokenModel>, pos: nat, doc: DocumentModel)
    requires
        keys_ok(t),
        forall|kk: TopLevelKey| slot_good(#[trigger] field(doc, kk)),
    ensures
        p_document(t, pos, doc) matches Ok(d2) ==> forall|kk: TopLevelKey| slot_good(#[trigger] field(d2, kk)),
    decreases t.len() - pos,
{
    if pos < t.len() && t[pos as int].indent == 0 {
        match t[pos as int].kind {
            LineKindModel::Mapping { key, value, .. } => {
                lemma_good_nested(t, pos + 1, 0, key.span);
                let entry = match value {
                    Some(v) => Ok::<(NodeModel, nat), crate::diagnostics::DiagnosticModel>(
                        (NodeModel::Scalar { value: v.value, span: key.span }, pos + 1),
                    ),
                    None => p_nested(t, pos + 1, 0, key.span),
                };
                match entry {
                    Ok((n, next)) => {
                        if key.value == directive_keyword() {
                            let d2 = DocumentModel { includes: Some(n), ..doc };
                            assert forall|kk: TopLevelKey| slot_good(#[trigger] field(d2, kk)) by {
                                assert(field(d2, kk) == field(doc, kk));
                            }
                            if pos < next <= t.len() {
                                lemma_good_document(t, next, d2);
                            }
                        } else {
                            match keyword_key(key.value) {
                                Some(k) => {
                                    let d2 = with_field(doc, k, Some(n));
                                    assert forall|kk: TopLevelKey| slot_good(#[trigger] field(d2, kk)) by {
                                        if kk != k {
                                            assert(field(d2, kk) == field(doc, kk));
                                        }
                                    }
                                    if pos < next <= t.len() {
                                        lemma_good_document(t, next, d2);
                                    }
                                },
                                None => {},
                            }
                        }
                    },
                    Err(_) => {},
                }
            },
            _ => {},
        }
    }
}

/// Every block of a parsed document holds at least one line, and every key
/// in it is an identifier.
pub proof fn law_parsed_blocks_are_never_empty(source: Seq<char>)
    requires
        parse_model(source) is Ok,
    ensures
        good_document(parse_model(source)->Ok_0),
{
    let ls = lines(source);
    lemma_lex_tokens_keys(ls, ls.len());
    let t = lex_tokens(ls, ls.len());
    let empty = crate::ast::empty_document();
    assert forall|kk: TopLevelKey| slot_good(#[trigger] field(empty, kk)) by {}
    lemma_good_document(t, 0, empty);
    let d = parse_model(source)->Ok_0;
    lemma_pairs_ordered(d);
    assert forall|i: int| 0 <= i < ordered_entries_of(d).len() implies good_node(#[trigger] ordered_entries_of(d)[i].1) by {
        assert(slot_good(field(d, ordered_entries_of(d)[i].0)));
    }
}

// ---------------------------------------------------------------------------
// The law.
// ---------------------------------------------------------------------------

/// A document written in canonical form reads back as the same document,
/// positions aside (the composition directive, which the canonical form
/// leaves out, reads back absent).
pub proof fn law_canonical_form_reads_back(d: DocumentModel)
    requires
        good_document(d),
    ensures
        parse_model(format_model(d)) matches Ok(d2) && d2.includes is None && forall|kk: TopLevelKey|
            opt_stripped(#[trigger] field(d2, kk)) == opt_stripped(field(d, kk)),
{
    lemma_lex_format(d);
    let t = lex(format_model(d))->Ok_0;
    let pairs = ordered_entries_of(d);
    let empty = crate::ast::empty_document();
    assert(doc_tracks(empty, pairs, 0)) by {
        assert forall|kk: TopLevelKey| (#[trigger] field(empty, kk)) is Some implies exists|i: int| 0 <= i < 0 && pairs[i].0 == kk by {}
    }
    assert forall|i: int| 0 <= i < pairs.len() implies good_node(#[trigger] pairs[i].1) by {}
    lemma_parse_top(t, d, 0, empty);
}

/// Formatting is idempotent: the canonical form of any parsed document
/// parses again, and formatting that gives the same text.
pub proof fn law_format_is_idempotent(source: Seq<char>)
    requires
        parse_model(source) is Ok,
    ensures
        parse_model(format_model(parse_model(source)->Ok_0)) matches Ok(d2) && format_model(d2)
            == format_model(parse_model(source)->Ok_0),
{
    let d = parse_model(source)->Ok_0;
    law_parsed_blocks_are_never_empty(source);
    law_canonical_form_reads_back(d);
    let d2 = parse_model(format_model(d))->Ok_0;
    law_format_ignores_positions(d2, d);
}

} // verus!
