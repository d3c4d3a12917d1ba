//! Recursive-descent parser from line tokens to a `Document`.
use vstd::prelude::*;

use crate::ast::{
    directive_keyword, directive_keyword_string, field, is_directive_keyword, key_name,
    keyword_key, with_field, Document, DocumentModel, EntryModel, MappingEntry, Node, NodeModel,
    TopLevelKey, empty_document, document_within_depth, max_nesting, within_depth,
};
use crate::diagnostics::{single_error, span_at, syntax_diag, DiagnosticBag, DiagnosticModel, Span};
use crate::lexer::{
    fits_columns, lemma_lex_shaped, lex, syntax_code, syntax_shaped, token_span, tokenize_lines,
    LineKind, LineKindModel, LineToken, LineTokenModel,
};
use crate::text::{decimal, decimal_string, push_str, string_of};

verus! {

// ---------------------------------------------------------------------------
// The block grammar, stated over token sequences.
// ---------------------------------------------------------------------------

/// A block nested under a line at `parent_indent`; on success, the node and
/// the position after it.
pub open spec fn p_nested(t: Seq<LineTokenModel>, pos: nat, parent_indent: nat, parent_span: Span) -> Result<
    (NodeModel, nat),
    DiagnosticModel,
>
    decreases t.len() - pos, 3int,
{
    if pos >= t.len() {
        Err(syntax_diag("expected an indented block after `:`"@, parent_span, "E023"@))
    } else {
        let tok = t[pos as int];
        let expected = parent_indent + 2;
        if tok.indent < expected {
            Err(syntax_diag("expected an indented block after `:`"@, parent_span, "E023"@))
        } else if tok.indent > expected {
            Err(
                syntax_diag(
                    "nested blocks must be indented by exactly "@ + decimal(expected) + " spaces"@,
                    token_span(tok),
                    "E024"@,
                ),
            )
        } else {
            p_block(t, pos, expected, parent_span)
        }
    }
}

/// A block whose lines are at `expected` spaces.
pub open spec fn p_block(t: Seq<LineTokenModel>, pos: nat, expected: nat, span: Span) -> Result<
    (NodeModel, nat),
    DiagnosticModel,
>
    decreases t.len() - pos, 2int,
{
    if pos >= t.len() {
        Err(
            syntax_diag(
                "expected an indented block, but found end of input"@,
                span_at(1, 1),
                "E017"@,
            ),
        )
    } else {
        let tok = t[pos as int];
        if tok.indent != expected {
            Err(
                syntax_diag(
                    "expected indentation of "@ + decimal(expected) + " spaces"@,
                    token_span(tok),
                    "E018"@,
                ),
            )
        } else {
            match tok.kind {
                LineKindModel::ListItem { .. } => p_seq(t, pos, expected, span, Seq::empty()),
                LineKindModel::Mapping { .. } => p_map(t, pos, expected, span, Seq::empty()),
            }
        }
    }
}

/// The rest of a sequence, `items` holding the items read so far.
pub open spec fn p_seq(
    t: Seq<LineTokenModel>,
    pos: nat,
    expected: nat,
    span: Span,
    items: Seq<NodeModel>,
) -> Result<(NodeModel, nat), DiagnosticModel>
    decreases t.len() - pos, 1int,
{
    let done = Ok((NodeModel::Sequence { values: items, span }, pos));
    if pos >= t.len() {
        done
    } else {
        let tok = t[pos as int];
        if tok.indent < expected {
            done
        } else if tok.indent > expected {
            Err(
                syntax_diag(
                    "unexpected indentation inside sequence"@,
                    token_span(tok),
                    "E019"@,
                ),
            )
        } else {
            match tok.kind {
                LineKindModel::Mapping { .. } => done,
                LineKindModel::ListItem { dash, value } => match value {
                    Some(v) => p_seq(
                        t,
                        pos + 1,
                        expected,
                        span,
                        items.push(NodeModel::Scalar { value: v.value, span: dash }),
                    ),
                    None => match p_nested(t, pos + 1, expected, dash) {
                        Err(e) => Err(e),
                        Ok((n, next)) => if pos < next <= t.len() {
                            p_seq(t, next, expected, span, items.push(n))
                        } else {
                            done
                        },
                    },
                },
            }
        }
    }
}

/// The rest of a mapping, `entries` holding the entries read so far.
pub open spec fn p_map(
    t: Seq<LineTokenModel>,
    pos: nat,
    expected: nat,
    span: Span,
    entries: Seq<EntryModel>,
) -> Result<(NodeModel, nat), DiagnosticModel>
    decreases t.len() - pos, 1int,
{
    let done = Ok((NodeModel::Mapping { entries, span }, pos));
    if pos >= t.len() {
        done
    } else {
        let tok = t[pos as int];
        if tok.indent < expected {
            done
        } else if tok.indent > expected {
            Err(
                syntax_diag("unexpected indentation inside mapping"@, token_span(tok), "E018"@),
            )
        } else {
            match tok.kind {
                LineKindModel::ListItem { .. } => Err(
                    syntax_diag(
                        "list item found where a mapping entry was expected"@,
                        token_span(tok),
                        "E020"@,
                    ),
                ),
                LineKindModel::Mapping { key, value, .. } => match value {
                    Some(v) => p_map(
                        t,
                        pos + 1,
                        expected,
                        span,
                        entries.push(
                            EntryModel {
                                key: key.value,
                                value: NodeModel::Scalar { value: v.value, span: key.span },
                                span: key.span,
                            },
                        ),
                    ),
                    None => match p_nested(t, pos + 1, expected, key.span) {
                        Err(e) => Err(e),
                        Ok((n, next)) => if pos < next <= t.len() {
                            p_map(
                                t,
                                next,
                                expected,
                                span,
                                entries.push(EntryModel { key: key.value, value: n, span: key.span }),
                            )
                        } else {
                            done
                        },
                    },
                },
            }
        }
    }
}

/// The top-level entries from `pos` on, added to `doc`.
pub open spec fn p_document(t: Seq<LineTokenModel>, pos: nat, doc: DocumentModel) -> Result<
    DocumentModel,
    DiagnosticModel,
>
    decreases t.len() - pos,
{
    if pos >= t.len() {
        Ok(doc)
    } else {
        let tok = t[pos as int];
        if tok.indent != 0 {
            Err(
                syntax_diag("top-level keys must start at column 1"@, token_span(tok), "E012"@),
            )
        } else {
            match tok.kind {
                LineKindModel::ListItem { .. } => Err(
                    syntax_diag(
                        "top-level entries must be mappings, not list items"@,
                        token_span(tok),
                        "E016"@,
                    ),
                ),
                LineKindModel::Mapping { key, value, .. } => {
                    let entry = match value {
                        Some(v) => Ok(
                            (NodeModel::Scalar { value: v.value, span: key.span }, pos + 1),
                        ),
                        None => p_nested(t, pos + 1, 0, key.span),
                    };
                    match entry {
                        Err(e) => Err(e),
                        Ok((n, next)) => {
                            let placed = if key.value == directive_keyword() {
                                if doc.includes is Some {
                                    Err(
                                        syntax_diag(
                                            "duplicate top-level key `"@ + directive_keyword()
                                                + "`"@,
                                            key.span,
                                            "E014"@,
                                        ),
                                    )
                                } else {
                                    Ok(DocumentModel { includes: Some(n), ..doc })
                                }
                            } else {
                                match keyword_key(key.value) {
                                    None => Err(
                                        syntax_diag(
                                            "unknown top-level key `"@ + key.value + "`"@,
                                            key.span,
                                            "E013"@,
                                        ),
                                    ),
                                    Some(k) => if field(doc, k) is Some {
                                        Err(
                                            syntax_diag(
                                                "duplicate top-level key `"@ + key_name(k) + "`"@,
                                                key.span,
                                                "E014"@,
                                            ),
                                        )
                                    } else {
                                        Ok(with_field(doc, k, Some(n)))
                                    },
                                }
                            };
                            match placed {
                                Err(e) => Err(e),
                                Ok(d) => if pos < next <= t.len() {
                                    p_document(t, next, d)
                                } else {
                                    Ok(d)
                                },
                            }
                        },
                    }
                },
            }
        }
    }
}

/// What `parse_str` gives for `source`.
pub open spec fn parse_model(source: Seq<char>) -> Result<DocumentModel, Seq<DiagnosticModel>> {
    match lex(source) {
        Err(ds) => Err(ds),
        Ok(t) => match p_document(t, 0, empty_document()) {
            Ok(d) => Ok(d),
            Err(e) => Err(seq![e]),
        },
    }
}

// ---------------------------------------------------------------------------
// Progress: every block consumes at least one line.
// ---------------------------------------------------------------------------

pub proof fn lemma_progress_nested(t: Seq<LineTokenModel>, pos: nat, parent_indent: nat, parent_span: Span)
    ensures
        p_nested(t, pos, parent_indent, parent_span) matches Ok((_, next)) ==> pos < next <= t.len(),
    decreases t.len() - pos, 3int,
{
    if pos < t.len() && t[pos as int].indent == parent_indent + 2 {
        lemma_progress_block(t, pos, parent_indent + 2, parent_span);
    }
}

pub proof fn lemma_progress_block(t: Seq<LineTokenModel>, pos: nat, expected: nat, span: Span)
    ensures
        p_block(t, pos, expected, span) matches Ok((_, next)) ==> pos < next <= t.len(),
    decreases t.len() - pos, 2int,
{
    if pos < t.len() && t[pos as int].indent == expected {
        match t[pos as int].kind {
            LineKindModel::ListItem { dash, value } => {
                lemma_progress_seq(t, pos, expected, span, Seq::empty());
                match value {
                    Some(v) => {
                        lemma_progress_seq(
                            t,
                            pos + 1,
                            expected,
                            span,
                            seq![NodeModel::Scalar { value: v.value, span: dash }],
                        );
                    },
                    None => {
                        lemma_progress_nested(t, pos + 1, expected, dash);
                        match p_nested(t, pos + 1, expected, dash) {
                            Ok((n, next)) => {
                                lemma_progress_seq(t, next, expected, span, seq![n]);
                            },
                            Err(_) => {},
                        }
                    },
                }
            },
            LineKindModel::Mapping { key, value, .. } => {
                match value {
                    Some(v) => {
                        lemma_progress_map(
                            t,
                            pos + 1,
                            expected,
                            span,
                            seq![
                                EntryModel {
                                    key: key.value,
                                    value: NodeModel::Scalar { value: v.value, span: key.span },
                                    span: key.span,
                                },
                            ],
                        );
                    },
                    None => {
                        lemma_progress_nested(t, pos + 1, expected, key.span);
                        match p_nested(t, pos + 1, expected, key.span) {
                            Ok((n, next)) => {
                                lemma_progress_map(
                                    t,
                                    next,
                                    expected,
                                    span,
                                    seq![EntryModel { key: key.value, value: n, span: key.span }],
                                );
                            },
                            Err(_) => {},
                        }
                    },
                }
            },
        }
    }
}

pub proof fn lemma_progress_seq(
    t: Seq<LineTokenModel>,
    pos: nat,
    expected: nat,
    span: Span,
    items: Seq<NodeModel>,
)
    ensures
        p_seq(t, pos, expected, span, items) matches Ok((_, next)) ==> pos <= next && (pos
            <= t.len() ==> next <= t.len()),
    decreases t.len() - pos, 1int,
{
    if pos < t.len() && t[pos as int].indent == expected {
        match t[pos as int].kind {
            LineKindModel::ListItem { dash, value } => match value {
                Some(v) => {
                    lemma_progress_seq(
                        t,
                        pos + 1,
                        expected,
                        span,
                        items.push(NodeModel::Scalar { value: v.value, span: dash }),
                    );
                },
                None => {
                    lemma_progress_nested(t, pos + 1, expected, dash);
                    match p_nested(t, pos + 1, expected, dash) {
                        Ok((n, next)) => {
                            if pos < next <= t.len() {
                                lemma_progress_seq(t, next, expected, span, items.push(n));
                            }
                        },
                        Err(_) => {},
                    }
                },
            },
            _ => {},
        }
    }
}

pub proof fn lemma_progress_map(
    t: Seq<LineTokenModel>,
    pos: nat,
    expected: nat,
    span: Span,
    entries: Seq<EntryModel>,
)
    ensures
        p_map(t, pos, expected, span, entries) matches Ok((_, next)) ==> pos <= next && (pos
            <= t.len() ==> next <= t.len()),
    decreases t.len() - pos, 1int,
{
    if pos < t.len() && t[pos as int].indent == expected {
        match t[pos as int].kind {
            LineKindModel::Mapping { key, value, .. } => match value {
                Some(v) => {
                    lemma_progress_map(
                        t,
                        pos + 1,
                        expected,
                        span,
                        entries.push(
                            EntryModel {
                                key: key.value,
                                value: NodeModel::Scalar { value: v.value, span: key.span },
                                span: key.span,
                            },
                        ),
                    );
                },
                None => {
                    lemma_progress_nested(t, pos + 1, expected, key.span);
                    match p_nested(t, pos + 1, expected, key.span) {
                        Ok((n, next)) => {
                            if pos < next <= t.len() {
                                lemma_progress_map(
                                    t,
                                    next,
                                    expected,
                                    span,
                                    entries.push(EntryModel { key: key.value, value: n, span: key.span }),
                                );
                            }
                        },
                        Err(_) => {},
                    }
                },
            },
            _ => {},
        }
    }
}

// ---------------------------------------------------------------------------
// Implementation.
// ---------------------------------------------------------------------------

pub open spec fn tokens_model(tokens: Seq<LineToken>) -> Seq<LineTokenModel> {
    tokens.map_values(|t: LineToken| t@)
}

pub open spec fn indents_fit(tokens: Seq<LineToken>) -> bool {
    forall|i: int| 0 <= i < tokens.len() ==> #[trigger] tokens[i].indent + 8 <= usize::MAX
}

/// The spec result `s` and the exec result `r` agree.
pub open spec fn same_block(r: Result<(Node, usize), DiagnosticBag>, s: Result<(NodeModel, nat), DiagnosticModel>) -> bool {
    match s {
        Ok((n, next)) => r is Ok && r->Ok_0.0@ == n && r->Ok_0.1 == next,
        Err(d) => r is Err && r->Err_0@ == seq![d],
    }
}

fn parse_nested_block(tokens: &Vec<LineToken>, pos: usize, parent_indent: usize, parent_span: Span) -> (r: Result<(Node, usize), DiagnosticBag>)
    requires
        pos <= tokens@.len(),
        indents_fit(tokens@),
        parent_indent + 8 <= usize::MAX,
    ensures
        same_block(r, p_nested(tokens_model(tokens@), pos as nat, parent_indent as nat, parent_span)),
    decreases tokens@.len() - pos, 3int,
{
    let ghost t = tokens_model(tokens@);
    if pos >= tokens.len() {
        let msg = string_of("expected an indented block after `:`");
        return Err(single_error(msg, parent_span, "E023"));
    }
    let token = &tokens[pos];
    assert(t[pos as int] == token@);
    let expected = parent_indent + 2;
    if token.indent < expected {
        let msg = string_of("expected an indented block after `:`");
        return Err(single_error(msg, parent_span, "E023"));
    }
    if token.indent > expected {
        let mut msg = string_of("nested blocks must be indented by exactly ");
        let n = decimal_string(expected as u128);
        push_str(&mut msg, n.as_str());
        push_str(&mut msg, " spaces");
        return Err(single_error(msg, token.span(), "E024"));
    }
    parse_block(tokens, pos, expected, parent_span)
}

fn parse_block(tokens: &Vec<LineToken>, pos: usize, expected: usize, span: Span) -> (r: Result<(Node, usize), DiagnosticBag>)
    requires
        pos <= tokens@.len(),
        indents_fit(tokens@),
        expected + 8 <= usize::MAX,
    ensures
        same_block(r, p_block(tokens_model(tokens@), pos as nat, expected as nat, span)),
    decreases tokens@.len() - pos, 2int,
{
    let ghost t = tokens_model(tokens@);
    if pos >= tokens.len() {
        let msg = string_of("expected an indented block, but found end of input");
        return Err(single_error(msg, Span::new(1, 1), "E017"));
    }
    let token = &tokens[pos];
    assert(t[pos as int] == token@);
    if token.indent != expected {
        let mut msg = string_of("expected indentation of ");
        let n = decimal_string(expected as u128);
        push_str(&mut msg, n.as_str());
        push_str(&mut msg, " spaces");
        return Err(single_error(msg, token.span(), "E018"));
    }
    match &token.kind {
        LineKind::ListItem(_) => parse_sequence(tokens, pos, expected, span),
        LineKind::Mapping(_) => parse_mapping(tokens, pos, expected, span),
    }
}

fn parse_sequence(tokens: &Vec<LineToken>, pos: usize, expected: usize, span: Span) -> (r: Result<(Node, usize), DiagnosticBag>)
    requires
        pos <= tokens@.len(),
        indents_fit(tokens@),
        expected + 8 <= usize::MAX,
    ensures
        same_block(r, p_seq(tokens_model(tokens@), pos as nat, expected as nat, span, Seq::empty())),
    decreases tokens@.len() - pos, 1int,
{
    let ghost t = tokens_model(tokens@);
    let mut items: Vec<Node> = Vec::new();
    let mut cursor = pos;
    assert(items@.map_values(|n: Node| n@) =~= Seq::<NodeModel>::empty());
    loop
        invariant
            pos <= cursor <= tokens@.len(),
            t == tokens_model(tokens@),
            indents_fit(tokens@),
            expected + 8 <= usize::MAX,
            p_seq(t, pos as nat, expected as nat, span, Seq::empty()) == p_seq(
                t,
                cursor as nat,
                expected as nat,
                span,
                items@.map_values(|n: Node| n@),
            ),
        decreases tokens@.len() - cursor,
    {
        let ghost model = items@.map_values(|n: Node| n@);
        if cursor >= tokens.len() {
            return Ok((Node::sequence_at(items, span), cursor));
        }
        let token = &tokens[cursor];
        assert(t[cursor as int] == token@);
        if token.indent < expected {
            return Ok((Node::sequence_at(items, span), cursor));
        }
        if token.indent > expected {
            let msg = string_of("unexpected indentation inside sequence");
            return Err(single_error(msg, token.span(), "E019"));
        }
        match &token.kind {
            LineKind::Mapping(_) => {
                return Ok((Node::sequence_at(items, span), cursor));
            },
            LineKind::ListItem(item) => {
                match &item.value {
                    Some(v) => {
                        items.push(Node::scalar_at(v.value.clone(), item.dash));
                        assert(items@.map_values(|n: Node| n@) =~= model.push(
                            NodeModel::Scalar { value: v.value@, span: item.dash },
                        ));
                        cursor = cursor + 1;
                    },
                    None => {
                        proof {
                            lemma_progress_nested(t, (cursor + 1) as nat, expected as nat, item.dash);
                        }
                        match parse_nested_block(tokens, cursor + 1, expected, item.dash) {
                            Err(e) => {
                                return Err(e);
                            },
                            Ok((n, next)) => {
                                let ghost nm = n@;
                                items.push(n);
                                assert(items@.map_values(|n: Node| n@) =~= model.push(nm));
                                cursor = next;
                            },
                        }
                    },
                }
            },
        }
    }
}

fn parse_mapping(tokens: &Vec<LineToken>, pos: usize, expected: usize, span: Span) -> (r: Result<(Node, usize), DiagnosticBag>)
    requires
        pos <= tokens@.len(),
        indents_fit(tokens@),
        expected + 8 <= usize::MAX,
    ensures
        same_block(r, p_map(tokens_model(tokens@), pos as nat, expected as nat, span, Seq::empty())),
    decreases tokens@.len() - pos, 1int,
{
    let ghost t = tokens_model(tokens@);
    let mut entries: Vec<MappingEntry> = Vec::new();
    let mut cursor = pos;
    assert(entries@.map_values(|e: MappingEntry| e@) =~= Seq::<EntryModel>::empty());
    loop
        invariant
            pos <= cursor <= tokens@.len(),
            t == tokens_model(tokens@),
            indents_fit(tokens@),
            expected + 8 <= usize::MAX,
            p_map(t, pos as nat, expected as nat, span, Seq::empty()) == p_map(
                t,
                cursor as nat,
                expected as nat,
                span,
                entries@.map_values(|e: MappingEntry| e@),
            ),
        decreases tokens@.len() - cursor,
    {
        let ghost model = entries@.map_values(|e: MappingEntry| e@);
        if cursor >= tokens.len() {
            return Ok((Node::mapping_at(entries, span), cursor));
        }
        let token = &tokens[cursor];
        assert(t[cursor as int] == token@);
        if token.indent < expected {
            return Ok((Node::mapping_at(entries, span), cursor));
        }
        if token.indent > expected {
            let msg = string_of("unexpected indentation inside mapping");
            return Err(single_error(msg, token.span(), "E018"));
        }
        match &token.kind {
            LineKind::ListItem(_) => {
                let msg = string_of("list item found where a mapping entry was expected");
                return Err(single_error(msg, token.span(), "E020"));
            },
            LineKind::Mapping(mapping) => {
                let key_span = mapping.key.span;
                match &mapping.value {
                    Some(v) => {
                        let value = Node::scalar_at(v.value.clone(), key_span);
                        entries.push(MappingEntry::new(mapping.key.value.clone(), value, key_span));
                        assert(entries@.map_values(|e: MappingEntry| e@) =~= model.push(
                            EntryModel {
                                key: mapping.key.value@,
                                value: NodeModel::Scalar { value: v.value@, span: key_span },
                                span: key_span,
                            },
                        ));
                        cursor = cursor + 1;
                    },
                    None => {
                        proof {
                            lemma_progress_nested(t, (cursor + 1) as nat, expected as nat, key_span);
                        }
                        match parse_nested_block(tokens, cursor + 1, expected, key_span) {
                            Err(e) => {
                                return Err(e);
                            },
                            Ok((n, next)) => {
                                let ghost nm = n@;
                                entries.push(MappingEntry::new(mapping.key.value.clone(), n, key_span));
                                assert(entries@.map_values(|e: MappingEntry| e@) =~= model.push(
                                    EntryModel { key: mapping.key.value@, value: nm, span: key_span },
                                ));
                                cursor = next;
                            },
                        }
                    },
                }
            },
        }
    }
}

/// Builds a document from line tokens.
fn parse_document(tokens: &Vec<LineToken>) -> (r: Result<Document, DiagnosticBag>)
    requires
        indents_fit(tokens@),
    ensures
        match p_document(tokens_model(tokens@), 0, empty_document()) {
            Ok(d) => r is Ok && r->Ok_0@ == d,
            Err(e) => r is Err && r->Err_0@ == seq![e],
        },
{
    let ghost t = tokens_model(tokens@);
    let mut document = Document::new();
    let mut cursor: usize = 0;
    loop
        invariant
            cursor <= tokens@.len(),
            t == tokens_model(tokens@),
            indents_fit(tokens@),
            p_document(t, 0, empty_document()) == p_document(t, cursor as nat, document@),
        decreases tokens@.len() - cursor,
    {
        if cursor >= tokens.len() {
            return Ok(document);
        }
        let token = &tokens[cursor];
        assert(t[cursor as int] == token@);
        if token.indent != 0 {
            let msg = string_of("top-level keys must start at column 1");
            return Err(single_error(msg, token.span(), "E012"));
        }
        match &token.kind {
            LineKind::ListItem(_) => {
                let msg = string_of("top-level entries must be mappings, not list items");
                return Err(single_error(msg, token.span(), "E016"));
            },
            LineKind::Mapping(mapping) => {
                let key_span = mapping.key.span;
                let (value, next) = match &mapping.value {
                    Some(v) => (Node::scalar_at(v.value.clone(), key_span), cursor + 1),
                    None => {
                        proof {
                            lemma_progress_nested(t, (cursor + 1) as nat, 0, key_span);
                        }
                        match parse_nested_block(tokens, cursor + 1, 0, key_span) {
                            Err(e) => {
                                return Err(e);
                            },
                            Ok(pair) => pair,
                        }
                    },
                };
                let key = mapping.key.value.as_str();
                if is_directive_keyword(key) {
                    if document.includes.is_some() {
                        let mut msg = string_of("duplicate top-level key `");
                        let word = directive_keyword_string();
                        push_str(&mut msg, word.as_str());
                        push_str(&mut msg, "`");
                        return Err(single_error(msg, key_span, "E014"));
                    }
                    document.includes = Some(value);
                } else {
                    match TopLevelKey::from_keyword(key) {
                        None => {
                            let mut msg = string_of("unknown top-level key `");
                            push_str(&mut msg, key);
                            push_str(&mut msg, "`");
                            return Err(single_error(msg, key_span, "E013"));
                        },
                        Some(k) => {
                            if document.get(k).is_some() {
                                let mut msg = string_of("duplicate top-level key `");
                                push_str(&mut msg, k.as_str());
                                push_str(&mut msg, "`");
                                return Err(single_error(msg, key_span, "E014"));
                            }
                            let _ = document.set(k, value);
                        },
                    }
                }
                cursor = next;
            },
        }
    }
}

// ---------------------------------------------------------------------------
// Depth: a block at indentation `e` nests at most `block_depth(e)` levels,
// since each level is indented two columns further.
// ---------------------------------------------------------------------------

/// The widest indentation a token can have.
pub open spec fn max_indent() -> nat {
    (usize::MAX - 8) as nat
}

/// Whether every token's indentation is at most `max_indent()`.
pub open spec fn indents_bounded(t: Seq<LineTokenModel>) -> bool {
    forall|i: int| 0 <= i < t.len() ==> #[trigger] t[i].indent <= max_indent()
}

/// How deep a block at indentation `e` can nest.
pub open spec fn block_depth(e: nat) -> nat {
    ((max_indent() - e) / 2 + 1) as nat
}

pub proof fn lemma_depth_nested(t: Seq<LineTokenModel>, pos: nat, parent_indent: nat, parent_span: Span)
    requires
        indents_bounded(t),
    ensures
        p_nested(t, pos, parent_indent, parent_span) matches Ok((n, _)) ==> parent_indent + 2
            <= max_indent() && within_depth(n, block_depth(parent_indent + 2)),
    decreases t.len() - pos, 3int,
{
    if pos < t.len() && t[pos as int].indent == parent_indent + 2 {
        lemma_depth_block(t, pos, parent_indent + 2, parent_span);
    }
}

pub proof fn lemma_depth_block(t: Seq<LineTokenModel>, pos: nat, expected: nat, span: Span)
    requires
        indents_bounded(t),
    ensures
        p_block(t, pos, expected, span) matches Ok((n, _)) ==> expected <= max_indent()
            && within_depth(n, block_depth(expected)),
    decreases t.len() - pos, 2int,
{
    if pos < t.len() && t[pos as int].indent == expected {
        match t[pos as int].kind {
            LineKindModel::ListItem { .. } => {
                lemma_depth_seq(t, pos, expected, span, Seq::empty());
            },
            LineKindModel::Mapping { .. } => {
                lemma_depth_map(t, pos, expected, span, Seq::empty());
            },
        }
    }
}

pub proof fn lemma_depth_seq(
    t: Seq<LineTokenModel>,
    pos: nat,
    expected: nat,
    span: Span,
    items: Seq<NodeModel>,
)
    requires
        indents_bounded(t),
        expected <= max_indent(),
        forall|i: int| 0 <= i < items.len() ==> within_depth(#[trigger] items[i], (block_depth(expected) - 1) as nat),
    ensures
        p_seq(t, pos, expected, span, items) matches Ok((n, _)) ==> within_depth(n, block_depth(expected)),
    decreases t.len() - pos, 1int,
{
    let b = block_depth(expected);
    if pos < t.len() && t[pos as int].indent == expected {
        match t[pos as int].kind {
            LineKindModel::ListItem { dash, value } => match value {
                Some(v) => {
                    let x = NodeModel::Scalar { value: v.value, span: dash };
                    assert forall|i: int| 0 <= i < items.push(x).len() implies within_depth(
                        #[trigger] items.push(x)[i],
                        (b - 1) as nat,
                    ) by {
                        if i < items.len() {
                            assert(items.push(x)[i] == items[i]);
                        }
                    }
                    lemma_depth_seq(t, pos + 1, expected, span, items.push(x));
                },
                None => {
                    lemma_depth_nested(t, pos + 1, expected, dash);
                    lemma_progress_nested(t, pos + 1, expected, dash);
                    match p_nested(t, pos + 1, expected, dash) {
                        Ok((n, next)) => {
                            assert(block_depth(expected + 2) == b - 1);
                            assert forall|i: int| 0 <= i < items.push(n).len() implies within_depth(
                                #[trigger] items.push(n)[i],
                                (b - 1) as nat,
                            ) by {
                                if i < items.len() {
                                    assert(items.push(n)[i] == items[i]);
                                }
                            }
                            if pos < next <= t.len() {
                                lemma_depth_seq(t, next, expected, span, items.push(n));
                            }
                        },
                        Err(_) => {},
                    }
                },
            },
            _ => {},
        }
    }
}

pub proof fn lemma_depth_map(
    t: Seq<LineTokenModel>,
    pos: nat,
    expected: nat,
    span: Span,
    entries: Seq<EntryModel>,
)
    requires
        indents_bounded(t),
        expected <= max_indent(),
        forall|i: int| 0 <= i < entries.len() ==> within_depth(#[trigger] entries[i].value, (block_depth(expected) - 1) as nat),
    ensures
        p_map(t, pos, expected, span, entries) matches Ok((n, _)) ==> within_depth(n, block_depth(expected)),
    decreases t.len() - pos, 1int,
{
    let b = block_depth(expected);
    if pos < t.len() && t[pos as int].indent == expected {
        match t[pos as int].kind {
            LineKindModel::Mapping { key, value, .. } => match value {
                Some(v) => {
                    let x = EntryModel {
                        key: key.value,
                        value: NodeModel::Scalar { value: v.value, span: key.span },
                        span: key.span,
                    };
                    assert forall|i: int| 0 <= i < entries.push(x).len() implies within_depth(
                        #[trigger] entries.push(x)[i].value,
                        (b - 1) as nat,
                    ) by {
                        if i < entries.len() {
                            assert(entries.push(x)[i] == entries[i]);
                        }
                    }
                    lemma_depth_map(t, pos + 1, expected, span, entries.push(x));
                },
                None => {
                    lemma_depth_nested(t, pos + 1, expected, key.span);
                    lemma_progress_nested(t, pos + 1, expected, key.span);
                    match p_nested(t, pos + 1, expected, key.span) {
                        Ok((n, next)) => {
                            assert(block_depth(expected + 2) == b - 1);
                            let x = EntryModel { key: key.value, value: n, span: key.span };
                            assert forall|i: int| 0 <= i < entries.push(x).len() implies within_depth(
                                #[trigger] entries.push(x)[i].value,
                                (b - 1) as nat,
                            ) by {
                                if i < entries.len() {
                                    assert(entries.push(x)[i] == entries[i]);
                                }
                            }
                            if pos < next <= t.len() {
                                lemma_depth_map(t, next, expected, span, entries.push(x));
                            }
                        },
                        Err(_) => {},
                    }
                },
            },
            _ => {},
        }
    }
}

pub proof fn lemma_depth_document(t: Seq<LineTokenModel>, pos: nat, doc: DocumentModel)
    requires
        indents_bounded(t),
        document_within_depth(doc),
    ensures
        p_document(t, pos, doc) matches Ok(d) ==> document_within_depth(d),
    decreases t.len() - pos,
{
    if pos < t.len() && t[pos as int].indent == 0 {
        match t[pos as int].kind {
            LineKindModel::Mapping { key, value, .. } => {
                lemma_depth_nested(t, pos + 1, 0, key.span);
                assert(block_depth(2) == max_nesting());
                let entry = match value {
                    Some(v) => Ok::<(NodeModel, nat), DiagnosticModel>(
                        (NodeModel::Scalar { value: v.value, span: key.span }, pos + 1),
                    ),
                    None => p_nested(t, pos + 1, 0, key.span),
                };
                match entry {
                    Ok((n, next)) => {
                        assert(within_depth(n, max_nesting()));
                        if key.value != directive_keyword() {
                            match keyword_key(key.value) {
                                Some(k) => {
                                    let d2 = with_field(doc, k, Some(n));
                                    assert(document_within_depth(d2));
                                    if pos < next <= t.len() {
                                        lemma_depth_document(t, next, d2);
                                    }
                                },
                                None => {},
                            }
                        } else {
                            let d2 = DocumentModel { includes: Some(n), ..doc };
                            if pos < next <= t.len() {
                                lemma_depth_document(t, next, d2);
                            }
                        }
                    },
                    Err(_) => {},
                }
            },
            _ => {},
        }
    }
}

/// Parses a `.llm` source into a document, or reports the syntax errors.
pub fn parse_str(source: &str) -> (r: Result<Document, DiagnosticBag>)
    requires
        fits_columns(source@),
    ensures
        match parse_model(source@) {
            Ok(d) => r is Ok && r->Ok_0@ == d,
            Err(ds) => r is Err && r->Err_0@ == ds,
        },
        r matches Ok(d) ==> document_within_depth(d@),
{
    let tokens = tokenize_lines(source)?;
    proof {
        let tm = tokens@.map_values(|t: LineToken| t@);
        assert forall|i: int| 0 <= i < tm.len() implies #[trigger] tm[i].indent <= max_indent() by {
            assert(tokens@[i].indent + 8 <= usize::MAX);
        }
        assert(document_within_depth(empty_document()));
        lemma_depth_document(tm, 0, empty_document());
    }
    parse_document(&tokens)
}

// ---------------------------------------------------------------------------
// Diagnostics: every report is a syntax error with a parser code.
// ---------------------------------------------------------------------------

proof fn lemma_p_nested_shaped(t: Seq<LineTokenModel>, pos: nat, parent_indent: nat, parent_span: Span)
    ensures
        p_nested(t, pos, parent_indent, parent_span) matches Err(e) ==> syntax_shaped(e),
    decreases t.len() - pos, 3int,
{
    if pos < t.len() && t[pos as int].indent == parent_indent + 2 {
        lemma_p_block_shaped(t, pos, parent_indent + 2, parent_span);
    }
}

proof fn lemma_p_block_shaped(t: Seq<LineTokenModel>, pos: nat, expected: nat, span: Span)
    ensures
        p_block(t, pos, expected, span) matches Err(e) ==> syntax_shaped(e),
    decreases t.len() - pos, 2int,
{
    if pos < t.len() && t[pos as int].indent == expected {
        match t[pos as int].kind {
            LineKindModel::ListItem { .. } => lemma_p_seq_shaped(t, pos, expected, span, Seq::empty()),
            LineKindModel::Mapping { .. } => lemma_p_map_shaped(t, pos, expected, span, Seq::empty()),
        }
    }
}

proof fn lemma_p_seq_shaped(t: Seq<LineTokenModel>, pos: nat, expected: nat, span: Span, items: Seq<NodeModel>)
    ensures
        p_seq(t, pos, expected, span, items) matches Err(e) ==> syntax_shaped(e),
    decreases t.len() - pos, 1int,
{
    if pos < t.len() && t[pos as int].indent == expected {
        match t[pos as int].kind {
            LineKindModel::ListItem { dash, value } => match value {
                Some(v) => lemma_p_seq_shaped(
                    t,
                    pos + 1,
                    expected,
                    span,
                    items.push(NodeModel::Scalar { value: v.value, span: dash }),
                ),
                None => {
                    lemma_p_nested_shaped(t, pos + 1, expected, dash);
                    match p_nested(t, pos + 1, expected, dash) {
                        Ok((n, next)) => if pos < next <= t.len() {
                            lemma_p_seq_shaped(t, next, expected, span, items.push(n));
                        },
                        Err(_) => {},
                    }
                },
            },
            _ => {},
        }
    }
}

proof fn lemma_p_map_shaped(t: Seq<LineTokenModel>, pos: nat, expected: nat, span: Span, entries: Seq<EntryModel>)
    ensures
        p_map(t, pos, expected, span, entries) matches Err(e) ==> syntax_shaped(e),
    decreases t.len() - pos, 1int,
{
    if pos < t.len() && t[pos as int].indent == expected {
        match t[pos as int].kind {
            LineKindModel::Mapping { key, value, .. } => match value {
                Some(v) => lemma_p_map_shaped(
                    t,
                    pos + 1,
                    expected,
                    span,
                    entries.push(
                        EntryModel {
                            key: key.value,
                            value: NodeModel::Scalar { value: v.value, span: key.span },
                            span: key.span,
                        },
                    ),
                ),
                None => {
                    lemma_p_nested_shaped(t, pos + 1, expected, key.span);
                    match p_nested(t, pos + 1, expected, key.span) {
                        Ok((n, next)) => if pos < next <= t.len() {
                            lemma_p_map_shaped(
                                t,
                                next,
                                expected,
                                span,
                                entries.push(EntryModel { key: key.value, value: n, span: key.span }),
                            );
                        },
                        Err(_) => {},
                    }
                },
            },
            _ => {},
        }
    }
}

proof fn lemma_p_document_shaped(t: Seq<LineTokenModel>, pos: nat, doc: DocumentModel)
    ensures
        p_document(t, pos, doc) matches Err(e) ==> syntax_shaped(e),
    decreases t.len() - pos,
{
    if pos < t.len() && t[pos as int].indent == 0 {
        match t[pos as int].kind {
            LineKindModel::Mapping { key, value, .. } => {
                if value is None {
                    lemma_p_nested_shaped(t, pos + 1, 0, key.span);
                }
                let entry = match value {
                    Some(v) => Ok((NodeModel::Scalar { value: v.value, span: key.span }, pos + 1)),
                    None => p_nested(t, pos + 1, 0, key.span),
                };
                match entry {
                    Ok((n, next)) => {
                        let placed = if key.value == directive_keyword() {
                            if doc.includes is Some {
                                Err(
                                    syntax_diag(
                                        "duplicate top-level key `"@ + directive_keyword() + "`"@,
                                        key.span,
                                        "E014"@,
                                    ),
                                )
                            } else {
                                Ok(DocumentModel { includes: Some(n), ..doc })
                            }
                        } else {
                            match keyword_key(key.value) {
                                None => Err(
                                    syntax_diag(
                                        "unknown top-level key `"@ + key.value + "`"@,
                                        key.span,
                                        "E013"@,
                                    ),
                                ),
                                Some(k) => if field(doc, k) is Some {
                                    Err(
                                        syntax_diag(
                                            "duplicate top-level key `"@ + key_name(k) + "`"@,
                                            key.span,
                                            "E014"@,
                                        ),
                                    )
                                } else {
                                    Ok(with_field(doc, k, Some(n)))
                                },
                            }
                        };
                        match placed {
                            Ok(d) => if pos < next <= t.len() {
                                lemma_p_document_shaped(t, next, d);
                            },
                            Err(_) => {},
                        }
                    },
                    Err(_) => {},
                }
            },
            _ => {},
        }
    }
}

/// Every diagnostic that parsing reports is a syntax error whose code is one
/// of `E001`–`E024`: the lexer's and parser's range, `E0` and two digits.
pub proof fn law_parse_codes(source: Seq<char>)
    ensures
        parse_model(source) matches Err(ds) ==> forall|i: int| 0 <= i < ds.len() ==> syntax_shaped(#[trigger] ds[i]),
        forall|c: Seq<char>| syntax_code(c) ==> c.len() == 4 && c[0] == 'E' && c[1] == '0',
{
    lemma_lex_shaped(source);
    if let Ok(t) = lex(source) {
        lemma_p_document_shaped(t, 0, empty_document());
    }
    reveal_strlit("E001");
    reveal_strlit("E002");
    reveal_strlit("E003");
    reveal_strlit("E004");
    reveal_strlit("E005");
    reveal_strlit("E006");
    reveal_strlit("E007");
    reveal_strlit("E008");
    reveal_strlit("E009");
    reveal_strlit("E010");
    reveal_strlit("E011");
    reveal_strlit("E012");
    reveal_strlit("E013");
    reveal_strlit("E014");
    reveal_strlit("E015");
    reveal_strlit("E016");
    reveal_strlit("E017");
    reveal_strlit("E018");
    reveal_strlit("E019");
    reveal_strlit("E020");
    reveal_strlit("E021");
    reveal_strlit("E022");
    reveal_strlit("E023");
    reveal_strlit("E024");
}

} // verus!
