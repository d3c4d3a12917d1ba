//! Line-oriented lexer: every non-blank, non-comment line becomes one token,
//! a mapping line (`key: value`) or a list item (`- value`).
use vstd::prelude::*;

use crate::diagnostics::{
    single_error, span_at, syntax_diag, Diagnostic, DiagnosticBag, DiagnosticModel, Span,
};
use crate::text::{
    ascii_ws_pred, byte_len, char_width, char_width_of, chars_of, ident_continue_pred, is_ascii_whitespace, is_ascii_ws, is_ident_continue, is_ident_start, is_identifier_continue, is_identifier_start, is_whitespace, is_ws, lemma_byte_len_ge_len, lemma_byte_len_prefix, lemma_byte_len_subrange, lemma_byte_len_take, lemma_run_len, lemma_run_len_bound, lemma_trim_empty, lemma_ws_suffix, lemma_ws_suffix_bound, push_char, push_str, run_len, space_pred, space_prefix_len, string_from_chars, string_of, trim, trim_end, trim_start, ws_pred, ws_prefix_len,
};

verus! {

#[derive(Clone, Debug)]
pub struct IdentifierToken {
    pub value: String,
    pub span: Span,
}

#[derive(Clone, Debug)]
pub struct ScalarToken {
    pub value: String,
    pub span: Span,
}

#[derive(Clone, Debug)]
pub struct MappingLine {
    pub key: IdentifierToken,
    pub colon: Span,
    pub value: Option<ScalarToken>,
}

#[derive(Clone, Debug)]
pub struct ListItemLine {
    pub dash: Span,
    pub value: Option<ScalarToken>,
}

#[derive(Clone, Debug)]
pub enum LineKind {
    Mapping(MappingLine),
    ListItem(ListItemLine),
}

#[derive(Clone, Debug)]
pub struct LineToken {
    pub indent: usize,
    pub kind: LineKind,
}

/// A piece of text with the position where it starts.
pub ghost struct TextModel {
    pub value: Seq<char>,
    pub span: Span,
}

pub ghost enum LineKindModel {
    Mapping { key: TextModel, colon: Span, value: Option<TextModel> },
    ListItem { dash: Span, value: Option<TextModel> },
}

pub ghost struct LineTokenModel {
    pub indent: nat,
    pub kind: LineKindModel,
}

impl View for IdentifierToken {
    type V = TextModel;

    open spec fn view(&self) -> TextModel {
        TextModel { value: self.value@, span: self.span }
    }
}

impl View for ScalarToken {
    type V = TextModel;

    open spec fn view(&self) -> TextModel {
        TextModel { value: self.value@, span: self.span }
    }
}

pub open spec fn opt_text(t: Option<ScalarToken>) -> Option<TextModel> {
    match t {
        Some(x) => Some(x@),
        None => None,
    }
}

impl View for LineKind {
    type V = LineKindModel;

    open spec fn view(&self) -> LineKindModel {
        match self {
            LineKind::Mapping(m) => LineKindModel::Mapping {
                key: m.key@,
                colon: m.colon,
                value: opt_text(m.value),
            },
            LineKind::ListItem(l) => LineKindModel::ListItem { dash: l.dash, value: opt_text(l.value) },
        }
    }
}

impl View for LineToken {
    type V = LineTokenModel;

    open spec fn view(&self) -> LineTokenModel {
        LineTokenModel { indent: self.indent as nat, kind: self.kind@ }
    }
}

/// The position a token is reported at: its key, or its dash.
pub open spec fn token_span(t: LineTokenModel) -> Span {
    match t.kind {
        LineKindModel::Mapping { key, .. } => key.span,
        LineKindModel::ListItem { dash, .. } => dash,
    }
}

impl LineToken {
    pub fn span(&self) -> (s: Span)
        ensures
            s == token_span(self@),
    {
        match &self.kind {
            LineKind::Mapping(mapping) => mapping.key.span,
            LineKind::ListItem(item) => item.dash,
        }
    }
}

// ---------------------------------------------------------------------------
// The lexical grammar, stated over character sequences.
// ---------------------------------------------------------------------------

/// Index of the first line feed.
pub open spec fn newline_index(s: Seq<char>) -> Option<nat>
    decreases s.len(),
{
    if s.len() == 0 {
        None
    } else if s[0] == '\n' {
        Some(0)
    } else {
        match newline_index(s.drop_first()) {
            Some(i) => Some(i + 1),
            None => None,
        }
    }
}

/// A line without the carriage return of a `\r\n` terminator.
pub open spec fn strip_cr(l: Seq<char>) -> Seq<char> {
    if l.len() > 0 && l.last() == '\r' {
        l.drop_last()
    } else {
        l
    }
}

/// `str::lines`: pieces between line feeds, a `\r` before a line feed removed,
/// no empty piece after a final line feed.
pub open spec fn lines(s: Seq<char>) -> Seq<Seq<char>>
    decreases s.len(),
{
    if s.len() == 0 {
        Seq::empty()
    } else {
        match newline_index(s) {
            Some(i) => if i < s.len() {
                seq![strip_cr(s.take(i as int))] + lines(s.skip(i as int + 1))
            } else {
                seq![s]
            },
            None => seq![s],
        }
    }
}

/// The character an escape sequence `\c` stands for.
pub open spec fn escape_of(c: char) -> Option<char> {
    if c == '\\' {
        Some('\\')
    } else if c == '"' {
        Some('"')
    } else if c == '\'' {
        Some('\'')
    } else if c == 'n' {
        Some('\n')
    } else if c == 'r' {
        Some('\r')
    } else if c == 't' {
        Some('\t')
    } else {
        None
    }
}

/// Reads a quoted scalar from position `p` on, `acc` holding what was read.
pub open spec fn quoted_scan(src: Seq<char>, quote: char, p: int, acc: Seq<char>, span: Span) -> Result<
    TextModel,
    DiagnosticModel,
>
    decreases src.len() - p,
{
    if p < 0 || p >= src.len() {
        Err(syntax_diag("unterminated quoted scalar"@, span, "E011"@))
    } else {
        let ch = src[p];
        let at = span.column + byte_len(src.take(p));
        if ch == quote {
            if trim(src.skip(p + 1)).len() > 0 {
                Err(
                    syntax_diag(
                        "unexpected trailing characters after quoted scalar"@,
                        span_at(span.line as int, at + char_width(ch)),
                        "E008"@,
                    ),
                )
            } else {
                Ok(TextModel { value: acc, span })
            }
        } else if ch == '\\' {
            if p + 1 >= src.len() {
                Err(
                    syntax_diag(
                        "unterminated escape sequence in quoted scalar"@,
                        span_at(span.line as int, at),
                        "E009"@,
                    ),
                )
            } else {
                match escape_of(src[p + 1]) {
                    Some(e) => quoted_scan(src, quote, p + 2, acc.push(e), span),
                    None => Err(
                        syntax_diag(
                            "unsupported escape sequence `\\"@ + seq![src[p + 1]] + "`"@,
                            span_at(span.line as int, at + char_width(ch)),
                            "E010"@,
                        ),
                    ),
                }
            }
        } else {
            quoted_scan(src, quote, p + 1, acc.push(ch), span)
        }
    }
}

/// A scalar: quoted when it opens with a quote, bare otherwise.
pub open spec fn lex_scalar(src: Seq<char>, span: Span) -> Result<TextModel, DiagnosticModel> {
    if src.len() == 0 {
        Err(syntax_diag("expected a scalar value"@, span, "E007"@))
    } else if src[0] == '"' || src[0] == '\'' {
        quoted_scan(src, src[0], 1, Seq::empty(), span)
    } else {
        Ok(TextModel { value: src, span })
    }
}

/// The rest of a list item line after its `-`, at `line` and `column`.
pub open spec fn lex_list_item(rem: Seq<char>, line: nat, column: nat) -> Result<
    LineKindModel,
    DiagnosticModel,
> {
    let dash = span_at(line as int, column as int);
    if rem.len() > 0 && rem[0] != ' ' {
        Err(syntax_diag("expected a space after `-` in a list item"@, dash, "E003"@))
    } else {
        let k = ws_prefix_len(rem);
        let value_text = rem.skip(k as int);
        if value_text.len() == 0 {
            Ok(LineKindModel::ListItem { dash, value: None })
        } else {
            match lex_scalar(
                value_text,
                span_at(line as int, (column + byte_len(rem.take(k as int)) + 1) as int),
            ) {
                Ok(v) => Ok(LineKindModel::ListItem { dash, value: Some(v) }),
                Err(d) => Err(d),
            }
        }
    }
}

/// A mapping line `key: value` (or `key:`), at `line` and `column`.
pub open spec fn lex_mapping(content: Seq<char>, line: nat, column: nat) -> Result<
    LineKindModel,
    DiagnosticModel,
> {
    let start = span_at(line as int, column as int);
    if content.len() == 0 {
        Err(syntax_diag("expected a mapping entry or list item"@, start, "E004"@))
    } else if !is_ident_start(content[0]) {
        Err(
            syntax_diag(
                "expected an identifier at the start of a mapping entry"@,
                start,
                "E005"@,
            ),
        )
    } else {
        let k = 1 + run_len(content.drop_first(), ident_continue_pred());
        let after_key = content.skip(k as int);
        let w = run_len(after_key, ascii_ws_pred());
        let after_ws = after_key.skip(w as int);
        if after_ws.len() == 0 || after_ws[0] != ':' {
            Err(
                syntax_diag(
                    "expected `:` after mapping key"@,
                    span_at(line as int, (column + k) as int),
                    "E006"@,
                ),
            )
        } else {
            let colon_column = column + k + w;
            let after_colon = after_ws.drop_first();
            let v = ws_prefix_len(after_colon);
            let value_text = after_colon.skip(v as int);
            let key = TextModel { value: content.take(k as int), span: start };
            let colon = span_at(line as int, colon_column as int);
            if value_text.len() == 0 {
                Ok(LineKindModel::Mapping { key, colon, value: None })
            } else {
                match lex_scalar(
                    value_text,
                    span_at(line as int, (colon_column + 1 + byte_len(after_colon.take(v as int))) as int),
                ) {
                    Ok(t) => Ok(LineKindModel::Mapping { key, colon, value: Some(t) }),
                    Err(d) => Err(d),
                }
            }
        }
    }
}

/// The content of a line once its indentation is removed.
pub open spec fn lex_content(content: Seq<char>, line: nat, column: nat) -> Result<
    LineKindModel,
    DiagnosticModel,
> {
    if content.len() > 0 && content[0] == '-' {
        lex_list_item(content.drop_first(), line, column)
    } else {
        lex_mapping(content, line, column)
    }
}

/// What one source line contributes.
pub ghost enum LineOutcome {
    Skip,
    Token(LineTokenModel),
    Fail(DiagnosticModel),
}

/// One source line, numbered `line` from 1.
pub open spec fn lex_line(raw: Seq<char>, line: nat) -> LineOutcome {
    let trimmed = trim(raw);
    if trimmed.len() == 0 || trimmed[0] == '#' {
        LineOutcome::Skip
    } else if raw.contains('\t') {
        LineOutcome::Fail(
            syntax_diag(
                "tabs are not supported; use two-space indentation"@,
                span_at(line as int, 1),
                "E001"@,
            ),
        )
    } else {
        let indent = space_prefix_len(raw);
        if indent % 2 != 0 {
            LineOutcome::Fail(
                syntax_diag(
                    "indentation must use multiples of two spaces"@,
                    span_at(line as int, 1),
                    "E002"@,
                ),
            )
        } else {
            match lex_content(trim_end(raw.skip(indent as int)), line, indent + 1) {
                Ok(kind) => LineOutcome::Token(LineTokenModel { indent, kind }),
                Err(d) => LineOutcome::Fail(d),
            }
        }
    }
}

/// The tokens of the first `n` lines.
pub open spec fn lex_tokens(ls: Seq<Seq<char>>, n: nat) -> Seq<LineTokenModel>
    decreases n,
{
    if n == 0 {
        Seq::empty()
    } else {
        let before = lex_tokens(ls, (n - 1) as nat);
        match lex_line(ls[n - 1], n) {
            LineOutcome::Token(t) => before.push(t),
            _ => before,
        }
    }
}

/// The errors of the first `n` lines.
pub open spec fn lex_errors(ls: Seq<Seq<char>>, n: nat) -> Seq<DiagnosticModel>
    decreases n,
{
    if n == 0 {
        Seq::empty()
    } else {
        let before = lex_errors(ls, (n - 1) as nat);
        match lex_line(ls[n - 1], n) {
            LineOutcome::Fail(d) => before.push(d),
            _ => before,
        }
    }
}

/// A source: all its tokens, or the errors of every line that has one.
pub open spec fn lex(source: Seq<char>) -> Result<Seq<LineTokenModel>, Seq<DiagnosticModel>> {
    let ls = lines(source);
    let errors = lex_errors(ls, ls.len());
    if errors.len() > 0 {
        Err(errors)
    } else {
        Ok(lex_tokens(ls, ls.len()))
    }
}

/// Sources short enough that every column fits in a `usize`.
pub open spec fn fits_columns(source: Seq<char>) -> bool {
    byte_len(source) + 8 <= usize::MAX
}

// ---------------------------------------------------------------------------
// Implementation.
// ---------------------------------------------------------------------------

fn sub_chars(v: &Vec<char>, from: usize, to: usize) -> (r: Vec<char>)
    requires
        from <= to <= v@.len(),
    ensures
        r@ == v@.subrange(from as int, to as int),
{
    let mut r: Vec<char> = Vec::new();
    let mut i = from;
    while i < to
        invariant
            from <= i <= to <= v@.len(),
            r@ == v@.subrange(from as int, i as int),
        decreases to - i,
    {
        r.push(v[i]);
        i += 1;
    }
    r
}

/// Bytes of `v[from..to]`.
fn bytes_of(v: &Vec<char>, from: usize, to: usize) -> (n: usize)
    requires
        from <= to <= v@.len(),
        byte_len(v@) <= usize::MAX,
    ensures
        n == byte_len(v@.subrange(from as int, to as int)),
{
    let mut n: usize = 0;
    let mut i = from;
    while i < to
        invariant
            from <= i <= to <= v@.len(),
            byte_len(v@) <= usize::MAX,
            n == byte_len(v@.subrange(from as int, i as int)),
        decreases to - i,
    {
        proof {
            let s = v@.subrange(from as int, to as int);
            lemma_byte_len_take(s, (i - from) as int);
            assert(s.take((i - from) as int) =~= v@.subrange(from as int, i as int));
            assert(s.take((i - from + 1) as int) =~= v@.subrange(from as int, i + 1));
            lemma_byte_len_prefix(s, (i - from + 1) as int);
            lemma_byte_len_subrange(v@, from as int, to as int);
        }
        n = n + char_width_of(v[i]);
        i += 1;
    }
    n
}

/// Index just past the whitespace that starts `v[from..]`.
fn skip_ws(v: &Vec<char>, from: usize) -> (i: usize)
    requires
        from <= v@.len(),
    ensures
        i == from + ws_prefix_len(v@.skip(from as int)),
        i <= v@.len(),
{
    let mut i = from;
    while i < v.len() && is_whitespace(v[i])
        invariant
            from <= i <= v@.len(),
            forall|j: int| from <= j < i ==> is_ws(#[trigger] v@[j]),
        decreases v@.len() - i,
    {
        i += 1;
    }
    proof {
        let s = v@.skip(from as int);
        assert forall|j: int| 0 <= j < i - from implies ws_pred()(#[trigger] s[j]) by {
            assert(s[j] == v@[from + j]);
        }
        lemma_run_len(s, ws_pred(), (i - from) as int);
    }
    i
}

/// Whether every character of `v[from..]` is whitespace.
fn all_ws_from(v: &Vec<char>, from: usize) -> (b: bool)
    requires
        from <= v@.len(),
    ensures
        b == (trim(v@.skip(from as int)).len() == 0),
{
    let i = skip_ws(v, from);
    proof {
        let s = v@.skip(from as int);
        lemma_trim_empty(s);
        lemma_run_len_bound(s, ws_pred());
        if i < v@.len() {
            assert(!is_ws(s[(i - from) as int]));
        } else {
            assert forall|j: int| 0 <= j < s.len() implies is_ws(#[trigger] s[j]) by {
                assert(ws_pred()(s[j]));
            }
        }
    }
    i == v.len()
}

fn escape_char(c: char) -> (r: Option<char>)
    ensures
        r == escape_of(c),
{
    if c == '\\' {
        Some('\\')
    } else if c == '"' {
        Some('"')
    } else if c == '\'' {
        Some('\'')
    } else if c == 'n' {
        Some('\n')
    } else if c == 'r' {
        Some('\r')
    } else if c == 't' {
        Some('\t')
    } else {
        None
    }
}

/// The result of a lexing step: the value, or a bag holding the one error.
pub open spec fn one_error<T, U>(r: Result<T, DiagnosticBag>, spec_r: Result<U, DiagnosticModel>, view: spec_fn(T) -> U) -> bool {
    match spec_r {
        Ok(u) => r is Ok && view(r->Ok_0) == u,
        Err(d) => r is Err && r->Err_0@ == seq![d],
    }
}

fn lex_quoted(src: &Vec<char>, span: Span) -> (r: Result<ScalarToken, DiagnosticBag>)
    requires
        src@.len() > 0,
        src@[0] == '"' || src@[0] == '\'',
        span.column + byte_len(src@) + 2 <= usize::MAX,
    ensures
        one_error(r, quoted_scan(src@, src@[0], 1, Seq::empty(), span), |t: ScalarToken| t@),
{
    let quote = src[0];
    let mut value = String::new();
    let mut p: usize = 1;
    let mut bi: usize = 1;
    proof {
        lemma_byte_len_take(src@, 0);
        assert(src@.take(0).len() == 0);
    }
    loop
        invariant
            1 <= p <= src@.len() + 1,
            quote == src@[0],
            quote == '"' || quote == '\'',
            span.column + byte_len(src@) + 2 <= usize::MAX,
            p <= src@.len() ==> bi == byte_len(src@.take(p as int)),
            quoted_scan(src@, quote, p as int, value@, span) == quoted_scan(
                src@,
                quote,
                1,
                Seq::empty(),
                span,
            ),
        decreases src@.len() + 1 - p,
    {
        if p >= src.len() {
            let msg = string_of("unterminated quoted scalar");
            return Err(single_error(msg, span, "E011"));
        }
        proof {
            lemma_byte_len_prefix(src@, p as int);
            lemma_byte_len_take(src@, p as int);
            lemma_byte_len_prefix(src@, p + 1);
        }
        let ch = src[p];
        if ch == quote {
            assert(char_width(ch) == 1);
            if !all_ws_from(src, p + 1) {
                let msg = string_of("unexpected trailing characters after quoted scalar");
                return Err(
                    single_error(msg, Span::new(span.line, span.column + bi + 1), "E008"),
                );
            }
            return Ok(ScalarToken { value, span });
        }
        if ch == '\\' {
            if p + 1 >= src.len() {
                let msg = string_of("unterminated escape sequence in quoted scalar");
                return Err(single_error(msg, Span::new(span.line, span.column + bi), "E009"));
            }
            let escaped = src[p + 1];
            match escape_char(escaped) {
                Some(e) => {
                    proof {
                        lemma_byte_len_take(src@, p + 1);
                        lemma_byte_len_prefix(src@, p + 2);
                    }
                    push_char(&mut value, e);
                    bi = bi + 1 + char_width_of(escaped);
                    p = p + 2;
                },
                None => {
                    let mut msg = string_of("unsupported escape sequence `\\");
                    push_char(&mut msg, escaped);
                    push_str(&mut msg, "`");
                    assert(char_width(ch) == 1);
                    assert("unsupported escape sequence `\\"@.push(escaped) =~= "unsupported escape sequence `\\"@ + seq![escaped]);
                    return Err(single_error(msg, Span::new(span.line, span.column + bi + 1), "E010"));
                },
            }
        } else {
            push_char(&mut value, ch);
            bi = bi + char_width_of(ch);
            p = p + 1;
        }
    }
}

fn lex_scalar_exec(src: &Vec<char>, span: Span) -> (r: Result<ScalarToken, DiagnosticBag>)
    requires
        span.column + byte_len(src@) + 2 <= usize::MAX,
    ensures
        one_error(r, lex_scalar(src@, span), |t: ScalarToken| t@),
{
    if src.len() == 0 {
        let msg = string_of("expected a scalar value");
        return Err(single_error(msg, span, "E007"));
    }
    let first = src[0];
    if first == '"' || first == '\'' {
        return lex_quoted(src, span);
    }
    let value = string_from_chars(src, 0, src.len());
    assert(src@.subrange(0, src@.len() as int) =~= src@);
    Ok(ScalarToken { value, span })
}

fn lex_list_item_exec(rem: &Vec<char>, line: usize, column: usize) -> (r: Result<LineKind, DiagnosticBag>)
    requires
        column + byte_len(rem@) + 4 <= usize::MAX,
    ensures
        one_error(r, lex_list_item(rem@, line as nat, column as nat), |k: LineKind| k@),
{
    let dash = Span::new(line, column);
    if rem.len() > 0 && rem[0] != ' ' {
        let msg = string_of("expected a space after `-` in a list item");
        return Err(single_error(msg, dash, "E003"));
    }
    let k = skip_ws(rem, 0);
    assert(rem@.skip(0) =~= rem@);
    if k == rem.len() {
        return Ok(LineKind::ListItem(ListItemLine { dash, value: None }));
    }
    let value_text = sub_chars(rem, k, rem.len());
    assert(value_text@ =~= rem@.skip(k as int));
    proof {
        lemma_byte_len_prefix(rem@, k as int);
        lemma_byte_len_subrange(rem@, 0, k as int);
        assert(rem@.subrange(0, k as int) =~= rem@.take(k as int));
    }
    let offset = bytes_of(rem, 0, k);
    match lex_scalar_exec(&value_text, Span::new(line, column + offset + 1)) {
        Ok(t) => Ok(LineKind::ListItem(ListItemLine { dash, value: Some(t) })),
        Err(e) => Err(e),
    }
}

fn lex_mapping_exec(content: &Vec<char>, line: usize, column: usize) -> (r: Result<LineKind, DiagnosticBag>)
    requires
        column + byte_len(content@) + 4 <= usize::MAX,
    ensures
        one_error(r, lex_mapping(content@, line as nat, column as nat), |k: LineKind| k@),
{
    let start = Span::new(line, column);
    if content.len() == 0 {
        let msg = string_of("expected a mapping entry or list item");
        return Err(single_error(msg, start, "E004"));
    }
    if !is_identifier_start(content[0]) {
        let msg = string_of("expected an identifier at the start of a mapping entry");
        return Err(single_error(msg, start, "E005"));
    }
    let mut k: usize = 1;
    while k < content.len() && is_identifier_continue(content[k])
        invariant
            1 <= k <= content@.len(),
            forall|j: int| 1 <= j < k ==> is_ident_continue(#[trigger] content@[j]),
        decreases content@.len() - k,
    {
        k += 1;
    }
    proof {
        let s = content@.drop_first();
        assert forall|j: int| 0 <= j < k - 1 implies ident_continue_pred()(#[trigger] s[j]) by {
            assert(s[j] == content@[j + 1]);
        }
        if k < content@.len() {
            assert(s[k - 1] == content@[k as int]);
        }
        lemma_run_len(s, ident_continue_pred(), k - 1);
        lemma_byte_len_ge_len(content@);
    }
    let mut w = k;
    while w < content.len() && is_ascii_whitespace(content[w])
        invariant
            k <= w <= content@.len(),
            forall|j: int| k <= j < w ==> is_ascii_ws(#[trigger] content@[j]),
        decreases content@.len() - w,
    {
        w += 1;
    }
    let ghost after_key = content@.skip(k as int);
    proof {
        assert forall|j: int| 0 <= j < w - k implies ascii_ws_pred()(#[trigger] after_key[j]) by {
            assert(after_key[j] == content@[k + j]);
        }
        if w < content@.len() {
            assert(after_key[w - k] == content@[w as int]);
        }
        lemma_run_len(after_key, ascii_ws_pred(), w - k);
        assert(after_key.skip(w - k) =~= content@.skip(w as int));
    }
    if w == content.len() || content[w] != ':' {
        let msg = string_of("expected `:` after mapping key");
        return Err(single_error(msg, Span::new(line, column + k), "E006"));
    }
    let colon_column = column + w;
    let after_colon = sub_chars(content, w + 1, content.len());
    assert(after_colon@ =~= content@.skip(w as int).drop_first());
    let key_value = string_from_chars(content, 0, k);
    assert(content@.subrange(0, k as int) =~= content@.take(k as int));
    let key = IdentifierToken { value: key_value, span: start };
    let colon = Span::new(line, colon_column);
    let v = skip_ws(&after_colon, 0);
    assert(after_colon@.skip(0) =~= after_colon@);
    if v == after_colon.len() {
        return Ok(LineKind::Mapping(MappingLine { key, colon, value: None }));
    }
    let value_text = sub_chars(&after_colon, v, after_colon.len());
    assert(value_text@ =~= after_colon@.skip(v as int));
    proof {
        lemma_byte_len_subrange(content@, w + 1, content@.len() as int);
        lemma_byte_len_prefix(after_colon@, v as int);
        assert(after_colon@.subrange(0, v as int) =~= after_colon@.take(v as int));
        lemma_byte_len_prefix(content@, w as int);
        lemma_byte_len_ge_len(content@.take(w as int));
    }
    let offset = bytes_of(&after_colon, 0, v);
    match lex_scalar_exec(&value_text, Span::new(line, colon_column + 1 + offset)) {
        Ok(t) => Ok(LineKind::Mapping(MappingLine { key, colon, value: Some(t) })),
        Err(e) => Err(e),
    }
}

fn lex_content_exec(content: &Vec<char>, line: usize, column: usize) -> (r: Result<LineKind, DiagnosticBag>)
    requires
        column + byte_len(content@) + 4 <= usize::MAX,
    ensures
        one_error(r, lex_content(content@, line as nat, column as nat), |k: LineKind| k@),
{
    if content.len() > 0 && content[0] == '-' {
        let rem = sub_chars(content, 1, content.len());
        assert(rem@ =~= content@.drop_first());
        proof {
            lemma_byte_len_subrange(content@, 1, content@.len() as int);
        }
        lex_list_item_exec(&rem, line, column)
    } else {
        lex_mapping_exec(content, line, column)
    }
}

enum LineStep {
    Skip,
    Token(LineToken),
    Fail(DiagnosticBag),
}

#[verifier::loop_isolation(false)]
fn lex_line_exec(raw: &Vec<char>, line: usize) -> (r: LineStep)
    requires
        byte_len(raw@) + 8 <= usize::MAX,
    ensures
        match lex_line(raw@, line as nat) {
            LineOutcome::Skip => r is Skip,
            LineOutcome::Token(t) => r matches LineStep::Token(x) && x@ == t,
            LineOutcome::Fail(d) => r matches LineStep::Fail(b) && b@ == seq![d],
        },
        r matches LineStep::Token(x) ==> x.indent + 8 <= usize::MAX,
{
    // Blank or comment?
    let first = skip_ws(raw, 0);
    assert(raw@.skip(0) =~= raw@);
    proof {
        lemma_run_len_bound(raw@, ws_pred());
        lemma_trim_empty(raw@);
        let t = trim_start(raw@);
        lemma_ws_suffix_bound(t);
        if first < raw@.len() {
            assert(!is_ws(raw@[first as int]));
            assert(trim(raw@).len() > 0);
            assert(trim(raw@)[0] == raw@[first as int]);
        }
    }
    if first == raw.len() || raw[first] == '#' {
        return LineStep::Skip;
    }
    let mut i: usize = 0;
    while i < raw.len()
        invariant
            i <= raw@.len(),
            forall|j: int| 0 <= j < i ==> raw@[j] != '\t',
        decreases raw@.len() - i,
    {
        if raw[i] == '\t' {
            assert(raw@[i as int] == '\t');
            assert(raw@.contains('\t'));
            let msg = string_of("tabs are not supported; use two-space indentation");
            return LineStep::Fail(single_error(msg, Span::new(line, 1), "E001"));
        }
        i += 1;
    }
    let mut indent: usize = 0;
    while indent < raw.len() && raw[indent] == ' '
        invariant
            indent <= raw@.len(),
            forall|j: int| 0 <= j < indent ==> #[trigger] raw@[j] == ' ',
        decreases raw@.len() - indent,
    {
        indent += 1;
    }
    proof {
        assert forall|j: int| 0 <= j < indent implies space_pred()(#[trigger] raw@[j]) by {}
        lemma_run_len(raw@, space_pred(), indent as int);
        lemma_byte_len_ge_len(raw@);
    }
    if indent % 2 != 0 {
        let msg = string_of("indentation must use multiples of two spaces");
        return LineStep::Fail(single_error(msg, Span::new(line, 1), "E002"));
    }
    // Trailing whitespace off the indented rest.
    let mut end = raw.len();
    while end > indent && is_whitespace(raw[end - 1])
        invariant
            indent <= end <= raw@.len(),
            forall|j: int| end <= j < raw@.len() ==> is_ws(#[trigger] raw@[j]),
        decreases end,
    {
        end -= 1;
    }
    let ghost rest = raw@.skip(indent as int);
    proof {
        assert forall|j: int| rest.len() - (raw@.len() - end) <= j < rest.len() implies is_ws(
            #[trigger] rest[j],
        ) by {
            assert(rest[j] == raw@[indent + j]);
        }
        if end > indent {
            assert(rest[rest.len() - (raw@.len() - end) - 1] == raw@[end - 1]);
        }
        lemma_ws_suffix(rest, (raw@.len() - end) as int);
    }
    let content = sub_chars(raw, indent, end);
    assert(content@ =~= trim_end(rest));
    proof {
        lemma_byte_len_prefix(raw@, indent as int);
        lemma_byte_len_ge_len(raw@.take(indent as int));
        lemma_byte_len_prefix(rest, (end - indent) as int);
        assert(rest.take((end - indent) as int) =~= content@);
        assert(!raw@.contains('\t'));
    }
    match lex_content_exec(&content, line, indent + 1) {
        Ok(kind) => LineStep::Token(LineToken { indent, kind }),
        Err(b) => LineStep::Fail(b),
    }
}

proof fn lemma_newline_index(s: Seq<char>, k: int)
    requires
        0 <= k <= s.len(),
        forall|j: int| 0 <= j < k ==> s[j] != '\n',
    ensures
        k < s.len() && s[k] == '\n' ==> newline_index(s) == Some(k as nat),
        k == s.len() ==> newline_index(s) is None,
    decreases k,
{
    if k > 0 {
        assert forall|j: int| 0 <= j < k - 1 implies s.drop_first()[j] != '\n' by {
            assert(s.drop_first()[j] == s[j + 1]);
        }
        if k < s.len() {
            assert(s.drop_first()[k - 1] == s[k]);
        }
        lemma_newline_index(s.drop_first(), k - 1);
    }
}

/// The lines of `s`, as `str::lines` splits them.
fn split_lines(s: &Vec<char>) -> (r: Vec<Vec<char>>)
    ensures
        r@.map_values(|l: Vec<char>| l@) == lines(s@),
        r@.len() <= s@.len(),
        forall|i: int| 0 <= i < r@.len() ==> byte_len(#[trigger] r@[i]@) <= byte_len(s@),
{
    let mut r: Vec<Vec<char>> = Vec::new();
    let mut pos: usize = 0;
    assert(s@.skip(0) =~= s@);
    assert(r@.map_values(|l: Vec<char>| l@) + lines(s@) =~= lines(s@));
    while pos < s.len()
        invariant
            pos <= s@.len(),
            r@.len() <= pos,
            lines(s@) == r@.map_values(|l: Vec<char>| l@) + lines(s@.skip(pos as int)),
            forall|i: int| 0 <= i < r@.len() ==> byte_len(#[trigger] r@[i]@) <= byte_len(s@),
        decreases s@.len() - pos,
    {
        let ghost t = s@.skip(pos as int);
        let ghost done = r@.map_values(|l: Vec<char>| l@);
        let mut j = pos;
        while j < s.len() && s[j] != '\n'
            invariant
                pos <= j <= s@.len(),
                forall|k: int| pos <= k < j ==> s@[k] != '\n',
            decreases s@.len() - j,
        {
            j += 1;
        }
        proof {
            assert forall|k: int| 0 <= k < j - pos implies t[k] != '\n' by {
                assert(t[k] == s@[pos + k]);
            }
            if j < s@.len() {
                assert(t[j - pos] == s@[j as int]);
            }
            lemma_newline_index(t, j - pos);
        }
        let line = if j < s.len() {
            let end = if j > pos && s[j - 1] == '\r' {
                j - 1
            } else {
                j
            };
            let l = sub_chars(s, pos, end);
            assert(l@ =~= strip_cr(t.take(j - pos)));
            assert(t.skip(j - pos + 1) =~= s@.skip(j + 1));
            proof {
                lemma_byte_len_subrange(s@, pos as int, end as int);
            }
            pos = j + 1;
            l
        } else {
            let l = sub_chars(s, pos, s.len());
            assert(l@ =~= t);
            proof {
                lemma_byte_len_subrange(s@, pos as int, s@.len() as int);
            }
            pos = s.len();
            assert(s@.skip(pos as int).len() == 0);
            l
        };
        r.push(line);
        assert(r@.map_values(|l: Vec<char>| l@) =~= done.push(line@));
        assert(lines(t) =~= seq![line@] + lines(s@.skip(pos as int)));
    }
    assert(lines(s@.skip(pos as int)).len() == 0);
    assert(r@.map_values(|l: Vec<char>| l@) + lines(s@.skip(pos as int)) =~= r@.map_values(
        |l: Vec<char>| l@,
    ));
    r
}

/// The tokens of `source`, or the errors of every line that has one.
pub fn tokenize_lines(source: &str) -> (r: Result<Vec<LineToken>, DiagnosticBag>)
    requires
        fits_columns(source@),
    ensures
        match lex(source@) {
            Ok(ts) => r is Ok && r->Ok_0@.map_values(|t: LineToken| t@) == ts,
            Err(ds) => r is Err && r->Err_0@ == ds,
        },
        r matches Ok(ts) ==> forall|i: int| 0 <= i < ts@.len() ==> #[trigger] ts@[i].indent + 8 <= usize::MAX,
{
    let chars = chars_of(source);
    let ls = split_lines(&chars);
    let ghost lsm = ls@.map_values(|l: Vec<char>| l@);
    let mut diagnostics = DiagnosticBag::new();
    let mut tokens: Vec<LineToken> = Vec::new();
    let mut index: usize = 0;
    while index < ls.len()
        invariant
            index <= ls@.len(),
            ls@.len() <= chars@.len(),
            chars@ == source@,
            fits_columns(source@),
            lsm == ls@.map_values(|l: Vec<char>| l@),
            lsm == lines(source@),
            forall|i: int| 0 <= i < ls@.len() ==> byte_len(#[trigger] ls@[i]@) <= byte_len(chars@),
            tokens@.map_values(|t: LineToken| t@) == lex_tokens(lsm, index as nat),
            forall|i: int| 0 <= i < tokens@.len() ==> #[trigger] tokens@[i].indent + 8 <= usize::MAX,
            diagnostics@ == lex_errors(lsm, index as nat),
        decreases ls@.len() - index,
    {
        let line_number = index + 1;
        let ghost before_tokens = tokens@.map_values(|t: LineToken| t@);
        assert(lsm[index as int] == ls@[index as int]@);
        match lex_line_exec(&ls[index], line_number) {
            LineStep::Skip => {},
            LineStep::Token(t) => {
                tokens.push(t);
                assert(tokens@.map_values(|t: LineToken| t@) =~= before_tokens.push(t@));
            },
            LineStep::Fail(b) => {
                diagnostics.extend(b);
            },
        }
        index += 1;
    }
    if diagnostics.has_errors() {
        Err(diagnostics)
    } else {
        proof {
            let ds = diagnostics@;
            if ds.len() > 0 {
                lemma_lex_errors_shaped(lsm, ls@.len() as nat, (ds.len() - 1) as int);
                assert(has_errors_at(ds, ds.len() - 1));
            }
        }
        Ok(tokens)
    }
}

pub open spec fn has_errors_at(ds: Seq<DiagnosticModel>, i: int) -> bool {
    0 <= i < ds.len() && ds[i].severity == crate::diagnostics::Severity::Error
}

/// The codes of the lexer and the parser.
pub open spec fn syntax_code(c: Seq<char>) -> bool {
    ||| c == "E001"@
    ||| c == "E002"@
    ||| c == "E003"@
    ||| c == "E004"@
    ||| c == "E005"@
    ||| c == "E006"@
    ||| c == "E007"@
    ||| c == "E008"@
    ||| c == "E009"@
    ||| c == "E010"@
    ||| c == "E011"@
    ||| c == "E012"@
    ||| c == "E013"@
    ||| c == "E014"@
    ||| c == "E015"@
    ||| c == "E016"@
    ||| c == "E017"@
    ||| c == "E018"@
    ||| c == "E019"@
    ||| c == "E020"@
    ||| c == "E021"@
    ||| c == "E022"@
    ||| c == "E023"@
    ||| c == "E024"@
}

/// Whether `d` is a syntax error with one of the lexer's and parser's codes.
pub open spec fn syntax_shaped(d: DiagnosticModel) -> bool {
    &&& d.phase == crate::diagnostics::DiagnosticPhase::Syntax
    &&& d.severity == crate::diagnostics::Severity::Error
    &&& d.code matches Some(c) && syntax_code(c)
}

proof fn lemma_quoted_scan_shaped(src: Seq<char>, quote: char, p: int, acc: Seq<char>, span: Span)
    ensures
        quoted_scan(src, quote, p, acc, span) matches Err(d) ==> syntax_shaped(d),
    decreases src.len() - p,
{
    if 0 <= p < src.len() {
        let ch = src[p];
        if ch != quote && ch == '\\' && p + 1 < src.len() {
            if let Some(e) = escape_of(src[p + 1]) {
                lemma_quoted_scan_shaped(src, quote, p + 2, acc.push(e), span);
            }
        } else if ch != quote && ch != '\\' {
            lemma_quoted_scan_shaped(src, quote, p + 1, acc.push(ch), span);
        }
    }
}

proof fn lemma_lex_line_shaped(raw: Seq<char>, line: nat)
    ensures
        lex_line(raw, line) matches LineOutcome::Fail(d) ==> syntax_shaped(d),
{
    let indent = space_prefix_len(raw);
    let content = trim_end(raw.skip(indent as int));
    let column = indent + 1;
    if content.len() > 0 && content[0] == '-' {
        let rem = content.drop_first();
        let value_text = rem.skip(ws_prefix_len(rem) as int);
        if value_text.len() > 0 && (value_text[0] == '"' || value_text[0] == '\'') {
            lemma_quoted_scan_shaped(value_text, value_text[0], 1, Seq::empty(), span_at(line as int, (column + byte_len(rem.take(ws_prefix_len(rem) as int)) + 1) as int));
        }
    } else if content.len() > 0 && is_ident_start(content[0]) {
        let k = 1 + run_len(content.drop_first(), ident_continue_pred());
        let after_key = content.skip(k as int);
        let w = run_len(after_key, ascii_ws_pred());
        let after_ws = after_key.skip(w as int);
        if after_ws.len() > 0 && after_ws[0] == ':' {
            let after_colon = after_ws.drop_first();
            let v = ws_prefix_len(after_colon);
            let value_text = after_colon.skip(v as int);
            if value_text.len() > 0 && (value_text[0] == '"' || value_text[0] == '\'') {
                lemma_quoted_scan_shaped(value_text, value_text[0], 1, Seq::empty(), span_at(line as int, (column + k + w + 1 + byte_len(after_colon.take(v as int))) as int));
            }
        }
    }
}

proof fn lemma_lex_errors_shaped(ls: Seq<Seq<char>>, n: nat, i: int)
    requires
        0 <= i < lex_errors(ls, n).len(),
    ensures
        syntax_shaped(lex_errors(ls, n)[i]),
    decreases n,
{
    if n > 0 {
        let before = lex_errors(ls, (n - 1) as nat);
        if i < before.len() {
            lemma_lex_errors_shaped(ls, (n - 1) as nat, i);
        } else {
            lemma_lex_line_shaped(ls[n - 1], n);
        }
    }
}

/// Every error the lexer reports is a syntax error with one of the codes
/// `E001`–`E024`.
pub proof fn lemma_lex_shaped(source: Seq<char>)
    ensures
        lex(source) matches Err(ds) ==> forall|i: int| 0 <= i < ds.len() ==> syntax_shaped(#[trigger] ds[i]),
{
    let ls = lines(source);
    assert forall|i: int| 0 <= i < lex_errors(ls, ls.len()).len() implies syntax_shaped(#[trigger] lex_errors(ls, ls.len())[i]) by {
        lemma_lex_errors_shaped(ls, ls.len(), i);
    }
}

} // verus!
