//! Size comparison of a document's representations: bytes and tokens of the
//! source, an optional baseline text, and each output target.
use vstd::prelude::*;

use crate::ast::{document_within_depth, Document, DocumentModel};
use crate::bench::tokenizer::{encodes, token_count, CountError, TokenCounter};
use crate::provider::{provider_name, tokenizer_name, tokenizer_profile_of, ProfileError, Provider, TokenizerProfile};
use crate::text::{
    byte_len, chars_of, decimal, decimal_string, join, join_strings, lemma_byte_len_encode, push_str,
    spaces, spaces_string, string_of,
};
use crate::transpile::{transpile_model, transpile_with_provider, Target};

pub mod tokenizer;

verus! {

/// The name of the row of the baseline text.
pub const BASELINE_ROW_NAME: &'static str = "baseline";

/// The measures of one text.
#[derive(Debug, Clone, PartialEq, Eq)]
pub struct BenchRow {
    pub name: &'static str,
    pub bytes: usize,
    pub tokens: usize,
    /// Bytes more than the source (negative: fewer).
    pub delta_bytes: i128,
    /// Tokens more than the source (negative: fewer).
    pub delta_tokens: i128,
    /// Bytes more than the baseline, where there is one.
    pub delta_bytes_vs_baseline: Option<i128>,
    /// Tokens more than the baseline, where there is one.
    pub delta_tokens_vs_baseline: Option<i128>,
}

/// A report: which provider and tokenizer, and one row per text.
#[derive(Debug, Clone, PartialEq, Eq)]
pub struct BenchReport {
    pub provider: &'static str,
    pub tokenizer: &'static str,
    pub rows: Vec<BenchRow>,
}

// ---------------------------------------------------------------------------
// Measuring.
// ---------------------------------------------------------------------------

/// The difference of two measures, as a delta.
pub open spec fn delta(value: nat, reference: nat) -> i128 {
    (value - reference) as i128
}

/// A measure against an optional reference `(bytes, tokens)`.
pub open spec fn delta_vs(value: nat, reference: Option<(usize, usize)>, tokens: bool) -> Option<i128> {
    match reference {
        Some(r) => Some(delta(value, if tokens { r.1 as nat } else { r.0 as nat })),
        None => None,
    }
}

impl BenchRow {
    /// The row of a text of `bytes` bytes and `tokens` tokens, against the
    /// source's `(bytes, tokens)` and, where given, the baseline's.
    pub fn measured(
        name: &'static str,
        bytes: usize,
        tokens: usize,
        source: (usize, usize),
        baseline: Option<(usize, usize)>,
    ) -> (row: Self)
        ensures
            row.name == name,
            row.bytes == bytes,
            row.tokens == tokens,
            row.delta_bytes == delta(bytes as nat, source.0 as nat),
            row.delta_tokens == delta(tokens as nat, source.1 as nat),
            row.delta_bytes_vs_baseline == delta_vs(bytes as nat, baseline, false),
            row.delta_tokens_vs_baseline == delta_vs(tokens as nat, baseline, true),
    {
        let (delta_bytes_vs_baseline, delta_tokens_vs_baseline) = match baseline {
            Some((b_bytes, b_tokens)) => (
                Some(signed_delta(bytes, b_bytes)),
                Some(signed_delta(tokens, b_tokens)),
            ),
            None => (None, None),
        };
        BenchRow {
            name,
            bytes,
            tokens,
            delta_bytes: signed_delta(bytes, source.0),
            delta_tokens: signed_delta(tokens, source.1),
            delta_bytes_vs_baseline,
            delta_tokens_vs_baseline,
        }
    }
}

fn signed_delta(value: usize, baseline: usize) -> (d: i128)
    ensures
        d == delta(value as nat, baseline as nat),
{
    value as i128 - baseline as i128
}

/// The texts that a report measures, named: the source, the baseline where
/// there is one, then the `plain`, `json-ir` and `shadow` outputs.
pub open spec fn bench_texts(
    source: Seq<char>,
    d: DocumentModel,
    provider: Provider,
    baseline: Option<Seq<char>>,
) -> Seq<(Seq<char>, Seq<char>)> {
    seq![("source"@, source)] + match baseline {
        Some(b) => seq![("baseline"@, b)],
        None => Seq::empty(),
    } + seq![
        ("plain"@, transpile_model(d, Target::Plain, provider)),
        ("json-ir"@, transpile_model(d, Target::JsonIr, provider)),
        ("shadow"@, transpile_model(d, Target::Shadow, provider)),
    ]
}

/// The `(bytes, tokens)` of a text.
pub open spec fn measures(text: Seq<char>, profile: TokenizerProfile) -> (nat, nat) {
    (byte_len(text), token_count(profile, text))
}

/// Whether `row` measures the text `text` named `name`, against `source`
/// and the optional `baseline`.
pub open spec fn row_measures(
    row: BenchRow,
    name: Seq<char>,
    text: Seq<char>,
    profile: TokenizerProfile,
    source: Seq<char>,
    baseline: Option<Seq<char>>,
) -> bool {
    let (bytes, tokens) = measures(text, profile);
    let (s_bytes, s_tokens) = measures(source, profile);
    &&& row.name@ == name
    &&& row.bytes == bytes
    &&& row.tokens == tokens
    &&& row.delta_bytes == delta(bytes, s_bytes)
    &&& row.delta_tokens == delta(tokens, s_tokens)
    &&& row.delta_bytes_vs_baseline == match baseline {
        Some(b) => Some(delta(bytes, measures(b, profile).0)),
        None => None,
    }
    &&& row.delta_tokens_vs_baseline == match baseline {
        Some(b) => Some(delta(tokens, measures(b, profile).1)),
        None => None,
    }
}

/// Whether `report` measures the representations of `d` for `provider`.
pub open spec fn report_measures(
    report: BenchReport,
    source: Seq<char>,
    d: DocumentModel,
    provider: Provider,
    baseline: Option<Seq<char>>,
) -> bool {
    let texts = bench_texts(source, d, provider, baseline);
    let profile = tokenizer_profile_of(provider);
    &&& report.provider@ == provider_name(provider)
    &&& report.tokenizer@ == tokenizer_name(profile)
    &&& report.rows@.len() == texts.len()
    &&& forall|i: int|
        0 <= i < texts.len() ==> row_measures(
            #[trigger] report.rows@[i],
            texts[i].0,
            texts[i].1,
            profile,
            source,
            baseline,
        )
}

/// The text of an optional borrowed string.
pub open spec fn opt_chars(s: Option<&str>) -> Option<Seq<char>> {
    match s {
        Some(t) => Some(t@),
        None => None,
    }
}

/// Whether the tokenizer of `profile` encodes every one of the named texts.
pub open spec fn all_encode(texts: Seq<(Seq<char>, Seq<char>)>, profile: TokenizerProfile) -> bool {
    forall|i: int| 0 <= i < texts.len() ==> encodes(profile, #[trigger] texts[i].1)
}

fn measure_text(counter: &TokenCounter, text: &str) -> (r: Result<(usize, usize), CountError>)
    ensures
        r matches Ok(m) ==> m.0 == byte_len(text@) && m.1 == token_count(counter@, text@),
        r matches Err(e) ==> e == CountError::Encoding,
        r is Ok <==> encodes(counter@, text@),
{
    proof {
        lemma_byte_len_encode(text@);
    }
    let tokens = counter.count(text)?;
    Ok((text.as_bytes().len(), tokens))
}

fn render_text(document: &Document, target: Target, provider: Provider) -> (s: String)
    requires
        document_within_depth(document@),
    ensures
        s@ == transpile_model(document@, target, provider),
{
    match transpile_with_provider(document, target, provider) {
        Ok(s) => s,
        Err(_) => {
            proof {
                assert(false);
            }
            String::new()
        },
    }
}

/// The report of `document`, whose source text is `source`, for `provider`,
/// with an optional baseline text; `Encoding` where the tokenizer gives up
/// on one of the texts.
pub fn measure_document_for_provider(
    source: &str,
    document: &Document,
    provider: Provider,
    baseline: Option<&str>,
) -> (r: Result<BenchReport, CountError>)
    requires
        document_within_depth(document@),
    ensures
        r matches Ok(report) ==> report_measures(report, source@, document@, provider, opt_chars(baseline)),
        r matches Err(e) ==> e == CountError::Encoding,
        r is Ok <==> all_encode(bench_texts(source@, document@, provider, opt_chars(baseline)), tokenizer_profile_of(provider)),
{
    let counter = match TokenCounter::for_provider(provider) {
        Ok(c) => c,
        Err(ProfileError::Unsupported(p)) => {
            return Err(CountError::Unsupported(p));
        },
    };
    let ghost profile = tokenizer_profile_of(provider);
    let mut names: Vec<&'static str> = Vec::new();
    let mut texts: Vec<String> = Vec::new();
    names.push("source");
    texts.push(string_of(source));
    match baseline {
        Some(b) => {
            names.push(BASELINE_ROW_NAME);
            texts.push(string_of(b));
        },
        None => {},
    }
    names.push("plain");
    texts.push(render_text(document, Target::Plain, provider));
    names.push("json-ir");
    texts.push(render_text(document, Target::JsonIr, provider));
    names.push("shadow");
    texts.push(render_text(document, Target::Shadow, provider));
    let ghost expected = bench_texts(source@, document@, provider, opt_chars(baseline));
    assert(names@.len() == expected.len() && texts@.len() == expected.len());
    assert forall|i: int| 0 <= i < expected.len() implies (#[trigger] names@[i])@ == expected[i].0
        && texts@[i]@ == expected[i].1 by {
        match baseline {
            Some(b) => {},
            None => {},
        }
    }
    let source_measures = match measure_text(&counter, source) {
        Ok(m) => m,
        Err(e) => {
            assert(!encodes(profile, expected[0].1));
            return Err(e);
        },
    };
    let baseline_measures = match baseline {
        Some(b) => match measure_text(&counter, b) {
            Ok(m) => Some(m),
            Err(e) => {
                assert(!encodes(profile, expected[1].1));
                return Err(e);
            },
        },
        None => None,
    };
    let mut rows: Vec<BenchRow> = Vec::new();
    let mut i: usize = 0;
    while i < texts.len()
        invariant
            i <= texts@.len(),
            names@.len() == texts@.len(),
            texts@.len() == expected.len(),
            forall|j: int| 0 <= j < expected.len() ==> (#[trigger] names@[j])@ == expected[j].0,
            forall|j: int| 0 <= j < expected.len() ==> (#[trigger] texts@[j])@ == expected[j].1,
            counter@ == profile,
            profile == tokenizer_profile_of(provider),
            expected == bench_texts(source@, document@, provider, opt_chars(baseline)),
            source_measures.0 == byte_len(source@),
            source_measures.1 == token_count(profile, source@),
            baseline_measures is Some <==> baseline is Some,
            baseline_measures matches Some(m) ==> m.0 == byte_len(opt_chars(baseline)->0) && m.1
                == token_count(profile, opt_chars(baseline)->0),
            rows@.len() == i,
            forall|j: int| 0 <= j < i ==> encodes(profile, #[trigger] expected[j].1),
            forall|j: int|
                0 <= j < i ==> row_measures(
                    #[trigger] rows@[j],
                    expected[j].0,
                    expected[j].1,
                    profile,
                    source@,
                    opt_chars(baseline),
                ),
        decreases texts@.len() - i,
    {
        let (bytes, tokens) = match measure_text(&counter, texts[i].as_str()) {
            Ok(m) => m,
            Err(e) => {
                assert(!encodes(profile, expected[i as int].1));
                return Err(e);
            },
        };
        let row = BenchRow::measured(names[i], bytes, tokens, source_measures, baseline_measures);
        rows.push(row);
        i += 1;
    }
    Ok(BenchReport { provider: provider.as_str(), tokenizer: counter.encoding_name(), rows })
}

/// The report of `document` for the generic provider, with an optional
/// baseline text.
pub fn measure_document_with_baseline(source: &str, document: &Document, baseline: Option<&str>) -> (r:
    Result<BenchReport, CountError>)
    requires
        document_within_depth(document@),
    ensures
        r matches Ok(report) ==> report_measures(
            report,
            source@,
            document@,
            Provider::Generic,
            opt_chars(baseline),
        ),
        r matches Err(e) ==> e == CountError::Encoding,
        r is Ok <==> all_encode(bench_texts(source@, document@, Provider::Generic, opt_chars(baseline)), tokenizer_profile_of(Provider::Generic)),
{
    measure_document_for_provider(source, document, Provider::Generic, baseline)
}

/// The report of `document` for the generic provider.
pub fn measure_document(source: &str, document: &Document) -> (r: Result<BenchReport, CountError>)
    requires
        document_within_depth(document@),
    ensures
        r matches Ok(report) ==> report_measures(report, source@, document@, Provider::Generic, None),
        r matches Err(e) ==> e == CountError::Encoding,
        r is Ok <==> all_encode(bench_texts(source@, document@, Provider::Generic, None), tokenizer_profile_of(Provider::Generic)),
{
    measure_document_for_provider(source, document, Provider::Generic, None)
}

// ---------------------------------------------------------------------------
// Rendering.
// ---------------------------------------------------------------------------

/// A delta with its sign: `+0`, `+12`, `-3`.
pub open spec fn signed_text(v: int) -> Seq<char> {
    if v >= 0 {
        "+"@ + decimal(v as nat)
    } else {
        "-"@ + decimal((-v) as nat)
    }
}

/// The width of the name column: the longest name, in bytes.
pub open spec fn name_width(rows: Seq<BenchRow>) -> nat
    decreases rows.len(),
{
    if rows.len() == 0 {
        0
    } else {
        let w = name_width(rows.drop_last());
        let b = byte_len(rows.last().name@);
        if b > w {
            b
        } else {
            w
        }
    }
}

/// `name` followed by spaces up to `width` characters.
pub open spec fn padded(name: Seq<char>, width: nat) -> Seq<char> {
    if name.len() < width {
        name + spaces((width - name.len()) as nat)
    } else {
        name
    }
}

/// One line of a report.
pub open spec fn row_line(row: BenchRow, width: nat) -> Seq<char> {
    padded(row.name@, width) + " | bytes="@ + decimal(row.bytes as nat) + " | tokens="@ + decimal(
        row.tokens as nat,
    ) + " | delta_bytes="@ + signed_text(row.delta_bytes as int) + " | delta_tokens="@
        + signed_text(row.delta_tokens as int) + match row.delta_bytes_vs_baseline {
        Some(v) => " | delta_bytes_vs_baseline="@ + signed_text(v as int),
        None => Seq::empty(),
    } + match row.delta_tokens_vs_baseline {
        Some(v) => " | delta_tokens_vs_baseline="@ + signed_text(v as int),
        None => Seq::empty(),
    }
}

/// The rendered report: the provider, the tokenizer, then one line per row.
pub open spec fn render_model(report: BenchReport) -> Seq<char> {
    let w = name_width(report.rows@);
    join(
        seq!["provider: "@ + report.provider@, "tokenizer: "@ + report.tokenizer@] + report.rows@.map_values(
            |row: BenchRow| row_line(row, w),
        ),
        "\n"@,
    )
}

fn format_signed(value: i128) -> (s: String)
    ensures
        s@ == signed_text(value as int),
{
    if value >= 0 {
        let mut s = string_of("+");
        let digits = decimal_string(value as u128);
        push_str(&mut s, digits.as_str());
        s
    } else {
        let magnitude: u128 = (-(value + 1)) as u128 + 1;
        let mut s = string_of("-");
        let digits = decimal_string(magnitude);
        push_str(&mut s, digits.as_str());
        s
    }
}

fn render_row(row: &BenchRow, width: usize) -> (s: String)
    ensures
        s@ == row_line(*row, width as nat),
{
    let name_chars = chars_of(row.name).len();
    let mut s = string_of(row.name);
    if name_chars < width {
        let pad = spaces_string(width - name_chars);
        push_str(&mut s, pad.as_str());
    }
    push_str(&mut s, " | bytes=");
    let bytes = decimal_string(row.bytes as u128);
    push_str(&mut s, bytes.as_str());
    push_str(&mut s, " | tokens=");
    let tokens = decimal_string(row.tokens as u128);
    push_str(&mut s, tokens.as_str());
    push_str(&mut s, " | delta_bytes=");
    let db = format_signed(row.delta_bytes);
    push_str(&mut s, db.as_str());
    push_str(&mut s, " | delta_tokens=");
    let dt = format_signed(row.delta_tokens);
    push_str(&mut s, dt.as_str());
    match row.delta_bytes_vs_baseline {
        Some(v) => {
            push_str(&mut s, " | delta_bytes_vs_baseline=");
            let t = format_signed(v);
            push_str(&mut s, t.as_str());
        },
        None => {},
    }
    match row.delta_tokens_vs_baseline {
        Some(v) => {
            push_str(&mut s, " | delta_tokens_vs_baseline=");
            let t = format_signed(v);
            push_str(&mut s, t.as_str());
        },
        None => {},
    }
    s
}

impl BenchReport {
    /// The report as text: `provider: ...`, `tokenizer: ...`, then one line
    /// per row with the name column padded to the longest name.
    pub fn render(&self) -> (s: String)
        ensures
            s@ == render_model(*self),
    {
        let mut width: usize = 0;
        let mut i: usize = 0;
        while i < self.rows.len()
            invariant
                i <= self.rows@.len(),
                width == name_width(self.rows@.take(i as int)),
            decreases self.rows@.len() - i,
        {
            let ghost prefix = self.rows@.take(i + 1);
            assert(prefix.drop_last() =~= self.rows@.take(i as int));
            proof {
                lemma_byte_len_encode(self.rows@[i as int].name@);
            }
            let b = self.rows[i].name.as_bytes().len();
            if b > width {
                width = b;
            }
            i += 1;
        }
        assert(self.rows@.take(self.rows@.len() as int) =~= self.rows@);
        let mut lines: Vec<String> = Vec::new();
        let mut head = string_of("provider: ");
        push_str(&mut head, self.provider);
        lines.push(head);
        let mut tok = string_of("tokenizer: ");
        push_str(&mut tok, self.tokenizer);
        lines.push(tok);
        let ghost w = width as nat;
        let ghost header = seq!["provider: "@ + self.provider@, "tokenizer: "@ + self.tokenizer@];
        let mut k: usize = 0;
        while k < self.rows.len()
            invariant
                k <= self.rows@.len(),
                w == name_width(self.rows@),
                width == w,
                lines@.map_values(|l: String| l@) == header + self.rows@.take(k as int).map_values(
                    |row: BenchRow| row_line(row, w),
                ),
            decreases self.rows@.len() - k,
        {
            let line = render_row(&self.rows[k], width);
            let ghost before = lines@.map_values(|l: String| l@);
            let ghost lm = line@;
            lines.push(line);
            assert(lines@.map_values(|l: String| l@) =~= before.push(lm));
            assert(self.rows@.take(k + 1).map_values(|row: BenchRow| row_line(row, w)) =~= self.rows@.take(
                k as int,
            ).map_values(|row: BenchRow| row_line(row, w)).push(row_line(self.rows@[k as int], w)));
            k += 1;
        }
        assert(self.rows@.take(self.rows@.len() as int) =~= self.rows@);
        join_strings(&lines, "\n")
    }
}

// ---------------------------------------------------------------------------
// Laws.
// ---------------------------------------------------------------------------

/// The source row is the reference of every delta, so its deltas are zero;
/// likewise the baseline row against the baseline.
pub proof fn law_reference_rows_are_zero(
    report: BenchReport,
    source: Seq<char>,
    d: DocumentModel,
    provider: Provider,
    baseline: Option<Seq<char>>,
)
    requires
        report_measures(report, source, d, provider, baseline),
    ensures
        report.rows@[0].delta_bytes == 0,
        report.rows@[0].delta_tokens == 0,
        baseline is Some ==> report.rows@[1].delta_bytes_vs_baseline == Some(0i128)
            && report.rows@[1].delta_tokens_vs_baseline == Some(0i128),
{
    let texts = bench_texts(source, d, provider, baseline);
    assert(texts[0] == ("source"@, source));
    assert(row_measures(report.rows@[0], texts[0].0, texts[0].1, tokenizer_profile_of(provider), source, baseline));
    if baseline is Some {
        assert(texts[1] == ("baseline"@, baseline->0));
        assert(row_measures(report.rows@[1], texts[1].0, texts[1].1, tokenizer_profile_of(provider), source, baseline));
    }
}

} // verus!
