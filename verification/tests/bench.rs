use llm_format::bench::tokenizer::{count_tokens, CountError, TokenCounter, DEFAULT_ENCODING_NAME};
use llm_format::bench::{
    measure_document, measure_document_for_provider, measure_document_with_baseline, BenchReport,
    BenchRow, BASELINE_ROW_NAME,
};
use llm_format::provider::{Provider, TokenizerProfile};
use llm_format::transpile::{self, Target};
use llm_format::{parse_str, validate_document};

const MINIMAL: &str = "agent: DataExtractor\nsystem:\n  role: financial_analyst\n  output: json\nmemory:\n  - user_history\n";
const QUOTED: &str = "agent: \"Data Extractor\"\nsystem:\n  role: \"financial analyst\"\nuser: \"Summarize \\\"Q1\\\" results\"\nvars:\n  company: \"Acme Corp\"\n  region: apac\n";
const MINIMAL_BASELINE: &str = "# Agent\n\nYou are **DataExtractor**.\n\n## System\n\n- Role: financial analyst\n- Output: JSON\n\n## Memory\n\n- user history\n";
const QUOTED_BASELINE: &str = "# Agent: Data Extractor\n\nRole: financial analyst.\n\nSummarize \"Q1\" results for Acme Corp in apac.\n";

fn parse_valid_document(source: &str) -> llm_format::Document {
    let document = parse_str(source).expect("fixture should parse");
    let diagnostics = validate_document(&document);
    assert!(
        !diagnostics.has_errors(),
        "expected no validation errors, got: {}",
        diagnostics.to_string()
    );
    document
}

fn assert_report_matches_representations(source: &str, report: &BenchReport) {
    let document = parse_valid_document(source);
    let representations = [
        ("source", source.to_owned()),
        ("plain", transpile::transpile(&document, Target::Plain)),
        ("json-ir", transpile::transpile(&document, Target::JsonIr)),
        ("shadow", transpile::transpile(&document, Target::Shadow)),
    ];

    assert_eq!(report.tokenizer, DEFAULT_ENCODING_NAME);
    assert_eq!(report.rows.len(), representations.len());

    let baseline_bytes = source.len() as i128;
    let baseline_tokens = count_tokens(source).expect("token count should succeed") as i128;

    for (row, (expected_name, expected_text)) in report.rows.iter().zip(representations.iter()) {
        assert_eq!(row.name, *expected_name);
        assert_eq!(row.bytes, expected_text.len());
        assert_eq!(
            row.tokens,
            count_tokens(expected_text).expect("token count should succeed")
        );
        assert_eq!(row.delta_bytes, row.bytes as i128 - baseline_bytes);
        assert_eq!(row.delta_tokens, row.tokens as i128 - baseline_tokens);
        assert_eq!(row.delta_bytes_vs_baseline, None);
        assert_eq!(row.delta_tokens_vs_baseline, None);
    }
}

fn assert_report_matches_representations_with_baseline(
    source: &str,
    baseline: &str,
    report: &BenchReport,
) {
    let document = parse_valid_document(source);
    let representations = [
        ("source", source.to_owned()),
        (BASELINE_ROW_NAME, baseline.to_owned()),
        ("plain", transpile::transpile(&document, Target::Plain)),
        ("json-ir", transpile::transpile(&document, Target::JsonIr)),
        ("shadow", transpile::transpile(&document, Target::Shadow)),
    ];

    assert_eq!(report.tokenizer, DEFAULT_ENCODING_NAME);
    assert_eq!(report.rows.len(), representations.len());

    let source_bytes = source.len() as i128;
    let source_tokens = count_tokens(source).expect("token count should succeed") as i128;
    let baseline_bytes = baseline.len() as i128;
    let baseline_tokens = count_tokens(baseline).expect("token count should succeed") as i128;

    for (row, (expected_name, expected_text)) in report.rows.iter().zip(representations.iter()) {
        assert_eq!(row.name, *expected_name);
        assert_eq!(row.bytes, expected_text.len());
        assert_eq!(
            row.tokens,
            count_tokens(expected_text).expect("token count should succeed")
        );
        assert_eq!(row.delta_bytes, row.bytes as i128 - source_bytes);
        assert_eq!(row.delta_tokens, row.tokens as i128 - source_tokens);
        assert_eq!(
            row.delta_bytes_vs_baseline,
            Some(row.bytes as i128 - baseline_bytes)
        );
        assert_eq!(
            row.delta_tokens_vs_baseline,
            Some(row.tokens as i128 - baseline_tokens)
        );
    }
}

#[test]
fn bench_report_measures_minimal_fixture_representations() {
    let document = parse_valid_document(MINIMAL);
    let report = measure_document(MINIMAL, &document).expect("bench report should build");
    assert_report_matches_representations(MINIMAL, &report);
}

#[test]
fn bench_report_measures_quoted_fixture_representations() {
    let document = parse_valid_document(QUOTED);
    let report = measure_document(QUOTED, &document).expect("bench report should build");
    assert_report_matches_representations(QUOTED, &report);
}

#[test]
fn bench_report_measures_minimal_fixture_with_baseline() {
    let document = parse_valid_document(MINIMAL);
    let report = measure_document_with_baseline(MINIMAL, &document, Some(MINIMAL_BASELINE))
        .expect("bench report with baseline should build");
    assert_report_matches_representations_with_baseline(MINIMAL, MINIMAL_BASELINE, &report);
}

#[test]
fn bench_report_measures_quoted_fixture_with_baseline() {
    let document = parse_valid_document(QUOTED);
    let report = measure_document_with_baseline(QUOTED, &document, Some(QUOTED_BASELINE))
        .expect("bench report with baseline should build");
    assert_report_matches_representations_with_baseline(QUOTED, QUOTED_BASELINE, &report);
}

#[test]
fn bench_output_rows_match_recorded_counts() {
    // The transpiled outputs of the minimal document measure: plain 94 bytes
    // / 26 tokens, json-ir 141 / 46, shadow 82 / 23 (cl100k_base); anthropic
    // shadow 129 / 39 (o200k_base).
    let document = parse_valid_document(MINIMAL);
    let generic = measure_document_for_provider(MINIMAL, &document, Provider::Generic, None)
        .expect("generic report");
    let rows: Vec<(&str, usize, usize)> = generic
        .rows
        .iter()
        .map(|row| (row.name, row.bytes, row.tokens))
        .collect();
    assert_eq!(rows[1], ("plain", 94, 26));
    assert_eq!(rows[2], ("json-ir", 141, 46));
    assert_eq!(rows[3], ("shadow", 82, 23));

    let anthropic = measure_document_for_provider(MINIMAL, &document, Provider::Anthropic, None)
        .expect("anthropic report");
    assert_eq!(anthropic.provider, "anthropic");
    assert_eq!(anthropic.tokenizer, "o200k_base");
    assert_eq!(
        (anthropic.rows[3].name, anthropic.rows[3].bytes, anthropic.rows[3].tokens),
        ("shadow", 129, 39)
    );
}

#[test]
fn bench_render_pads_names_and_signs_deltas() {
    let report = BenchReport {
        provider: "generic",
        tokenizer: "cl100k_base",
        rows: vec![
            BenchRow::measured("source", 101, 27, (101, 27), None),
            BenchRow::measured("plain", 94, 26, (101, 27), None),
            BenchRow::measured("json-ir", 141, 46, (101, 27), None),
            BenchRow::measured("shadow", 82, 23, (101, 27), None),
        ],
    };
    assert_eq!(
        report.render(),
        "provider: generic\ntokenizer: cl100k_base\nsource  | bytes=101 | tokens=27 | delta_bytes=+0 | delta_tokens=+0\nplain   | bytes=94 | tokens=26 | delta_bytes=-7 | delta_tokens=-1\njson-ir | bytes=141 | tokens=46 | delta_bytes=+40 | delta_tokens=+19\nshadow  | bytes=82 | tokens=23 | delta_bytes=-19 | delta_tokens=-4"
    );
}

#[test]
fn bench_render_with_baseline_columns() {
    let source = (242, 57);
    let baseline = Some((217, 54));
    let report = BenchReport {
        provider: "generic",
        tokenizer: "cl100k_base",
        rows: vec![
            BenchRow::measured("source", 242, 57, source, baseline),
            BenchRow::measured("baseline", 217, 54, source, baseline),
            BenchRow::measured("plain", 233, 60, source, baseline),
            BenchRow::measured("json-ir", 312, 89, source, baseline),
            BenchRow::measured("shadow", 202, 49, source, baseline),
        ],
    };
    assert_eq!(
        report.render(),
        "provider: generic\ntokenizer: cl100k_base\nsource   | bytes=242 | tokens=57 | delta_bytes=+0 | delta_tokens=+0 | delta_bytes_vs_baseline=+25 | delta_tokens_vs_baseline=+3\nbaseline | bytes=217 | tokens=54 | delta_bytes=-25 | delta_tokens=-3 | delta_bytes_vs_baseline=+0 | delta_tokens_vs_baseline=+0\nplain    | bytes=233 | tokens=60 | delta_bytes=-9 | delta_tokens=+3 | delta_bytes_vs_baseline=+16 | delta_tokens_vs_baseline=+6\njson-ir  | bytes=312 | tokens=89 | delta_bytes=+70 | delta_tokens=+32 | delta_bytes_vs_baseline=+95 | delta_tokens_vs_baseline=+35\nshadow   | bytes=202 | tokens=49 | delta_bytes=-40 | delta_tokens=-8 | delta_bytes_vs_baseline=-15 | delta_tokens_vs_baseline=-5"
    );
}

#[test]
fn bench_render_extreme_deltas() {
    let report = BenchReport {
        provider: "openai",
        tokenizer: "cl100k_base",
        rows: vec![BenchRow {
            name: "x",
            bytes: 0,
            tokens: 0,
            delta_bytes: i128::MIN,
            delta_tokens: i128::MAX,
            delta_bytes_vs_baseline: None,
            delta_tokens_vs_baseline: Some(-5),
        }],
    };
    assert_eq!(
        report.render(),
        format!(
            "provider: openai\ntokenizer: cl100k_base\nx | bytes=0 | tokens=0 | delta_bytes={} | delta_tokens=+{} | delta_tokens_vs_baseline=-5",
            i128::MIN,
            i128::MAX
        )
    );
}

#[test]
fn token_counters_follow_provider_profiles() {
    let generic = TokenCounter::new().expect("generic counter");
    assert_eq!(generic.encoding_name(), "cl100k_base");
    let anthropic = TokenCounter::for_provider(Provider::Anthropic).expect("anthropic counter");
    assert_eq!(anthropic.encoding_name(), "o200k_base");
    assert_eq!(TokenizerProfile::O200kBase.identifier(), "o200k_base");
    assert_eq!(generic.count(""), Ok(0));
    assert_eq!(generic.count("hello world"), Ok(2));
    assert_eq!(count_tokens("hello world").expect("count"), 2);
    assert_eq!(anthropic.count("hello world"), Ok(2));
}

#[test]
fn source_row_deltas_are_zero() {
    let document = parse_valid_document(QUOTED);
    let report = measure_document_with_baseline(QUOTED, &document, Some(QUOTED_BASELINE))
        .expect("report");
    assert_eq!(report.rows[0].delta_bytes, 0);
    assert_eq!(report.rows[0].delta_tokens, 0);
    assert_eq!(report.rows[1].delta_bytes_vs_baseline, Some(0));
    assert_eq!(report.rows[1].delta_tokens_vs_baseline, Some(0));
}

#[test]
fn a_text_the_tokenizer_gives_up_on_is_an_encoding_error() {
    let text = format!("a{}b", " ".repeat(1_000_001));
    assert_eq!(count_tokens(&text), Err(CountError::Encoding));
    let anthropic = TokenCounter::for_provider(Provider::Anthropic).expect("anthropic counter");
    assert_eq!(anthropic.count(&text), Err(CountError::Encoding));
}
