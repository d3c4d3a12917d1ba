use llm_format::provider::Provider;
use llm_format::transpile::json_ir::JsonIrEmitter;
use llm_format::transpile::plain::PlainEmitter;
use llm_format::transpile::shadow::{emit_with_provider, ShadowEmitter};
use llm_format::transpile::{self, Emitter, Target};
use llm_format::{parse_str, validate_document, Document};

const MINIMAL: &str = "agent: DataExtractor\nsystem:\n  role: financial_analyst\n  output: json\nmemory:\n  - user_history\n";
const QUOTED: &str = "agent: \"Data Extractor\"\nsystem:\n  role: \"financial analyst\"\nuser: \"Summarize \\\"Q1\\\" results\"\nvars:\n  company: \"Acme Corp\"\n  region: apac\n";

fn parse_valid_document(source: &str) -> Document {
    let document = parse_str(source).expect("fixture should parse");
    let diagnostics = validate_document(&document);
    assert!(
        !diagnostics.has_errors(),
        "expected no validation errors, got: {}",
        diagnostics.to_string()
    );
    document
}

#[test]
fn plain_transpile_matches_minimal_fixture() {
    let document = parse_valid_document(MINIMAL);
    let rendered = transpile::transpile(&document, Target::Plain);
    assert_eq!(
        rendered,
        "agent: DataExtractor\nsystem:\n  role: financial_analyst\n  output: json\nmemory:\n  - user_history"
    );
}

#[test]
fn json_ir_transpile_matches_minimal_fixture() {
    let document = parse_valid_document(MINIMAL);
    let rendered = transpile::transpile(&document, Target::JsonIr);
    assert_eq!(
        rendered,
        "{\n  \"agent\": \"DataExtractor\",\n  \"system\": {\n    \"role\": \"financial_analyst\",\n    \"output\": \"json\"\n  },\n  \"memory\": [\n    \"user_history\"\n  ]\n}"
    );
}

#[test]
fn plain_transpile_quotes_non_bare_scalars_in_quoted_fixture() {
    let document = parse_valid_document(QUOTED);
    let rendered = transpile::transpile(&document, Target::Plain);
    assert_eq!(
        rendered,
        "agent: \"Data Extractor\"\nsystem:\n  role: \"financial analyst\"\nuser: \"Summarize \\\"Q1\\\" results\"\nvars:\n  company: \"Acme Corp\"\n  region: apac"
    );
}

#[test]
fn json_ir_transpile_matches_quoted_fixture() {
    let document = parse_valid_document(QUOTED);
    let rendered = transpile::transpile(&document, Target::JsonIr);
    assert_eq!(
        rendered,
        "{\n  \"agent\": \"Data Extractor\",\n  \"system\": {\n    \"role\": \"financial analyst\"\n  },\n  \"user\": \"Summarize \\\"Q1\\\" results\",\n  \"vars\": {\n    \"company\": \"Acme Corp\",\n    \"region\": \"apac\"\n  }\n}"
    );
}

#[test]
fn transpile_outputs_are_deterministic_across_repeated_calls() {
    let document = parse_valid_document(QUOTED);
    let first_plain = transpile::transpile(&document, Target::Plain);
    let second_plain = transpile::transpile(&document, Target::Plain);
    let first_json = transpile::transpile(&document, Target::JsonIr);
    let second_json = transpile::transpile(&document, Target::JsonIr);
    let first_shadow = transpile::transpile(&document, Target::Shadow);
    let second_shadow = transpile::transpile(&document, Target::Shadow);

    assert_eq!(first_plain, second_plain);
    assert_eq!(first_json, second_json);
    assert_eq!(first_shadow, second_shadow);
}

#[test]
fn shadow_transpile_matches_minimal_fixture() {
    let document = parse_valid_document(MINIMAL);
    let rendered = transpile::transpile(&document, Target::Shadow);
    assert_eq!(
        rendered,
        "@a=\"DataExtractor\"\n@s={role=\"financial_analyst\";output=\"json\"}\n@m=[\"user_history\"]"
    );
}

#[test]
fn shadow_transpile_matches_quoted_fixture() {
    let document = parse_valid_document(QUOTED);
    let rendered = transpile::transpile(&document, Target::Shadow);
    assert_eq!(
        rendered,
        "@a=\"Data Extractor\"\n@s={role=\"financial analyst\"}\n@u=\"Summarize \\\"Q1\\\" results\"\n@v={company=\"Acme Corp\";region=\"apac\"}"
    );
}

#[test]
fn shadow_transpile_matches_explicit_generic_provider() {
    let document = parse_valid_document(MINIMAL);
    let rendered = transpile::transpile_with_provider(&document, Target::Shadow, Provider::Generic)
        .expect("generic provider should support shadow");
    assert_eq!(
        rendered,
        "@a=\"DataExtractor\"\n@s={role=\"financial_analyst\";output=\"json\"}\n@m=[\"user_history\"]"
    );
}

#[test]
fn shadow_transpile_matches_explicit_openai_provider() {
    let document = parse_valid_document(MINIMAL);
    let rendered = transpile::transpile_with_provider(&document, Target::Shadow, Provider::Openai)
        .expect("openai provider should support shadow");
    assert_eq!(
        rendered,
        "@a=\"DataExtractor\"\n@s={role=\"financial_analyst\";output=\"json\"}\n@m=[\"user_history\"]"
    );
}

#[test]
fn shadow_transpile_anthropic_produces_v1_xml_output() {
    let document = parse_valid_document(MINIMAL);
    let rendered =
        transpile::transpile_with_provider(&document, Target::Shadow, Provider::Anthropic)
            .expect("anthropic provider should succeed");
    assert!(rendered.contains("<agent>DataExtractor</agent>"));
    assert!(rendered.contains("<memory>"));
}

#[test]
fn emitters_agree_with_transpile() {
    let document = parse_valid_document(QUOTED);
    assert_eq!(PlainEmitter.emit(&document), transpile::transpile(&document, Target::Plain));
    assert_eq!(JsonIrEmitter.emit(&document), transpile::transpile(&document, Target::JsonIr));
    assert_eq!(ShadowEmitter.emit(&document), transpile::transpile(&document, Target::Shadow));
    assert_eq!(
        emit_with_provider(&document, Provider::Anthropic).expect("supported"),
        transpile::transpile_with_provider(&document, Target::Shadow, Provider::Anthropic)
            .expect("supported")
    );
}

#[test]
fn shadow_v1_nested_values_and_escapes() {
    let document = parse_valid_document(
        "agent: \"A \\\"B\\\"\"\nsystem: plain\noutput:\n  format:\n    - x\n",
    );
    let rendered =
        transpile::transpile_with_provider(&document, Target::Shadow, Provider::Anthropic)
            .expect("anthropic provider should succeed");
    assert_eq!(
        rendered,
        "<agent>A \"B\"</agent>\n<system>plain</system>\n<output>\nformat: [\"x\"]\n</output>"
    );
    let v0 = transpile::transpile(&document, Target::Shadow);
    assert_eq!(
        v0,
        "@a=\"A \\\"B\\\"\"\n@s=\"plain\"\n@o={format=[\"x\"]}"
    );
}

#[test]
fn json_ir_of_empty_document_is_empty_object() {
    assert_eq!(transpile::transpile(&Document::new(), Target::JsonIr), "{}");
    assert_eq!(transpile::transpile(&Document::new(), Target::Plain), "");
    assert_eq!(transpile::transpile(&Document::new(), Target::Shadow), "");
}

#[test]
fn plain_equals_fmt_when_no_value_holds_a_reference() {
    let source = "agent: A\nsystem: \"costs {1x} and {unclosed\"\nvars:\n  region: apac\n";
    let document = parse_valid_document(source);
    let plain = PlainEmitter.emit(&document);
    assert_eq!(plain, llm_format::format_document(&document));
    assert!(plain.contains("{1x}"));
}

#[test]
fn plain_differs_from_fmt_once_a_bound_reference_appears() {
    let source = "agent: A\nsystem: \"sell in {region}\"\nvars:\n  region: apac\n";
    let document = parse_valid_document(source);
    let plain = PlainEmitter.emit(&document);
    assert_ne!(plain, llm_format::format_document(&document));
    assert!(plain.contains("sell in apac"));
}

#[test]
fn plain_and_json_ir_ignore_the_provider() {
    let document = parse_valid_document(QUOTED);
    for target in [Target::Plain, Target::JsonIr] {
        let generic = transpile::transpile_with_provider(&document, target, Provider::Generic).unwrap();
        for provider in [Provider::Openai, Provider::Anthropic] {
            let other = transpile::transpile_with_provider(&document, target, provider).unwrap();
            assert_eq!(generic, other);
        }
    }
}
