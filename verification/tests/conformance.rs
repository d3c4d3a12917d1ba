use llm_format::provider::Provider;
use llm_format::transpile::{self, Target};
use llm_format::{format_document, parse_str, validate_document, DiagnosticPhase, TopLevelKey};

const MINIMAL: &str = "agent: DataExtractor\nsystem:\n  role: financial_analyst\n  output: json\nmemory:\n  - user_history\n";
const QUOTED: &str = "agent: \"Data Extractor\"\nsystem:\n  role: \"financial analyst\"\nuser: \"Summarize \\\"Q1\\\" results\"\nvars:\n  company: \"Acme Corp\"\n  region: apac\n";
const EXTRACTOR: &str = "agent: Extractor\nsystem:\n  role: financial_analyst\n  objective: \"extract structured facts\"\nuser:\n  prompt: \"summarize the quarterly filing\"\ntools:\n  - web_search\n  - calculator\nconstraints:\n  - cite_sources\n  - stay_provider_agnostic\n";
const JSON_OUTPUT: &str = "agent: DataExtractor\nsystem:\n  role: financial_analyst\n  output: json\noutput:\n  schema: invoice_summary\nvars:\n  region: apac\n  currency: usd\n";
const MESSY: &str = "# a messy but valid document\n\nvars:\n  region:   apac\n  company: 'Acme Corp'\nuser:   \"Summarize \\\"Q1\\\" results\"\n\n   # an indented comment\nsystem:\n  role:    \"financial analyst\"\nagent:  \"Data Extractor\"\n";
const VARS_SEQUENCE: &str = "agent: DataExtractor\nvars:\n  - not_allowed\n";

const SHADOW_EXTRACTOR: &str = "@a=\"Extractor\"\n@s={role=\"financial_analyst\";objective=\"extract structured facts\"}\n@u={prompt=\"summarize the quarterly filing\"}\n@t=[\"web_search\",\"calculator\"]\n@c=[\"cite_sources\",\"stay_provider_agnostic\"]";
const SHADOW_JSON_OUTPUT: &str = "@a=\"DataExtractor\"\n@s={role=\"financial_analyst\";output=\"json\"}\n@o={schema=\"invoice_summary\"}\n@v={region=\"apac\";currency=\"usd\"}";
const PLAIN_MINIMAL: &str = "agent: DataExtractor\nsystem:\n  role: financial_analyst\n  output: json\nmemory:\n  - user_history";
const PLAIN_QUOTED: &str = "agent: \"Data Extractor\"\nsystem:\n  role: \"financial analyst\"\nuser: \"Summarize \\\"Q1\\\" results\"\nvars:\n  company: \"Acme Corp\"\n  region: apac";
const JSON_IR_MINIMAL: &str = "{\n  \"agent\": \"DataExtractor\",\n  \"system\": {\n    \"role\": \"financial_analyst\",\n    \"output\": \"json\"\n  },\n  \"memory\": [\n    \"user_history\"\n  ]\n}";
const SHADOW_MINIMAL: &str =
    "@a=\"DataExtractor\"\n@s={role=\"financial_analyst\";output=\"json\"}\n@m=[\"user_history\"]";
const SHADOW_QUOTED: &str = "@a=\"Data Extractor\"\n@s={role=\"financial analyst\"}\n@u=\"Summarize \\\"Q1\\\" results\"\n@v={company=\"Acme Corp\";region=\"apac\"}";
const FORMATTER_CANONICAL_MESSY: &str = "agent: \"Data Extractor\"\nsystem:\n  role: \"financial analyst\"\nuser: \"Summarize \\\"Q1\\\" results\"\nvars:\n  region: apac\n  company: \"Acme Corp\"";
const SHADOW_V1_MINIMAL: &str = "<agent>DataExtractor</agent>\n<system>\nrole: financial_analyst\noutput: json\n</system>\n<memory>\n<item>user_history</item>\n</memory>";
const SHADOW_V1_EXTRACTOR: &str = "<agent>Extractor</agent>\n<system>\nrole: financial_analyst\nobjective: extract structured facts\n</system>\n<user>\nprompt: summarize the quarterly filing\n</user>\n<tools>\n<tool>web_search</tool>\n<tool>calculator</tool>\n</tools>\n<constraints>\n<rule>cite_sources</rule>\n<rule>stay_provider_agnostic</rule>\n</constraints>";

fn parse_valid_document(source: &str) -> llm_format::Document {
    let document = parse_str(source).expect("fixture should parse");
    let diagnostics = validate_document(&document);
    assert!(
        !diagnostics.has_errors(),
        "expected no validation errors, got: {}",
        diagnostics.to_string()
    );
    document
}

#[test]
fn conformance_parse_accepts_canonical_valid_fixtures() {
    for (name, fixture) in [("minimal", MINIMAL), ("quoted", QUOTED), ("extractor", EXTRACTOR)] {
        if let Err(diagnostics) = parse_str(fixture) {
            panic!(
                "expected {name} fixture to parse, got: {}",
                diagnostics.to_string()
            );
        }
    }
}

#[test]
fn conformance_parse_rejects_known_invalid_surface_fixtures() {
    let unknown_key = parse_str("agent: DataExtractor\npersona: analyst\n")
        .expect_err("unknown key fixture should fail");
    assert_eq!(
        unknown_key.to_string(),
        "syntax error at 2:1: [E013] unknown top-level key `persona`"
    );

    let missing_colon =
        parse_str("agent DataExtractor\n").expect_err("missing colon fixture should fail");
    assert_eq!(
        missing_colon.to_string(),
        "syntax error at 1:6: [E006] expected `:` after mapping key"
    );

    let duplicate_top_level = parse_str("agent: One\nagent: Two\n")
        .expect_err("duplicate top-level fixture should fail");
    assert_eq!(
        duplicate_top_level.to_string(),
        "syntax error at 2:1: [E014] duplicate top-level key `agent`"
    );
}

#[test]
fn conformance_validation_rejects_document_without_agent_key() {
    let source = "system:\n  role: assistant";
    let document = parse_str(source).expect("missing-agent source should parse");
    let diagnostics = validate_document(&document);
    assert!(
        diagnostics.has_errors(),
        "expected validation errors for document missing the agent key"
    );
    assert!(
        diagnostics.iter().any(|d| d.message.contains("agent")),
        "expected diagnostic mentioning 'agent', got: {}",
        diagnostics.to_string()
    );
}

#[test]
fn conformance_validation_rejects_known_semantic_failures() {
    let vars_fixture =
        parse_str(VARS_SEQUENCE).expect("vars-sequence fixture should parse before validation");
    let vars_diagnostics = validate_document(&vars_fixture);
    let vars_error = vars_diagnostics
        .iter()
        .find(|diagnostic| diagnostic.message.contains("`vars`"))
        .expect("expected vars validation diagnostic");
    assert_eq!(vars_error.phase, DiagnosticPhase::Semantic);
    assert_eq!(
        vars_error.to_string(),
        "semantic error at 2:1: [E109] `vars` must be a mapping of scalar values"
    );

    let duplicate_mapping_source = "\nagent: DataExtractor\nsystem:\n  role: first\n  role: second\n";
    let duplicate_mapping_document =
        parse_str(duplicate_mapping_source).expect("duplicate mapping fixture should parse");
    let duplicate_mapping_diagnostics = validate_document(&duplicate_mapping_document);
    let duplicate_mapping_error = duplicate_mapping_diagnostics
        .iter()
        .find(|diagnostic| diagnostic.message.contains("duplicate key `role`"))
        .expect("expected duplicate-key diagnostic");
    assert_eq!(duplicate_mapping_error.phase, DiagnosticPhase::Semantic);
    assert_eq!(
        duplicate_mapping_error.to_string(),
        "semantic error at 5:3: [E102] duplicate key `role` in `system`"
    );
}

#[test]
fn conformance_formatter_is_canonical_and_idempotent() {
    let minimal_document = parse_valid_document(MINIMAL);
    assert_eq!(format_document(&minimal_document), PLAIN_MINIMAL);

    let quoted_document = parse_valid_document(QUOTED);
    assert_eq!(format_document(&quoted_document), PLAIN_QUOTED);

    let first = format_document(&parse_valid_document(MESSY));
    assert_eq!(first, FORMATTER_CANONICAL_MESSY);

    let second = format_document(&parse_valid_document(&first));
    assert_eq!(first, second);
}

#[test]
fn conformance_plain_and_json_ir_outputs_are_deterministic() {
    let document = parse_valid_document(MINIMAL);

    let first_plain = transpile::transpile(&document, Target::Plain);
    let second_plain = transpile::transpile(&document, Target::Plain);
    assert_eq!(first_plain, second_plain);
    assert_eq!(first_plain, PLAIN_MINIMAL);

    let first_json_ir = transpile::transpile(&document, Target::JsonIr);
    let second_json_ir = transpile::transpile(&document, Target::JsonIr);
    assert_eq!(first_json_ir, second_json_ir);
    assert_eq!(first_json_ir, JSON_IR_MINIMAL);
}

#[test]
fn conformance_shadow_output_is_deterministic_for_supported_providers() {
    let minimal_document = parse_valid_document(MINIMAL);
    let quoted_document = parse_valid_document(QUOTED);

    let default_shadow = transpile::transpile(&minimal_document, Target::Shadow);
    let generic_shadow =
        transpile::transpile_with_provider(&minimal_document, Target::Shadow, Provider::Generic)
            .expect("generic shadow transpilation should succeed");
    let openai_shadow =
        transpile::transpile_with_provider(&minimal_document, Target::Shadow, Provider::Openai)
            .expect("openai shadow transpilation should succeed");

    assert_eq!(default_shadow, SHADOW_MINIMAL);
    assert_eq!(generic_shadow, SHADOW_MINIMAL);
    assert_eq!(openai_shadow, SHADOW_MINIMAL);
    assert_eq!(default_shadow, generic_shadow);

    let quoted_shadow = transpile::transpile(&quoted_document, Target::Shadow);
    assert_eq!(quoted_shadow, SHADOW_QUOTED);
}

#[test]
fn conformance_anthropic_shadow_produces_v1_xml_encoding() {
    let document = parse_valid_document(MINIMAL);
    let output = transpile::transpile_with_provider(&document, Target::Shadow, Provider::Anthropic)
        .expect("anthropic shadow should succeed");
    assert_eq!(output, SHADOW_V1_MINIMAL);
}

#[test]
fn conformance_anthropic_shadow_differs_from_generic_v0() {
    let document = parse_valid_document(MINIMAL);
    let v0 = transpile::transpile_with_provider(&document, Target::Shadow, Provider::Generic)
        .expect("generic shadow should succeed");
    let v1 = transpile::transpile_with_provider(&document, Target::Shadow, Provider::Anthropic)
        .expect("anthropic shadow should succeed");
    assert_ne!(v0, v1, "V0 and V1Anthropic shadow output must differ");
}

#[test]
fn conformance_anthropic_shadow_extractor_matches_v1_contract() {
    let document = parse_valid_document(EXTRACTOR);
    let output = transpile::transpile_with_provider(&document, Target::Shadow, Provider::Anthropic)
        .expect("anthropic extractor shadow should succeed");
    assert_eq!(output, SHADOW_V1_EXTRACTOR);
}

#[test]
fn conformance_shadow_extractor_fixture_matches_stable_contract() {
    let document = parse_valid_document(EXTRACTOR);
    let shadow = transpile::transpile(&document, Target::Shadow);
    assert_eq!(shadow, SHADOW_EXTRACTOR);
}

#[test]
fn conformance_shadow_json_output_fixture_covers_output_and_vars_markers() {
    let document = parse_valid_document(JSON_OUTPUT);
    let shadow = transpile::transpile(&document, Target::Shadow);
    assert_eq!(shadow, SHADOW_JSON_OUTPUT);
}

#[test]
fn conformance_shadow_absent_keys_are_omitted_not_emitted_empty() {
    let source = "agent: OnlyAgent\nsystem: handle requests";
    let document = parse_valid_document(source);
    let shadow = transpile::transpile(&document, Target::Shadow);
    assert_eq!(shadow, "@a=\"OnlyAgent\"\n@s=\"handle requests\"");
    assert!(
        !shadow.contains("@m"),
        "absent memory key must not appear in shadow output"
    );
    assert!(
        !shadow.contains("@t"),
        "absent tools key must not appear in shadow output"
    );
}

#[test]
fn conformance_shadow_generic_and_openai_produce_identical_output() {
    let document = parse_valid_document(EXTRACTOR);
    let generic = transpile::transpile_with_provider(&document, Target::Shadow, Provider::Generic)
        .expect("generic shadow should succeed");
    let openai = transpile::transpile_with_provider(&document, Target::Shadow, Provider::Openai)
        .expect("openai shadow should succeed");
    assert_eq!(generic, openai);
    assert_eq!(generic, SHADOW_EXTRACTOR);
}

#[test]
fn conformance_missing_agent_diagnostic_carries_e101_code() {
    let source = "system:\n  role: assistant";
    let document = parse_str(source).expect("missing-agent source should parse");
    let diagnostics = validate_document(&document);
    assert!(diagnostics.has_errors());
    let e101 = diagnostics
        .iter()
        .find(|d| d.code == Some("E101"))
        .expect("expected a diagnostic with code E101 for missing agent");
    assert_eq!(e101.phase, DiagnosticPhase::Semantic);
    assert!(e101.message.contains("agent"));
}

#[test]
fn conformance_e114_undefined_var_reference_is_rejected() {
    let document = parse_str("agent: Agent\nsystem: \"Query {unknown_var}\"\nvars:\n  region: apac\n")
        .expect("fixture should parse");
    let diagnostics = validate_document(&document);
    assert!(diagnostics.has_errors(), "expected E114 validation error");
    let e114 = diagnostics
        .iter()
        .find(|d| d.code == Some("E114"))
        .expect("expected E114 diagnostic");
    assert!(
        e114.message.contains("unknown_var"),
        "expected var name in E114 message, got: {}",
        e114.message
    );
}

#[test]
fn conformance_vars_expansion_in_plain_output() {
    let source = "agent: Pipeline\nsystem: \"Run query on {source}\"\nvars:\n  source: orders_raw";
    let document = parse_valid_document(source);
    let output = transpile::transpile(&document, Target::Plain);
    assert!(
        output.contains("orders_raw"),
        "expected expanded var value in plain output, got: {output}"
    );
    assert!(
        !output.contains("{source}"),
        "expected {{source}} to be expanded in plain output, got: {output}"
    );
}

#[test]
fn conformance_vars_expansion_in_shadow_output_v0() {
    let source = "agent: Pipeline\nsystem: \"Run query on {source}\"\nvars:\n  source: orders_raw";
    let document = parse_valid_document(source);
    let output = transpile::transpile(&document, Target::Shadow);
    assert!(
        output.contains("orders_raw"),
        "expected expanded var value in V0 shadow output, got: {output}"
    );
    assert!(
        !output.contains("{source}"),
        "expected {{source}} to be expanded in V0 shadow output, got: {output}"
    );
}

#[test]
fn conformance_vars_expansion_in_shadow_output_v1_anthropic() {
    let source = "agent: Pipeline\nsystem: \"Run query on {source}\"\nvars:\n  source: orders_raw";
    let document = parse_valid_document(source);
    let output = transpile::transpile_with_provider(&document, Target::Shadow, Provider::Anthropic)
        .expect("anthropic shadow should succeed");
    assert!(
        output.contains("orders_raw"),
        "expected expanded var value in V1 anthropic shadow output, got: {output}"
    );
    assert!(
        !output.contains("{source}"),
        "expected {{source}} to be expanded in V1 anthropic shadow output, got: {output}"
    );
}

#[test]
fn conformance_fmt_preserves_var_references_verbatim() {
    let source = "agent: Pipeline\nsystem: \"Run query on {source}\"\nvars:\n  source: orders_raw";
    let document = parse_valid_document(source);
    let formatted = format_document(&document);
    assert!(
        formatted.contains("{source}"),
        "expected fmt to preserve {{source}} verbatim, got: {formatted}"
    );
}

#[test]
fn conformance_undefined_var_with_no_vars_block_emits_e114() {
    let source = "agent: Agent\nsystem: \"Connect to {unknown}\"";
    let document = parse_str(source).expect("should parse");
    let diagnostics = validate_document(&document);
    assert!(
        diagnostics.iter().any(|d| d.code == Some("E114")),
        "expected E114 when no vars block exists"
    );
}

#[test]
fn conformance_vars_expansion_is_non_recursive() {
    let source = "agent: Agent\nsystem: \"value is {a}\"\nvars:\n  a: \"{b}\"\n  b: final";
    let document = parse_valid_document(source);
    let output = transpile::transpile(&document, Target::Plain);
    assert!(
        output.contains("{b}"),
        "expected non-recursive expansion to leave {{b}} unexpanded, got: {output}"
    );
    let system_line = output
        .lines()
        .find(|l| l.starts_with("system:"))
        .unwrap_or("");
    assert!(
        !system_line.contains("final"),
        "expected system line to show {{b}}, not 'final', got: {system_line}"
    );
}

#[test]
fn conformance_diagnostic_codes_are_present_on_all_validator_errors() {
    let no_agent = parse_str("system:\n  role: assistant").expect("should parse");
    let diags = validate_document(&no_agent);
    assert!(
        diags.iter().any(|d| d.code == Some("E101")),
        "expected E101 for missing agent"
    );

    let dup_key = parse_str("agent: X\nsystem:\n  role: a\n  role: b").expect("should parse");
    let diags = validate_document(&dup_key);
    assert!(
        diags.iter().any(|d| d.code == Some("E102")),
        "expected E102 for duplicate mapping key"
    );

    let vars_seq = parse_str(VARS_SEQUENCE).expect("vars-sequence fixture should parse");
    let diags = validate_document(&vars_seq);
    assert!(
        diags.iter().any(|d| d.code == Some("E109")),
        "expected E109 for vars non-mapping"
    );
}

#[test]
fn conformance_validation_rejects_empty_agent_scalar() {
    let source = "agent: \"\"\nsystem: handle requests\n";
    let document = parse_str(source).expect("empty-agent fixture should parse");
    let diagnostics = validate_document(&document);
    assert!(
        diagnostics.has_errors(),
        "expected validation errors for empty agent scalar"
    );
    let e103 = diagnostics
        .iter()
        .find(|d| d.code == Some("E103"))
        .expect("expected a diagnostic with code E103 for empty agent scalar");
    assert_eq!(e103.phase, DiagnosticPhase::Semantic);
}

#[test]
fn conformance_vars_key_grammar_is_enforced_at_parse_time() {
    let diagnostics = parse_str("agent: A\nsystem: S\nvars:\n  1region: apac\n")
        .expect_err("invalid key should fail to parse");
    assert_eq!(
        diagnostics.to_string(),
        "syntax error at 4:3: [E005] expected an identifier at the start of a mapping entry"
    );
}

#[test]
fn conformance_validation_rejects_document_without_system_key() {
    let source = "agent: TestAgent\n";
    let document = parse_str(source).expect("agent-only source should parse");
    let diagnostics = validate_document(&document);
    assert!(
        diagnostics.has_errors(),
        "expected validation errors for document missing the system key"
    );
    let e101 = diagnostics
        .iter()
        .find(|d| d.code == Some("E101") && d.message.contains("system"))
        .expect("expected E101 diagnostic mentioning 'system'");
    assert_eq!(e101.phase, DiagnosticPhase::Semantic);
    assert_eq!(
        e101.to_string(),
        "semantic error at 1:1: [E101] missing required key: `system`"
    );
}

#[test]
fn conformance_validation_accepts_minimal_two_key_document() {
    let source = "agent: TestAgent\nsystem: Handle requests\n";
    let document = parse_str(source).expect("two-key document should parse");
    let diagnostics = validate_document(&document);
    assert!(
        !diagnostics.has_errors(),
        "expected no validation errors for minimal two-key document, got: {}",
        diagnostics.to_string()
    );
}

#[test]
fn conformance_e104_non_scalar_agent_is_rejected() {
    let source = "agent:\n  name: TestAgent\nsystem: handle requests\n";
    let document = parse_str(source).expect("e104 source should parse");
    let diagnostics = validate_document(&document);
    assert!(diagnostics.has_errors());
    let e104 = diagnostics
        .iter()
        .find(|d| d.code == Some("E104"))
        .expect("expected a diagnostic with code E104");
    assert_eq!(e104.phase, DiagnosticPhase::Semantic);
    assert!(e104.message.contains("agent"));
}

#[test]
fn conformance_e105_sequence_system_is_rejected() {
    let source = "agent: TestAgent\nsystem:\n  - item\n";
    let document = parse_str(source).expect("e105 source should parse");
    let diagnostics = validate_document(&document);
    assert!(diagnostics.has_errors());
    let e105 = diagnostics
        .iter()
        .find(|d| d.code == Some("E105"))
        .expect("expected a diagnostic with code E105");
    assert_eq!(e105.phase, DiagnosticPhase::Semantic);
    assert!(e105.message.contains("system"));
}

#[test]
fn conformance_e106_scalar_memory_is_rejected() {
    let source = "agent: TestAgent\nsystem: handle requests\nmemory: not-a-sequence\n";
    let document = parse_str(source).expect("e106 source should parse");
    let diagnostics = validate_document(&document);
    assert!(diagnostics.has_errors());
    let e106 = diagnostics
        .iter()
        .find(|d| d.code == Some("E106"))
        .expect("expected a diagnostic with code E106");
    assert_eq!(e106.phase, DiagnosticPhase::Semantic);
    assert!(e106.message.contains("memory"));
}

#[test]
fn conformance_e108_sequence_output_is_rejected() {
    let source = "agent: TestAgent\nsystem: handle requests\noutput:\n  - item\n";
    let document = parse_str(source).expect("e108 source should parse");
    let diagnostics = validate_document(&document);
    assert!(diagnostics.has_errors());
    let e108 = diagnostics
        .iter()
        .find(|d| d.code == Some("E108"))
        .expect("expected a diagnostic with code E108");
    assert_eq!(e108.phase, DiagnosticPhase::Semantic);
    assert!(e108.message.contains("output"));
}

#[test]
fn conformance_e109_scalar_vars_is_rejected() {
    let source = "agent: TestAgent\nsystem: handle requests\nvars: not-a-mapping\n";
    let document = parse_str(source).expect("e109 source should parse");
    let diagnostics = validate_document(&document);
    assert!(diagnostics.has_errors());
    let e109 = diagnostics
        .iter()
        .find(|d| d.code == Some("E109"))
        .expect("expected a diagnostic with code E109");
    assert_eq!(e109.phase, DiagnosticPhase::Semantic);
    assert!(e109.message.contains("vars"));
}

#[test]
fn conformance_e110_mapping_value_in_vars_is_rejected() {
    let source = "agent: TestAgent\nsystem: handle requests\nvars:\n  key:\n    nested: value\n";
    let document = parse_str(source).expect("e110 source should parse");
    let diagnostics = validate_document(&document);
    assert!(diagnostics.has_errors());
    let e110 = diagnostics
        .iter()
        .find(|d| d.code == Some("E110"))
        .expect("expected a diagnostic with code E110");
    assert_eq!(e110.phase, DiagnosticPhase::Semantic);
    assert!(e110.message.contains("vars.key"));
}

#[test]
fn conformance_e103_empty_system_scalar_is_rejected() {
    let source = "agent: TestAgent\nsystem: \"\"\n";
    let document = parse_str(source).expect("e103 system source should parse");
    let diagnostics = validate_document(&document);
    assert!(diagnostics.has_errors());
    let e103 = diagnostics
        .iter()
        .find(|d| d.code == Some("E103") && d.message.contains("system"))
        .expect("expected E103 diagnostic mentioning 'system'");
    assert_eq!(e103.phase, DiagnosticPhase::Semantic);
    assert_eq!(
        e103.to_string(),
        "semantic error at 2:1: [E103] `system` must not be empty"
    );
}

#[test]
fn conformance_e113_duplicate_tools_items_are_rejected() {
    let source = "agent: TestAgent\nsystem: handle requests\ntools:\n  - web_search\n  - calculator\n  - web_search\n";
    let document = parse_str(source).expect("e113 source should parse");
    let diagnostics = validate_document(&document);
    assert!(diagnostics.has_errors());
    let e113 = diagnostics
        .iter()
        .find(|d| d.code == Some("E113"))
        .expect("expected a diagnostic with code E113");
    assert_eq!(e113.phase, DiagnosticPhase::Semantic);
    assert!(
        e113.message.contains("web_search"),
        "expected diagnostic mentioning the duplicate value, got: {}",
        e113.message
    );
}

#[test]
fn conformance_e113_memory_allows_duplicate_items() {
    let source = "agent: TestAgent\nsystem: handle requests\nmemory:\n  - prior_context\n  - prior_context\n";
    let document = parse_str(source).expect("e113 memory source should parse");
    let diagnostics = validate_document(&document);
    assert!(
        !diagnostics.has_errors(),
        "expected no validation errors for duplicate memory items, got: {}",
        diagnostics.to_string()
    );
}

#[test]
fn conformance_validate_stdin_flag_accepts_valid_document() {
    let source = "agent: StdinAgent\nsystem: handle requests\n";
    let document = parse_str(source).expect("valid stdin source should parse");
    let diagnostics = validate_document(&document);
    assert!(
        !diagnostics.has_errors(),
        "expected no validation errors for valid stdin document, got: {}",
        diagnostics.to_string()
    );
}

#[test]
fn conformance_validate_stdin_flag_rejects_invalid_document() {
    let source = "agent: TestAgent\n";
    let document = parse_str(source).expect("agent-only source should parse");
    let diagnostics = validate_document(&document);
    assert!(diagnostics.has_errors(), "expected E101 for missing system key");
    assert!(
        diagnostics
            .iter()
            .any(|d| d.code == Some("E101") && d.message.contains("system")),
        "expected E101 mentioning 'system', got: {}",
        diagnostics.to_string()
    );
}

#[test]
fn conformance_parse_summary_present_keys_match_document() {
    let source = "agent: SummaryTest\nsystem: handle requests\nmemory:\n  - item1\n  - item2\n";
    let document = parse_str(source).expect("summary test source should parse");
    let diagnostics = validate_document(&document);
    assert!(
        !diagnostics.has_errors(),
        "expected no errors, got: {}",
        diagnostics.to_string()
    );

    let present_keys: Vec<&str> = TopLevelKey::ordered()
        .into_iter()
        .filter(|&key| document.get(key).is_some())
        .map(|key| key.as_str())
        .collect();
    assert_eq!(present_keys, vec!["agent", "system", "memory"]);

    let nodes = llm_format::pipeline::count_document_nodes(&document).expect("small count");
    assert!(nodes > 0);
    assert_eq!(nodes, 5);

    assert!(document.agent.is_some(), "agent must be present");
    assert!(document.system.is_some(), "system must be present");
    assert!(document.memory.is_some(), "memory must be present");
}

fn output_rows(source: &str, provider: Provider) -> Vec<(&'static str, usize, usize)> {
    let document = parse_str(source).expect("fixture should parse");
    let report = llm_format::bench::measure_document_for_provider(source, &document, provider, None)
        .expect("bench report should build");
    report.rows[1..].iter().map(|row| (row.name, row.bytes, row.tokens)).collect()
}

#[test]
fn conformance_bench_output_rows_for_generic_provider() {
    assert_eq!(
        output_rows(EXTRACTOR, Provider::Generic),
        vec![("plain", 233, 60), ("json-ir", 312, 89), ("shadow", 202, 49)]
    );
    assert_eq!(
        output_rows(JSON_OUTPUT, Provider::Generic),
        vec![("plain", 140, 41), ("json-ir", 215, 72), ("shadow", 126, 39)]
    );
}

#[test]
fn conformance_bench_output_rows_for_anthropic_provider() {
    assert_eq!(
        output_rows(MINIMAL, Provider::Anthropic),
        vec![("plain", 94, 26), ("json-ir", 141, 46), ("shadow", 129, 39)]
    );
    assert_eq!(
        output_rows(EXTRACTOR, Provider::Anthropic),
        vec![("plain", 233, 61), ("json-ir", 312, 90), ("shadow", 313, 85)]
    );
    assert_eq!(
        output_rows(JSON_OUTPUT, Provider::Anthropic),
        vec![("plain", 140, 40), ("json-ir", 215, 71), ("shadow", 169, 51)]
    );
    assert_eq!(
        output_rows(QUOTED, Provider::Anthropic),
        vec![("plain", 136, 43), ("json-ir", 186, 64), ("shadow", 155, 51)]
    );
}
