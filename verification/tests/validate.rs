use llm_format::{parse_str, validate_document, DiagnosticPhase, Span};

const EXTRACTOR: &str = "agent: Extractor\nsystem:\n  role: financial_analyst\n  objective: \"extract structured facts\"\nuser:\n  prompt: \"summarize the quarterly filing\"\ntools:\n  - web_search\n  - calculator\nconstraints:\n  - cite_sources\n  - stay_provider_agnostic\n";

#[test]
fn valid_example_passes_validation() {
    let document = parse_str(EXTRACTOR).expect("extractor example should parse");
    let diagnostics = validate_document(&document);
    assert!(
        !diagnostics.has_errors(),
        "expected no validation errors, got: {}",
        diagnostics.to_string()
    );
}

#[test]
fn vars_must_be_a_mapping() {
    let source = "\nagent: DataExtractor\nvars:\n  - not_allowed\n";
    let document = parse_str(source).expect("fixture should parse");
    let diagnostics = validate_document(&document);
    assert!(diagnostics.has_errors());
    let diagnostic = diagnostics
        .iter()
        .find(|diagnostic| diagnostic.message.contains("`vars`"))
        .expect("expected a vars diagnostic");
    assert_eq!(diagnostic.span, Some(Span::new(3, 1)));
}

#[test]
fn duplicate_nested_keys_are_rejected_by_validation() {
    let source = "\nagent: DataExtractor\nsystem:\n  role: first\n  role: second\n";
    let document = parse_str(source).expect("duplicate mapping keys should parse");
    let diagnostics = validate_document(&document);
    assert!(diagnostics.has_errors());
    let diagnostic = diagnostics
        .iter()
        .find(|diagnostic| diagnostic.message.contains("duplicate key `role`"))
        .expect("expected a duplicate-key diagnostic");
    assert_eq!(diagnostic.span, Some(Span::new(5, 3)));
    assert_eq!(diagnostic.phase, DiagnosticPhase::Semantic);
    assert_eq!(
        diagnostic.to_string(),
        "semantic error at 5:3: [E102] duplicate key `role` in `system`"
    );
}

#[test]
fn same_key_name_in_different_map_scopes_is_allowed() {
    let source = "\nagent: DataExtractor\nsystem:\n  role: summarizer\n  nested:\n    role: helper\n";
    let document = parse_str(source).expect("fixture should parse");
    let diagnostics = validate_document(&document);
    assert!(
        !diagnostics.has_errors(),
        "expected no validation errors, got: {}",
        diagnostics.to_string()
    );
}

#[test]
fn empty_agent_scalar_is_rejected() {
    let document = parse_str("agent: \"\"\nsystem: handle requests\n").expect("empty-agent fixture should parse");
    let diagnostics = validate_document(&document);
    assert!(diagnostics.has_errors());
    let diagnostic = diagnostics
        .iter()
        .find(|d| d.code == Some("E103"))
        .expect("expected a diagnostic with code E103");
    assert!(
        diagnostic.message.contains("agent") || diagnostic.message.contains("must not be empty"),
        "expected diagnostic message to mention agent or emptiness, got: {}",
        diagnostic.message
    );
    assert_eq!(diagnostic.phase, DiagnosticPhase::Semantic);
}

#[test]
fn missing_agent_key_is_rejected() {
    let document = parse_str("system: handle requests\n").expect("missing-agent fixture should parse");
    let diagnostics = validate_document(&document);
    assert!(diagnostics.has_errors());
    let diagnostic = diagnostics
        .iter()
        .find(|d| d.message.contains("agent"))
        .expect("expected a diagnostic mentioning 'agent'");
    assert_eq!(diagnostic.phase, DiagnosticPhase::Semantic);
    assert_eq!(
        diagnostic.to_string(),
        "semantic error at 1:1: [E101] missing required key: `agent`"
    );
}

#[test]
fn undefined_reference_is_reported_once_per_name_and_scalar() {
    let document = parse_str("agent: A\nsystem: \"{x} and {x} and {y}\"\nvars:\n  y: fine\n")
        .expect("should parse");
    let diagnostics = validate_document(&document);
    let undefined: Vec<String> = diagnostics
        .iter()
        .filter(|d| d.code == Some("E114"))
        .map(|d| d.to_string())
        .collect();
    assert_eq!(
        undefined,
        vec!["semantic error at 2:1: [E114] undefined var reference: `x` is not defined in `vars`"]
    );
}

#[test]
fn agent_and_system_alone_are_valid() {
    for source in [
        "agent: A\nsystem: be brief\n",
        "agent: A\nsystem:\n  role: analyst\n  tone: dry\n",
    ] {
        let document = parse_str(source).expect("fixture should parse");
        assert!(validate_document(&document).is_empty(), "{source}");
    }
}

#[test]
fn validator_codes_are_semantic_and_in_the_e1_range() {
    let source = "system: \"\"\nuser:\n  a: x\n  a: y\ntools:\n  - t\n  - t\noutput:\n  - x\nvars:\n  k:\n    - nested\nconstraints:\n  - \"{missing}\"\n";
    let document = parse_str(source).expect("fixture should parse");
    let diagnostics = validate_document(&document);
    assert!(diagnostics.len() >= 6);
    for d in diagnostics.iter() {
        assert_eq!(d.phase, DiagnosticPhase::Semantic);
        let code = d.code.expect("every validator diagnostic has a code");
        assert!(code.len() == 4 && code.starts_with("E1"), "{code}");
    }
}

#[test]
fn parse_codes_are_syntax_and_in_the_e0_range() {
    for source in [
        "\tagent: A\n",
        "agent: A\n   system: B\n",
        "persona: x\n",
        "agent: \"open\n",
        "agent: A\nagent: B\n",
        "- item\n",
        "agent:\n",
    ] {
        let diagnostics = parse_str(source).expect_err(source);
        for d in diagnostics.iter() {
            assert_eq!(d.phase, DiagnosticPhase::Syntax);
            let code = d.code.expect("every parse diagnostic has a code");
            assert!(code.len() == 4 && code.starts_with("E0"), "{code}");
        }
    }
}
