use llm_format::{parse_str, Node, Span, TopLevelKey};

const MINIMAL: &str = "agent: DataExtractor\nsystem:\n  role: financial_analyst\n  output: json\nmemory:\n  - user_history\n";

#[test]
fn parses_minimal_example() {
    let document = parse_str(MINIMAL).expect("minimal example should parse");

    assert_eq!(
        document.get(TopLevelKey::Agent),
        Some(&Node::scalar("DataExtractor"))
    );

    let system = document
        .get(TopLevelKey::System)
        .and_then(Node::as_mapping)
        .expect("system should be a mapping");

    let role = system
        .iter()
        .find(|entry| entry.key == "role")
        .map(|entry| &entry.value);
    let output = system
        .iter()
        .find(|entry| entry.key == "output")
        .map(|entry| &entry.value);

    assert_eq!(role, Some(&Node::scalar("financial_analyst")));
    assert_eq!(output, Some(&Node::scalar("json")));

    assert_eq!(
        document.get(TopLevelKey::Agent).map(Node::span),
        Some(Span::new(1, 1))
    );
    assert_eq!(role.map(Node::span), Some(Span::new(3, 3)));
    assert_eq!(
        document
            .get(TopLevelKey::Memory)
            .and_then(Node::as_sequence)
            .and_then(|items| items.first())
            .map(Node::span),
        Some(Span::new(6, 3))
    );
}

#[test]
fn syntax_errors_carry_position_and_code() {
    let cases = [
        ("agent: A\npersona: B\n", "syntax error at 2:1: [E013] unknown top-level key `persona`"),
        ("agent DataExtractor\n", "syntax error at 1:6: [E006] expected `:` after mapping key"),
        ("agent: \"open\n", "syntax error at 1:8: [E011] unterminated quoted scalar"),
        ("system:\n    role: x\n", "syntax error at 2:5: [E024] nested blocks must be indented by exactly 2 spaces"),
        ("agent:\n", "syntax error at 1:1: [E023] expected an indented block after `:`"),
        ("  agent: x\n", "syntax error at 1:3: [E012] top-level keys must start at column 1"),
        ("- item\n", "syntax error at 1:1: [E016] top-level entries must be mappings, not list items"),
        ("agent: x\n\tsystem: y\n", "syntax error at 2:1: [E001] tabs are not supported; use two-space indentation"),
        ("agent: x\n system: y\n", "syntax error at 2:1: [E002] indentation must use multiples of two spaces"),
    ];
    for (source, expected) in cases {
        let diagnostics = parse_str(source).expect_err("should fail");
        assert_eq!(diagnostics.to_string(), expected, "for {source:?}");
    }
}

#[test]
fn comments_blank_lines_and_quotes_are_read() {
    let document = parse_str("# comment\n\nagent: 'single quoted'\nsystem:\n  # inside\n  role: \"tab\\there\"\n")
        .expect("should parse");
    assert_eq!(document.get(TopLevelKey::Agent), Some(&Node::scalar("single quoted")));
    assert_eq!(
        document.get(TopLevelKey::System).and_then(|n| n.mapping_get("role")),
        Some(&Node::scalar("tab\there"))
    );
    assert_eq!(
        document.get(TopLevelKey::Agent).map(Node::span),
        Some(Span::new(3, 1))
    );
}

#[test]
fn nested_sequences_and_mappings_are_built() {
    let document = parse_str("agent: A\noutput:\n  schema:\n    - id\n    -\n      deep: yes\n")
        .expect("should parse");
    let output = document.get(TopLevelKey::Output).expect("output present");
    assert_eq!(output.kind_name(), "mapping");
    let schema = output.mapping_get("schema").expect("schema");
    let items = schema.as_sequence().expect("sequence");
    assert_eq!(items.len(), 2);
    assert_eq!(items[0].as_scalar(), Some("id"));
    assert_eq!(items[1].kind_name(), "mapping");
    assert_eq!(items[1].mapping_get("deep"), Some(&Node::scalar("yes")));
}
