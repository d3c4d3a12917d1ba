use llm_format::formatter::{format_scalar, quote_scalar};
use llm_format::{format_document, parse_str, validate_document, Document, MappingEntry, Node, Span, TopLevelKey};

const MINIMAL: &str = "agent: DataExtractor\nsystem:\n  role: financial_analyst\n  output: json\nmemory:\n  - user_history\n";
const QUOTED: &str = "agent: \"Data Extractor\"\nsystem:\n  role: \"financial analyst\"\nuser: \"Summarize \\\"Q1\\\" results\"\nvars:\n  company: \"Acme Corp\"\n  region: apac\n";
const MESSY: &str = "# a messy but valid document\n\nvars:\n  region:   apac\n  company: 'Acme Corp'\nuser:   \"Summarize \\\"Q1\\\" results\"\n\n   # an indented comment\nsystem:\n  role:    \"financial analyst\"\nagent:  \"Data Extractor\"\n";

fn parse_valid_document(source: &str) -> Document {
    let document = parse_str(source).expect("fixture should parse");
    let diagnostics = validate_document(&document);
    assert!(
        !diagnostics.has_errors(),
        "expected no validation errors, got: {}",
        diagnostics.to_string()
    );
    document
}

#[test]
fn formatter_matches_minimal_fixture() {
    let document = parse_valid_document(MINIMAL);
    assert_eq!(
        format_document(&document),
        "agent: DataExtractor\nsystem:\n  role: financial_analyst\n  output: json\nmemory:\n  - user_history"
    );
}

#[test]
fn formatter_matches_quoted_fixture() {
    let document = parse_valid_document(QUOTED);
    assert_eq!(
        format_document(&document),
        "agent: \"Data Extractor\"\nsystem:\n  role: \"financial analyst\"\nuser: \"Summarize \\\"Q1\\\" results\"\nvars:\n  company: \"Acme Corp\"\n  region: apac"
    );
}

#[test]
fn formatter_normalizes_noncanonical_fixture() {
    let document = parse_valid_document(MESSY);
    assert_eq!(
        format_document(&document),
        "agent: \"Data Extractor\"\nsystem:\n  role: \"financial analyst\"\nuser: \"Summarize \\\"Q1\\\" results\"\nvars:\n  region: apac\n  company: \"Acme Corp\""
    );
}

#[test]
fn formatter_is_idempotent() {
    let first_document = parse_valid_document(MESSY);
    let first = format_document(&first_document);
    let second_document = parse_valid_document(&first);
    let second = format_document(&second_document);
    assert_eq!(first, second);
}

#[test]
fn format_scalar_quotes_only_what_needs_it() {
    assert_eq!(format_scalar("plain_value-1"), "plain_value-1");
    assert_eq!(format_scalar("two words"), "\"two words\"");
    assert_eq!(format_scalar(""), "\"\"");
    assert_eq!(format_scalar("a\\b\"c\nd\re\tf"), "\"a\\\\b\\\"c\\nd\\re\\tf\"");
    assert_eq!(quote_scalar("x"), "\"x\"");
}

#[test]
fn formatter_nests_blocks_two_spaces_per_level() {
    let mut document = Document::new();
    let inner = Node::mapping(vec![MappingEntry::new(
        String::from("depth"),
        Node::sequence(vec![Node::scalar("one"), Node::scalar("two words")]),
        Span::new(0, 0),
    )]);
    document.set(
        TopLevelKey::System,
        Node::mapping(vec![MappingEntry::new(String::from("outer"), inner, Span::new(0, 0))]),
    );
    document.set(TopLevelKey::Agent, Node::scalar("A"));
    assert_eq!(
        format_document(&document),
        "agent: A\nsystem:\n  outer:\n    depth:\n      - one\n      - \"two words\""
    );
}

#[test]
fn formatter_of_empty_document_is_empty() {
    assert_eq!(format_document(&Document::new()), "");
}

#[test]
fn quoted_scalars_read_back_to_every_value() {
    for value in [
        "",
        "plain",
        "  padded  ",
        "say \"hi\"",
        "back\\slash",
        "tab\there",
        "two\nlines\r\n",
        "trailing backslash \\",
        "{var} and 'single'",
        "ünïcødé ✓",
    ] {
        let source = format!("agent: A\nsystem: {}\n", quote_scalar(value));
        let document = parse_str(&source).expect("quoted scalar should parse");
        assert_eq!(document.get(TopLevelKey::System), Some(&Node::scalar(value)), "{value:?}");
    }
}
