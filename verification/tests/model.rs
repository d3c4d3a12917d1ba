use llm_format::lexer::{tokenize_lines, LineKind};
use llm_format::provider::{ProfileError, ShadowProfile, SupportStatus};
use llm_format::{
    Diagnostic, DiagnosticBag, DiagnosticPhase, Document, MappingEntry, Node, Provider, Severity,
    Span, TokenizerProfile, TopLevelKey,
};

#[test]
fn top_level_keys_round_trip_through_their_names() {
    for key in TopLevelKey::ordered() {
        assert_eq!(TopLevelKey::from_keyword(key.as_str()), Some(key));
    }
    assert_eq!(TopLevelKey::from_keyword("persona"), None);
    let names: Vec<&str> = TopLevelKey::ordered().iter().map(|k| k.as_str()).collect();
    assert_eq!(
        names,
        vec!["agent", "system", "user", "memory", "tools", "output", "constraints", "vars"]
    );
}

#[test]
fn document_set_then_get() {
    let mut document = Document::new();
    assert_eq!(document.set(TopLevelKey::User, Node::scalar("first")), None);
    assert_eq!(
        document.set(TopLevelKey::User, Node::scalar("second")),
        Some(Node::scalar("first"))
    );
    assert_eq!(document.get(TopLevelKey::User), Some(&Node::scalar("second")));
    assert_eq!(document.get(TopLevelKey::Agent), None);
    document.set(TopLevelKey::Agent, Node::scalar("a"));
    let keys: Vec<TopLevelKey> = document.ordered_entries().iter().map(|(k, _)| *k).collect();
    assert_eq!(keys, vec![TopLevelKey::Agent, TopLevelKey::User]);
}

#[test]
fn node_accessors() {
    let entry = MappingEntry::new(String::from("k"), Node::scalar("v"), Span::new(2, 3));
    let mapping = Node::mapping_at(vec![entry], Span::new(1, 1));
    assert_eq!(mapping.kind_name(), "mapping");
    assert_eq!(mapping.span(), Span::new(1, 1));
    assert_eq!(mapping.mapping_get("k"), Some(&Node::scalar("v")));
    assert_eq!(mapping.mapping_get("missing"), None);
    assert!(mapping.as_scalar().is_none());
    assert!(mapping.as_sequence().is_none());
    let sequence = Node::sequence_at(vec![Node::scalar_at(String::from("x"), Span::new(4, 5))], Span::new(3, 1));
    assert_eq!(sequence.kind_name(), "sequence");
    assert_eq!(sequence.as_sequence().map(|s| s.len()), Some(1));
    assert_eq!(Node::scalar("s").kind_name(), "scalar");
    assert!(Node::scalar_at(String::from("x"), Span::new(9, 9)) == Node::scalar("x"));
}

#[test]
fn diagnostics_render_and_collect() {
    let mut bag = DiagnosticBag::new();
    assert!(bag.is_empty());
    bag.semantic_warning(String::from("just a note"), None);
    assert!(!bag.has_errors());
    bag.syntax_error(String::from("bad"), Some(Span::new(3, 4)));
    assert!(bag.has_errors());
    let mut other = DiagnosticBag::new();
    other.push(Diagnostic::semantic_error(String::from("worse"), Some(Span::new(1, 2))).with_code("E101"));
    other.syntax_warning(String::from("odd"), None);
    bag.extend(other);
    assert_eq!(bag.len(), 4);
    assert_eq!(
        bag.to_string(),
        "semantic warning: just a note\nsyntax error at 3:4: bad\nsemantic error at 1:2: [E101] worse\nsyntax warning: odd"
    );
    assert_eq!(bag.get(2).phase, DiagnosticPhase::Semantic);
    assert_eq!(bag.get(2).severity, Severity::Error);
    assert_eq!(bag.iter().count(), 4);
}

#[test]
fn provider_profiles() {
    assert_eq!(Provider::default(), Provider::Generic);
    for provider in [Provider::Generic, Provider::Openai, Provider::Anthropic] {
        let profile = provider.profile();
        assert_eq!(profile.provider(), provider);
        assert_eq!(profile.shadow_support(), SupportStatus::Supported);
        assert_eq!(profile.tokenizer_support(), SupportStatus::Supported);
    }
    assert_eq!(Provider::Anthropic.profile().shadow_profile(), Ok(ShadowProfile::V1Anthropic));
    assert_eq!(Provider::Openai.profile().shadow_profile(), Ok(ShadowProfile::V0));
    assert_eq!(
        Provider::Anthropic.profile().tokenizer_profile(),
        Ok::<TokenizerProfile, ProfileError>(TokenizerProfile::O200kBase)
    );
    assert_eq!(Provider::Openai.as_str(), "openai");
}

#[test]
fn tokenize_lines_reads_kinds_indents_and_spans() {
    let tokens = tokenize_lines("agent: A\n# c\nmemory:\n  - one\n  -\n").expect("lexes");
    assert_eq!(tokens.len(), 4);
    assert_eq!(tokens[0].indent, 0);
    assert_eq!(tokens[2].indent, 2);
    assert_eq!(tokens[2].span(), Span::new(4, 3));
    match &tokens[0].kind {
        LineKind::Mapping(m) => {
            assert_eq!(m.key.value, "agent");
            assert_eq!(m.value.as_ref().map(|v| v.value.as_str()), Some("A"));
        }
        LineKind::ListItem(_) => panic!("expected a mapping line"),
    }
    match &tokens[3].kind {
        LineKind::ListItem(item) => assert!(item.value.is_none()),
        LineKind::Mapping(_) => panic!("expected a list item"),
    }
    let errors = tokenize_lines("a: \"x\n\tb: y\n").expect_err("two bad lines");
    assert_eq!(errors.len(), 2);
}
