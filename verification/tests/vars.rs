use llm_format::transpile::vars::{
    build_vars_map, expand, expand_document, extract_references, is_valid_key, VarsMap,
};
use llm_format::{parse_str, Node, TopLevelKey};

fn vars(pairs: &[(&str, &str)]) -> VarsMap {
    VarsMap::from_pairs(
        pairs
            .iter()
            .map(|(k, v)| (k.to_string(), v.to_string()))
            .collect(),
    )
}

#[test]
fn expands_known_reference() {
    let v = vars(&[("region", "apac")]);
    assert_eq!(expand("Hello {region}", &v), "Hello apac");
}

#[test]
fn passes_through_unknown_reference() {
    let v = vars(&[("region", "apac")]);
    assert_eq!(expand("Hello {unknown}", &v), "Hello {unknown}");
}

#[test]
fn no_vars_returns_value_unchanged() {
    let v = vars(&[]);
    assert_eq!(expand("Hello {region}", &v), "Hello {region}");
}

#[test]
fn non_recursive_expansion() {
    let v = vars(&[("a", "{b}"), ("b", "final")]);
    assert_eq!(expand("{a}", &v), "{b}");
}

#[test]
fn no_braces_returns_value_unchanged() {
    let v = vars(&[("region", "apac")]);
    assert_eq!(expand("no braces here", &v), "no braces here");
}

#[test]
fn extract_references_finds_names() {
    let refs = extract_references("Connect to {source_table} in {region}");
    assert_eq!(refs, vec!["source_table", "region"]);
}

#[test]
fn extract_references_empty_when_no_braces() {
    let refs = extract_references("plain scalar");
    assert!(refs.is_empty());
}

#[test]
fn is_valid_key_accepts_valid_names() {
    assert!(is_valid_key("region"));
    assert!(is_valid_key("source_table"));
    assert!(is_valid_key("my-var"));
    assert!(is_valid_key("_private"));
}

#[test]
fn is_valid_key_rejects_invalid_names() {
    assert!(!is_valid_key(""));
    assert!(!is_valid_key("123bad"));
    assert!(!is_valid_key("has space"));
}

#[test]
fn expand_keeps_malformed_and_unclosed_references() {
    let v = vars(&[("region", "apac")]);
    assert_eq!(expand("{not valid}", &v), "{not valid}");
    assert_eq!(expand("open {region", &v), "open {region");
    assert_eq!(expand("{}", &v), "{}");
    assert_eq!(expand("{region}{region}", &v), "apacapac");
}

#[test]
fn later_binding_of_a_name_wins() {
    let v = vars(&[("region", "apac"), ("region", "emea")]);
    assert_eq!(expand("{region}", &v), "emea");
    assert_eq!(v.get("region").map(|s| s.as_str()), Some("emea"));
    assert_eq!(v.len(), 2);
    assert!(!v.is_empty());
}

#[test]
fn extract_references_skips_invalid_names_and_keeps_repeats() {
    let refs = extract_references("{a} {9x} {a} {b-c} {");
    assert_eq!(refs, vec!["a", "a", "b-c"]);
}

#[test]
fn build_vars_map_takes_scalar_entries_of_the_vars_block() {
    let document = parse_str("agent: A\nsystem: S\nvars:\n  region: apac\n  tier: gold\n")
        .expect("should parse");
    let map = build_vars_map(&document);
    assert_eq!(map.len(), 2);
    assert_eq!(map.get("region").map(|s| s.as_str()), Some("apac"));
    assert_eq!(map.get("tier").map(|s| s.as_str()), Some("gold"));
    assert_eq!(map.get("absent"), None);
}

#[test]
fn expand_document_expands_prompt_values_but_not_vars() {
    let document = parse_str(
        "agent: \"{who}\"\nsystem:\n  role: \"a {who}\"\ntools:\n  - \"{who}_tool\"\nvars:\n  who: analyst\n",
    )
    .expect("should parse");
    let expanded = expand_document(&document);
    assert_eq!(
        expanded.get(TopLevelKey::Agent),
        Some(&Node::scalar("analyst"))
    );
    assert_eq!(
        expanded
            .get(TopLevelKey::System)
            .and_then(|n| n.mapping_get("role")),
        Some(&Node::scalar("a analyst"))
    );
    assert_eq!(
        expanded
            .get(TopLevelKey::Tools)
            .and_then(Node::as_sequence)
            .and_then(|items| items.first()),
        Some(&Node::scalar("analyst_tool"))
    );
    assert_eq!(
        expanded
            .get(TopLevelKey::Vars)
            .and_then(|n| n.mapping_get("who")),
        Some(&Node::scalar("analyst"))
    );
}
