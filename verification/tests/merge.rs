use llm_format::merge::merge_into;
use llm_format::{parse_str, Document, Node, TopLevelKey};

fn doc(source: &str) -> Document {
    parse_str(source).expect("should parse")
}

fn scalars(node: Option<&Node>) -> Vec<String> {
    node.and_then(Node::as_sequence)
        .expect("a sequence")
        .iter()
        .map(|n| n.as_scalar().expect("scalar").to_string())
        .collect()
}

#[test]
fn single_valued_keys_keep_the_parent_and_report_conflicts() {
    let mut parent = doc("agent: Parent\nsystem: parent system\n");
    let included = doc("agent: Child\nuser: from child\noutput: json\n");
    let diagnostics = merge_into(&mut parent, included, "shared/base.llm");
    assert_eq!(parent.get(TopLevelKey::Agent), Some(&Node::scalar("Parent")));
    assert_eq!(parent.get(TopLevelKey::User), Some(&Node::scalar("from child")));
    assert_eq!(parent.get(TopLevelKey::Output), Some(&Node::scalar("json")));
    assert_eq!(diagnostics.len(), 1);
    let conflict = diagnostics.get(0);
    assert_eq!(conflict.code, Some("E117"));
    assert!(conflict
        .to_string()
        .ends_with("conflict: `agent` is defined in both parent and `shared/base.llm`"));
    assert!(conflict.to_string().starts_with("semantic error: [E117] "));
}

#[test]
fn memory_concatenates_and_lists_are_deduplicated() {
    let mut parent = doc(
        "agent: A\nmemory:\n  - m1\n  - m1\ntools:\n  - search\n  - calc\nconstraints:\n  - be_brief\n",
    );
    let included = doc(
        "memory:\n  - m1\n  - m2\ntools:\n  - calc\n  - browse\n  - browse\nconstraints:\n  - be_brief\n",
    );
    let diagnostics = merge_into(&mut parent, included, "inc.llm");
    assert!(diagnostics.is_empty());
    assert_eq!(scalars(parent.get(TopLevelKey::Memory)), vec!["m1", "m1", "m1", "m2"]);
    assert_eq!(scalars(parent.get(TopLevelKey::Tools)), vec!["search", "calc", "browse"]);
    assert_eq!(scalars(parent.get(TopLevelKey::Constraints)), vec!["be_brief"]);
}

#[test]
fn absent_lists_are_taken_from_the_included_file() {
    let mut parent = doc("agent: A\n");
    let included = doc("tools:\n  - search\n");
    merge_into(&mut parent, included, "x.llm");
    assert_eq!(scalars(parent.get(TopLevelKey::Tools)), vec!["search"]);
    assert_eq!(
        parent.get(TopLevelKey::Tools).map(Node::span),
        Some(llm_format::Span::new(0, 0))
    );
}

#[test]
fn vars_keep_the_parent_binding() {
    let mut parent = doc("agent: A\nvars:\n  region: apac\n");
    let included = doc("vars:\n  region: emea\n  tier: gold\n");
    let diagnostics = merge_into(&mut parent, included, "vars.llm");
    assert!(diagnostics.is_empty());
    let vars = parent.get(TopLevelKey::Vars).expect("vars");
    let entries = vars.as_mapping().expect("mapping");
    let pairs: Vec<(String, String)> = entries
        .iter()
        .map(|e| (e.key.clone(), e.value.as_scalar().expect("scalar").to_string()))
        .collect();
    assert_eq!(
        pairs,
        vec![
            (String::from("region"), String::from("apac")),
            (String::from("tier"), String::from("gold"))
        ]
    );
}

#[test]
fn wrong_shapes_are_left_alone_and_the_directive_is_dropped() {
    let mut parent = doc("agent: A\nmemory: not-a-list\n");
    let mut included = doc("memory:\n  - m\n");
    included.includes = Some(Node::scalar("deeper.llm"));
    merge_into(&mut parent, included, "x.llm");
    assert_eq!(parent.get(TopLevelKey::Memory), Some(&Node::scalar("not-a-list")));
    assert!(parent.includes.is_none());
}

#[test]
fn merging_nothing_changes_nothing() {
    let mut parent = doc("agent: A\nsystem:\n  role: r\ntools:\n  - t\n");
    let before = parent.clone();
    let diagnostics = merge_into(&mut parent, Document::new(), "empty.llm");
    assert!(diagnostics.is_empty());
    assert!(parent == before);
}

#[test]
fn deduplication_covers_the_whole_merged_list() {
    let mut parent = doc("agent: A\ntools:\n  - a\n  - a\nconstraints:\n  - c\n");
    let included = doc("tools:\n  - b\n  - a\n  - b\n");
    merge_into(&mut parent, included, "x.llm");
    assert_eq!(scalars(parent.get(TopLevelKey::Tools)), vec!["a", "b"]);
    assert_eq!(scalars(parent.get(TopLevelKey::Constraints)), vec!["c"]);
}

#[test]
fn lists_taken_whole_from_the_included_file_are_deduplicated_too() {
    let mut parent = doc("agent: A\n");
    let included = doc("constraints:\n  - x\n  - y\n  - x\nmemory:\n  - m\n  - m\n");
    merge_into(&mut parent, included, "x.llm");
    assert_eq!(scalars(parent.get(TopLevelKey::Constraints)), vec!["x", "y"]);
    assert_eq!(scalars(parent.get(TopLevelKey::Memory)), vec!["m", "m"]);
}
