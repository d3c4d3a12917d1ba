use llm_format::pipeline::{compile, count_nodes, validate_source};
use llm_format::{parse_str, Node, TopLevelKey};

const MINIMAL: &str = "agent: DataExtractor\nsystem:\n  role: financial_analyst\n  output: json\nmemory:\n  - user_history\n";

#[test]
fn compile_renders_each_named_target() {
    assert_eq!(
        compile(MINIMAL, "plain").expect("plain"),
        "agent: DataExtractor\nsystem:\n  role: financial_analyst\n  output: json\nmemory:\n  - user_history"
    );
    assert_eq!(
        compile(MINIMAL, "shadow").expect("shadow"),
        "@a=\"DataExtractor\"\n@s={role=\"financial_analyst\";output=\"json\"}\n@m=[\"user_history\"]"
    );
    assert!(compile(MINIMAL, "json-ir").expect("json").starts_with("{\n  \"agent\""));
}

#[test]
fn compile_reports_the_failing_stage() {
    assert_eq!(
        compile("agent: A\npersona: B\n", "plain"),
        Err(vec![String::from("syntax error at 2:1: [E013] unknown top-level key `persona`")])
    );
    assert_eq!(
        compile("agent: TestAgent\n", "plain"),
        Err(vec![String::from("semantic error at 1:1: [E101] missing required key: `system`")])
    );
    assert_eq!(
        compile(MINIMAL, "openai-chat"),
        Err(vec![String::from("unknown target: openai-chat")])
    );
}

#[test]
fn validate_source_accepts_and_rejects() {
    assert_eq!(validate_source(MINIMAL), Ok(()));
    let errors = validate_source("system: s\n").expect_err("missing agent");
    assert_eq!(errors, vec![String::from("semantic error at 1:1: [E101] missing required key: `agent`")]);
}

#[test]
fn node_counts_include_every_level() {
    let document = parse_str("agent: A\nsystem:\n  role: r\n  nested:\n    - a\n    - b\n")
        .expect("parse");
    let system = document.get(TopLevelKey::System).expect("system");
    assert_eq!(count_nodes(system), Some(5));
    assert_eq!(count_nodes(&Node::scalar("x")), Some(1));
    assert_eq!(count_nodes(&Node::sequence(vec![])), Some(1));
}
