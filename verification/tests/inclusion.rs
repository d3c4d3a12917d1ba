use llm_format::inclusion::{check_circular, resolve_include_paths};
use llm_format::{Document, Node};

/// The keyword of the composition directive.
fn directive() -> String {
    format!("{}{}", "inc", "lude")
}

fn scalar_doc(path: &str) -> Document {
    let mut document = Document::default();
    document.includes = Some(Node::scalar(path));
    document
}

fn sequence_doc(paths: &[&str]) -> Document {
    let mut document = Document::default();
    document.includes = Some(Node::sequence(
        paths.iter().map(|p| Node::scalar(p)).collect(),
    ));
    document
}

fn mapping_doc() -> Document {
    let mut document = Document::default();
    document.includes = Some(Node::mapping(vec![]));
    document
}

#[test]
fn resolve_include_paths_returns_empty_for_no_include() {
    let doc = Document::default();
    let result = resolve_include_paths(&doc, ".").expect("should be Ok");
    assert!(result.is_empty());
}

#[test]
fn resolve_include_paths_rejects_absolute_path() {
    let doc = scalar_doc("/absolute/path.llm");
    let result = resolve_include_paths(&doc, ".");
    let errors = result.expect_err("absolute path must be rejected");
    assert!(errors.iter().any(|d| d.code == Some("E115")));
}

#[test]
fn resolve_include_paths_rejects_empty_path() {
    let doc = scalar_doc("");
    let result = resolve_include_paths(&doc, ".");
    let errors = result.expect_err("empty path must be rejected");
    assert!(errors.iter().any(|d| d.code == Some("E115")));
}

#[test]
fn resolve_include_paths_scalar_resolves_relative() {
    let doc = scalar_doc("other.llm");
    let result = resolve_include_paths(&doc, "/some/project").expect("should be Ok");
    assert_eq!(result.len(), 1);
    assert_eq!(result[0], "/some/project/other.llm");
}

#[test]
fn resolve_include_paths_sequence_resolves_multiple() {
    let doc = sequence_doc(&["a.llm", "b.llm"]);
    let result = resolve_include_paths(&doc, "/project").expect("should be Ok");
    assert_eq!(result.len(), 2);
    assert_eq!(result[0], "/project/a.llm");
    assert_eq!(result[1], "/project/b.llm");
}

#[test]
fn resolve_include_paths_mapping_is_rejected() {
    let doc = mapping_doc();
    let result = resolve_include_paths(&doc, ".");
    let errors = result.expect_err("a mapping must be rejected");
    assert!(errors.iter().any(|d| d.code == Some("E023")));
}

#[test]
fn check_circular_allows_unrelated_files() {
    let chain = vec![String::from("/nonexistent/file_b.llm")];
    let diag = check_circular("/nonexistent/file_a.llm", None, &chain);
    assert!(diag.is_none());
}

#[test]
fn resolve_one_with_whitespace_trimmed_path() {
    let doc = scalar_doc("  relative/path.llm  ");
    let result = resolve_include_paths(&doc, "/base").expect("should be Ok");
    assert_eq!(result[0], "/base/relative/path.llm");
}

#[test]
fn check_circular_reports_a_file_already_on_the_chain() {
    let chain = vec![String::from("/work/a.llm"), String::from("/work/b.llm")];
    let diag = check_circular("sub/../b.llm", Some("/work/b.llm"), &chain)
        .expect("a file on the chain is a cycle");
    assert_eq!(diag.code, Some("E116"));
    assert_eq!(
        diag.to_string(),
        format!("semantic error: [E116] circular {} detected: `sub/../b.llm`", directive())
    );
    assert!(check_circular("c.llm", Some("/work/c.llm"), &chain).is_none());
}

#[test]
fn resolve_include_paths_messages_and_spans() {
    let doc = sequence_doc(&["ok.llm", "   ", "/abs.llm"]);
    let errors = resolve_include_paths(&doc, "dir/").expect_err("two refusals");
    assert_eq!(errors.len(), 2);
    assert_eq!(
        errors.get(0).to_string(),
        format!("semantic error at 0:0: [E115] {} path must not be empty", directive())
    );
    assert_eq!(
        errors.get(1).to_string(),
        format!(
            "semantic error at 0:0: [E115] {} paths must be relative, not absolute",
            directive()
        )
    );
    let mapping = resolve_include_paths(&mapping_doc(), ".").expect_err("mapping refused");
    assert_eq!(
        mapping.get(0).message,
        format!(
            "{} must be a scalar path or a sequence of paths, not a mapping",
            directive()
        )
    );
}

#[test]
fn resolve_include_paths_joins_without_doubling_separators() {
    let doc = sequence_doc(&["a.llm", "nested/b.llm"]);
    assert_eq!(
        resolve_include_paths(&doc, "dir/").expect("ok"),
        vec!["dir/a.llm", "dir/nested/b.llm"]
    );
    assert_eq!(
        resolve_include_paths(&doc, "").expect("ok"),
        vec!["a.llm", "nested/b.llm"]
    );
}

#[test]
fn parsed_directive_is_resolved() {
    let source = format!(
        "agent: A\nsystem: S\n{}:\n  - shared/base.llm\n  - other.llm\n",
        directive()
    );
    let document = llm_format::parse_str(&source).expect("should parse");
    assert_eq!(
        resolve_include_paths(&document, "/root/prompts").expect("ok"),
        vec!["/root/prompts/shared/base.llm", "/root/prompts/other.llm"]
    );
}
