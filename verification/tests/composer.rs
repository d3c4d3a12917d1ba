use llm_format::composer::{absorb, begin_composition, ComposedFile, Composition};
use llm_format::{parse_str, Diagnostic, DiagnosticBag, Document, Node, TopLevelKey};

/// The keyword of the composition directive.
fn directive() -> String {
    format!("{}{}", "inc", "lude")
}

fn doc(source: &str) -> Document {
    parse_str(source).expect("should parse")
}

fn composing(paths: &[&str]) -> Document {
    let mut document = doc("agent: Root\n");
    document.includes = Some(Node::sequence(paths.iter().map(|p| Node::scalar(p)).collect()));
    document
}

fn empty_state(source: &str) -> Composition {
    Composition { document: doc(source), diagnostics: DiagnosticBag::new() }
}

#[test]
fn beginning_consumes_the_directive_and_lists_the_files() {
    let (state, paths) = begin_composition(composing(&["a.llm", " b/c.llm "]), "/base");
    assert_eq!(paths, vec!["/base/a.llm".to_string(), "/base/b/c.llm".to_string()]);
    assert!(state.document.includes.is_none());
    assert_eq!(state.document.get(TopLevelKey::Agent), Some(&Node::scalar("Root")));
    assert!(state.diagnostics.is_empty());
}

#[test]
fn beginning_without_a_directive_has_nothing_to_read() {
    let (state, paths) = begin_composition(doc("agent: Root\n"), "/base");
    assert!(paths.is_empty());
    assert!(state.diagnostics.is_empty());
    assert_eq!(state.document, doc("agent: Root\n"));
}

#[test]
fn beginning_with_a_refused_path_keeps_the_document() {
    let (state, paths) = begin_composition(composing(&["ok.llm", "/abs.llm", ""]), "/base");
    assert!(paths.is_empty());
    assert!(state.document.includes.is_some());
    assert_eq!(state.diagnostics.len(), 2);
    assert_eq!(state.diagnostics.get(0).code, Some("E115"));
    assert_eq!(state.diagnostics.get(1).code, Some("E115"));
}

#[test]
fn an_unreadable_file_is_reported_with_its_reason() {
    let mut state = empty_state("agent: Root\n");
    absorb(&mut state, "/base/missing.llm", ComposedFile::Unreadable("No such file".to_string()));
    assert_eq!(state.document, doc("agent: Root\n"));
    assert_eq!(state.diagnostics.len(), 1);
    let d = state.diagnostics.get(0);
    assert_eq!(d.code, Some("E115"));
    assert_eq!(
        d.message,
        format!("cannot read {} file `/base/missing.llm`: No such file", directive())
    );
    assert!(d.span.is_none());
}

#[test]
fn a_cycle_and_parse_errors_are_passed_on() {
    let mut state = empty_state("agent: Root\n");
    let cycle = Diagnostic::semantic_error("cycle".to_string(), None).with_code("E116");
    absorb(&mut state, "x.llm", ComposedFile::Circular(cycle));
    let errs = parse_str("agent DataExtractor\n").expect_err("must not parse");
    let n = errs.len();
    absorb(&mut state, "y.llm", ComposedFile::Unparsable(errs));
    assert_eq!(state.document, doc("agent: Root\n"));
    assert_eq!(state.diagnostics.len(), 1 + n);
    assert_eq!(state.diagnostics.get(0).code, Some("E116"));
}

#[test]
fn a_composed_file_is_merged_after_its_own_diagnostics() {
    let mut state = empty_state("agent: Root\ntools:\n  - search\n");
    let mut child_diags = DiagnosticBag::new();
    child_diags.push(Diagnostic::semantic_error("inner".to_string(), None).with_code("E116"));
    let child = doc("agent: Child\nuser: hi\ntools:\n  - search\n  - calc\n");
    absorb(&mut state, "lib/child.llm", ComposedFile::Composed(child, child_diags));
    assert_eq!(state.document.get(TopLevelKey::Agent), Some(&Node::scalar("Root")));
    assert_eq!(state.document.get(TopLevelKey::User), Some(&Node::scalar("hi")));
    assert_eq!(state.diagnostics.len(), 2);
    assert_eq!(state.diagnostics.get(0).code, Some("E116"));
    assert_eq!(state.diagnostics.get(1).code, Some("E117"));
    assert!(state.diagnostics.get(1).message.contains("lib/child.llm"));
}
