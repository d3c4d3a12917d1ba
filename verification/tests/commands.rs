use llm_format::commands::{
    format_validated, invalid_report, parse_failure_report, parse_summary, plan_output,
    transpile_composed, validation_verdict, CheckFailure, OutputRefusal, ParentState, WriteMode,
};
use llm_format::transpile::{transpile_with_provider, Target};
use llm_format::{format_document, parse_str, Diagnostic, DiagnosticBag, Document, Provider};

const VALID: &str = "agent: Extractor\nsystem:\n  role: analyst\nuser:\n  prompt: \"summarize\"\ntools:\n  - search\n  - calc\n";

fn doc(source: &str) -> Document {
    parse_str(source).expect("should parse")
}

fn warning_bag() -> DiagnosticBag {
    let mut bag = DiagnosticBag::new();
    bag.push(Diagnostic::semantic_warning("just a note".to_string(), None));
    bag
}

fn error_bag() -> DiagnosticBag {
    let mut bag = warning_bag();
    bag.push(Diagnostic::semantic_error("broken".to_string(), None).with_code("E116"));
    bag
}

#[test]
fn error_count_skips_warnings() {
    assert_eq!(DiagnosticBag::new().error_count(), 0);
    assert_eq!(warning_bag().error_count(), 0);
    assert_eq!(error_bag().error_count(), 1);
}

#[test]
fn parse_failure_report_lists_diagnostics_then_the_verdict() {
    let errors = parse_str("agent DataExtractor\n").expect_err("must not parse");
    let n = errors.error_count();
    assert!(n >= 1);
    let report = parse_failure_report(&errors, "a.llm");
    assert_eq!(
        report,
        format!("{}\n✗ parse failed  a.llm  ({} error(s))", errors.to_string(), n)
    );
}

#[test]
fn invalid_report_counts_errors_only() {
    let bag = error_bag();
    assert_eq!(
        invalid_report(&bag, "<stdin>"),
        "semantic warning: just a note\nsemantic error: [E116] broken\n✗ invalid  <stdin>  (1 error(s))"
    );
}

#[test]
fn a_valid_document_gets_the_valid_line() {
    let verdict = validation_verdict(&doc(VALID), warning_bag(), "x.llm");
    assert_eq!(verdict, Ok("✓ valid  x.llm".to_string()));
}

#[test]
fn composition_errors_come_before_validation_errors() {
    let document = doc("system:\n  role: analyst\n");
    let validation = llm_format::validate_document(&document);
    assert!(validation.has_errors());
    let verdict = validation_verdict(&document, error_bag(), "x.llm").expect_err("invalid");
    let mut all = error_bag();
    all.extend(validation);
    assert_eq!(
        verdict,
        format!("{}\n✗ invalid  x.llm  ({} error(s))", all.to_string(), all.error_count())
    );
    assert!(verdict.starts_with("semantic warning: just a note\nsemantic error: [E116] broken\n"));
}

#[test]
fn parse_summary_names_present_keys_and_counts_nodes() {
    let summary = parse_summary(&doc(VALID), "x.llm").expect("small document");
    assert_eq!(summary, "✓ parsed  x.llm\nkeys: agent system user tools\nnodes: 8");
}

#[test]
fn parse_summary_of_an_empty_document() {
    let summary = parse_summary(&Document::default(), "e.llm").expect("small document");
    assert_eq!(summary, "✓ parsed  e.llm\nkeys: \nnodes: 0");
}

#[test]
fn transpile_composed_renders_a_clean_document() {
    let document = doc(VALID);
    let expected = transpile_with_provider(&document, Target::Plain, Provider::Generic).unwrap();
    let rendered = transpile_composed(&document, warning_bag(), Target::Plain, Provider::Generic);
    assert!(matches!(rendered, Ok(ref s) if *s == expected));
}

#[test]
fn transpile_composed_stops_at_the_first_failing_stage() {
    let invalid = doc("system:\n  role: analyst\n");
    match transpile_composed(&invalid, error_bag(), Target::JsonIr, Provider::Generic) {
        Err(CheckFailure::Composition(b)) => assert_eq!(b.len(), 2),
        _ => panic!("composition errors come first"),
    }
    match transpile_composed(&invalid, warning_bag(), Target::JsonIr, Provider::Generic) {
        Err(CheckFailure::Validation(b)) => {
            assert_eq!(b.to_string(), llm_format::validate_document(&invalid).to_string())
        }
        _ => panic!("validation errors follow"),
    }
}

#[test]
fn format_validated_formats_or_reports() {
    let document = doc(VALID);
    assert_eq!(format_validated(&document).ok(), Some(format_document(&document)));
    let invalid = doc("system:\n  role: analyst\n");
    assert!(format_validated(&invalid).is_err());
}

#[test]
fn parsed_documents_nest_within_the_limit() {
    assert!(doc(VALID).nests_within_limit());
    assert!(Document::default().nests_within_limit());
}

#[test]
fn output_plan_refusals_in_order() {
    assert_eq!(
        plan_output(true, ParentState::Missing, true, true),
        Err(OutputRefusal::TargetIsDirectory)
    );
    assert_eq!(
        plan_output(false, ParentState::Missing, true, true),
        Err(OutputRefusal::ParentMissing)
    );
    assert_eq!(
        plan_output(false, ParentState::NotADirectory, false, false),
        Err(OutputRefusal::ParentNotADirectory)
    );
    assert_eq!(
        plan_output(false, ParentState::Directory, true, false),
        Err(OutputRefusal::WouldOverwrite)
    );
}

#[test]
fn output_plan_modes() {
    assert_eq!(plan_output(false, ParentState::Unnamed, true, true), Ok(WriteMode::Overwrite));
    assert_eq!(plan_output(false, ParentState::Directory, false, true), Ok(WriteMode::Overwrite));
    assert_eq!(plan_output(false, ParentState::Directory, false, false), Ok(WriteMode::CreateNew));
}

#[test]
fn refusal_messages() {
    assert_eq!(
        OutputRefusal::TargetIsDirectory.message("out", "dir"),
        "output path is a directory: out"
    );
    assert_eq!(
        OutputRefusal::ParentMissing.message("d/out.md", "d"),
        "output directory does not exist: d"
    );
    assert_eq!(
        OutputRefusal::ParentNotADirectory.message("f/out.md", "f"),
        "output parent is not a directory: f"
    );
    assert_eq!(
        OutputRefusal::WouldOverwrite.message("out.md", ""),
        "refusing to overwrite existing output file out.md (pass --force to overwrite)"
    );
}
