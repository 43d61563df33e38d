use fortitude::concise::render_concise;
use fortitude::junit::{junit_report, JunitReport};
use fortitude::diagnostics::{
    Annotation, Applicability, Diagnostic, DiagnosticId, Edit, Fix, LintName, SecondaryCode,
    Severity, Span,
};
use fortitude::range::TextRange;
use fortitude::source::SourceFile;

// The lines of `test.f90` up to the seventh, with the violations at 6:5 and 7:3.
const TEST_F90: &str = "module test\n  implicit none\ncontains\n  subroutine foo()\n    ! set again\n    implicit none\n  end\nend module test\n";
const STAR_KIND_F90: &str = "integer*4 function foo()\nend function foo\n";

fn diagnostic(file: &SourceFile, start: u32, end: u32, name: &'static str, code: &str, message: &str, fix: bool) -> Diagnostic {
    let mut d = Diagnostic::new(DiagnosticId::lint(LintName::of(name)), Severity::Error, message.to_string());
    d.annotate(Annotation::primary(Span { file: file.clone(), range: Some(TextRange::new(start, end)) }));
    d.set_secondary_code(SecondaryCode::new(code.to_string()));
    if fix {
        d.set_fix(Fix::safe_edit(Edit::range_deletion(TextRange::new(start, end))));
    }
    d
}

fn create_diagnostics() -> Vec<Diagnostic> {
    let test = SourceFile::new("test.f90".to_string(), TEST_F90);
    let star = SourceFile::new("star_kind.f90".to_string(), STAR_KIND_F90);
    let implicit = TEST_F90.find("    implicit none").unwrap() as u32 + 4;
    let end = TEST_F90.find("  end\n").unwrap() as u32 + 2;
    vec![
        diagnostic(&test, implicit, implicit + 13, "superfluous-implicit-none", "S201", "'implicit none' set on the enclosing module", true),
        diagnostic(&test, end, end + 3, "end-statement", "S061", "end statement should read 'end subroutine foo'", true),
        diagnostic(&star, 7, 9, "star-kind", "PORT021", "integer*4 is non-standard, use integer(4)", false),
    ]
}

fn create_syntax_error_diagnostics() -> Vec<Diagnostic> {
    let text = "from os import\n\nif call(foo\n    def bar():\n        pass\n";
    let file = SourceFile::new("syntax_errors.py".to_string(), text);
    let mut a = Diagnostic::new(DiagnosticId::InvalidSyntax, Severity::Error, "Expected one or more symbol names after import".to_string());
    a.annotate(Annotation::primary(Span { file: file.clone(), range: Some(TextRange::new(14, 15)) }));
    let mut b = Diagnostic::new(DiagnosticId::InvalidSyntax, Severity::Error, "Expected ')', found newline".to_string());
    b.annotate(Annotation::primary(Span { file, range: Some(TextRange::new(27, 28)) }));
    vec![a, b]
}

#[test]
fn concise_output() {
    assert_eq!(
        render_concise(&create_diagnostics(), "/work", false, false, Applicability::Safe),
        "test.f90:6:5: error[S201] 'implicit none' set on the enclosing module\n\
         test.f90:7:3: error[S061] end statement should read 'end subroutine foo'\n\
         star_kind.f90:1:8: error[PORT021] integer*4 is non-standard, use integer(4)\n"
    );
}

#[test]
fn show_fixes() {
    assert_eq!(
        render_concise(&create_diagnostics(), "/work", true, true, Applicability::DisplayOnly),
        "test.f90:6:5: S201 [*] 'implicit none' set on the enclosing module\n\
         test.f90:7:3: S061 [*] end statement should read 'end subroutine foo'\n\
         star_kind.f90:1:8: PORT021 integer*4 is non-standard, use integer(4)\n"
    );
}

#[test]
fn show_fixes_preview() {
    // Preview mode does not change concise output.
    assert_eq!(
        render_concise(&create_diagnostics(), "/work", true, true, Applicability::DisplayOnly),
        "test.f90:6:5: S201 [*] 'implicit none' set on the enclosing module\n\
         test.f90:7:3: S061 [*] end statement should read 'end subroutine foo'\n\
         star_kind.f90:1:8: PORT021 integer*4 is non-standard, use integer(4)\n"
    );
}

#[test]
fn show_fixes_syntax_errors() {
    assert_eq!(
        render_concise(&create_syntax_error_diagnostics(), "/work", true, true, Applicability::DisplayOnly),
        "syntax_errors.py:1:15: invalid-syntax: Expected one or more symbol names after import\n\
         syntax_errors.py:3:12: invalid-syntax: Expected ')', found newline\n"
    );
}

#[test]
fn concise_syntax_errors() {
    assert_eq!(
        render_concise(&create_syntax_error_diagnostics(), "/work", false, false, Applicability::Safe),
        "syntax_errors.py:1:15: error[invalid-syntax] Expected one or more symbol names after import\n\
         syntax_errors.py:3:12: error[invalid-syntax] Expected ')', found newline\n"
    );
}

#[test]
fn concise_missing_file() {
    let d = Diagnostic::new(
        DiagnosticId::lint(LintName::of("stable-test-rule")),
        Severity::Error,
        "main diagnostic message".to_string(),
    );
    assert_eq!(
        render_concise(&vec![d], "/work", false, false, Applicability::Safe).trim_end(),
        "error[stable-test-rule] main diagnostic message"
    );
}

#[test]
fn concise_fix_mark_follows_applicability() {
    let mut ds = create_diagnostics();
    ds.truncate(1);
    let mut unsafe_fix = Fix::safe_edit(Edit::range_deletion(TextRange::new(0, 1)));
    unsafe_fix.applicability = Applicability::Unsafe;
    ds[0].set_fix(unsafe_fix);
    assert_eq!(
        render_concise(&ds, "/work", true, true, Applicability::Safe),
        "test.f90:6:5: S201 'implicit none' set on the enclosing module\n"
    );
    let relative = render_concise(&ds, "/work", true, false, Applicability::Safe);
    assert_eq!(relative, "test.f90:6:5: S201 'implicit none' set on the enclosing module\n");
}

#[test]
fn grouped_by_file_in_name_order() {
    let text = fortitude::grouped::render_grouped(&create_diagnostics(), "/work", false, Applicability::Safe);
    assert_eq!(
        text,
        "star_kind.f90:\n  1:8 PORT021 integer*4 is non-standard, use integer(4)\n\n\
         test.f90:\n  6:5 S201 'implicit none' set on the enclosing module\n  7:3 S061 end statement should read 'end subroutine foo'\n\n"
    );
    let fixes = fortitude::grouped::render_grouped(&create_diagnostics(), "/work", true, Applicability::Safe);
    assert!(fixes.contains("  6:5 S201 [*] 'implicit none' set on the enclosing module\n"));
    assert!(fixes.contains("  1:8 PORT021 integer*4"));
}

#[test]
fn grouped_aligns_rows_and_columns() {
    let text: String = (1..=10).map(|i| format!("line {i}\n")).collect();
    let file = SourceFile::new("a.f90".to_string(), &text);
    let nine = text.find("line 9").unwrap() as u32;
    let ten = text.find("line 10").unwrap() as u32 + 5;
    let ds = vec![
        diagnostic(&file, nine, nine + 1, "r", "C1", "first", false),
        diagnostic(&file, ten, ten + 1, "r", "C2", "second", false),
    ];
    assert_eq!(
        fortitude::grouped::render_grouped(&ds, "/work", false, Applicability::Safe),
        "a.f90:\n   9:1 C1 first\n  10:6 C2 second\n\n"
    );
}

#[test]
fn junit_suites_per_file() {
    assert!(matches!(junit_report(&vec![]), JunitReport::NoErrors));
    let JunitReport::Suites(suites) = junit_report(&create_diagnostics()) else {
        panic!("expected suites");
    };
    let names: Vec<&str> = suites.iter().map(|s| s.name.as_str()).collect();
    assert_eq!(names, vec!["star_kind.f90", "test.f90"]);
    assert_eq!(suites[1].cases.len(), 2);
    let case = &suites[1].cases[0];
    assert_eq!(case.name, "org.plasmafair.fortitude.S201");
    assert_eq!(case.message, "'implicit none' set on the enclosing module");
    assert_eq!(case.description, "line 6, col 5, 'implicit none' set on the enclosing module");
    assert_eq!((case.line, case.column), (6, 5));
    assert_eq!(suites[1].cases[1].name, "org.plasmafair.fortitude.S061");
}
