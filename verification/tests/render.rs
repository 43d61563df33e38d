use fortitude::diagnostics::{
    Annotation, Diagnostic, DiagnosticId, LintName, SecondaryCode, Severity, Span, SubDiagnostic,
    SubDiagnosticSeverity,
};
use fortitude::range::TextRange;
use fortitude::render::{
    all_renderable_exec, relativize_path, render_azure, render_github, render_pylint, AzureEmitter, PylintEmitter,
};
use fortitude::source::{line_column, LineColumn, SourceFile};

fn test_rule_diagnostic() -> Diagnostic {
    Diagnostic::new(
        DiagnosticId::lint(LintName::of("stable-test-rule")),
        Severity::Error,
        "main diagnostic message".to_string(),
    )
}

fn located(file: &SourceFile, range: TextRange, code: &str) -> Diagnostic {
    let mut d = Diagnostic::new(
        DiagnosticId::lint(LintName::of("star-kind")),
        Severity::Error,
        "integer*4 is non-standard, use integer(4)".to_string(),
    );
    d.annotate(Annotation::primary(Span { file: file.clone(), range: Some(range) }));
    d.set_secondary_code(SecondaryCode::new(code.to_string()));
    d
}

#[test]
fn github_missing_file() {
    let d = test_rule_diagnostic();
    assert_eq!(
        render_github(&vec![d], "/work").trim_end(),
        "::error title=fortitude (stable-test-rule)::stable-test-rule: main diagnostic message"
    );
}

#[test]
fn pylint_missing_file() {
    let d = test_rule_diagnostic();
    assert_eq!(
        render_pylint(&vec![d], "/work").trim_end(),
        ":1: [stable-test-rule] main diagnostic message"
    );
}

#[test]
fn line_and_column() {
    let file = SourceFile::new("a.f90".to_string(), "ab\ncdé\r\nx\rz");
    assert_eq!(line_column(&file, 0), LineColumn { line: 1, column: 1 });
    assert_eq!(line_column(&file, 2), LineColumn { line: 1, column: 3 });
    assert_eq!(line_column(&file, 3), LineColumn { line: 2, column: 1 });
    // `é` takes two bytes but one column.
    assert_eq!(line_column(&file, 7), LineColumn { line: 2, column: 4 });
    assert_eq!(line_column(&file, 9), LineColumn { line: 3, column: 1 });
    assert_eq!(line_column(&file, 11), LineColumn { line: 4, column: 1 });
    let bom = SourceFile::new("b.f90".to_string(), "\u{feff}ab");
    assert_eq!(line_column(&bom, 4), LineColumn { line: 1, column: 2 });
}

#[test]
fn relative_paths() {
    let p = |name: &str, cwd: &str| relativize_path(name, cwd).iter().collect::<String>();
    assert_eq!(p("/work/src/a.f90", "/work"), "src/a.f90");
    assert_eq!(p("/work/src/a.f90", "/work/"), "src/a.f90");
    assert_eq!(p("/workshop/a.f90", "/work"), "/workshop/a.f90");
    assert_eq!(p("/work", "/work"), "");
    assert_eq!(p("a.f90", ""), "a.f90");
}

#[test]
fn azure_with_location() {
    let file = SourceFile::new("/work/star_kind.f90".to_string(), "integer*4 foo; end");
    let d = located(&file, TextRange::new(7, 8), "S001");
    assert_eq!(
        render_azure(&vec![d]),
        "##vso[task.logissue type=error;sourcepath=/work/star_kind.f90;linenumber=1;columnnumber=8;code=S001;]integer*4 is non-standard, use integer(4)\n"
    );
}

#[test]
fn github_with_location_and_help() {
    let file = SourceFile::new("/work/star_kind.f90".to_string(), "integer*4 foo; end");
    let mut d = located(&file, TextRange::new(7, 8), "S001");
    d.sub(SubDiagnostic::new(SubDiagnosticSeverity::Help, "use integer(4)".to_string()));
    assert_eq!(
        render_github(&vec![d], "/work"),
        "::error title=fortitude (S001),file=/work/star_kind.f90,line=1,col=8,endLine=1,endColumn=9::star_kind.f90:1:8: S001 integer*4 is non-standard, use integer(4)%0A  help: use integer(4)\n"
    );
}

#[test]
fn github_multiline_range() {
    let file = SourceFile::new("/work/a.f90".to_string(), "module m\nend module\n");
    let d = located(&file, TextRange::new(0, 19), "M001");
    let out = render_github(&vec![d], "/work");
    assert!(out.starts_with("::error title=fortitude (M001),file=/work/a.f90,line=1,endLine=2::a.f90:1:1: M001 "));
}

#[test]
fn pylint_with_location() {
    let file = SourceFile::new("/work/star_kind.f90".to_string(), "\ninteger*4 foo; end");
    let d = located(&file, TextRange::new(8, 9), "S001");
    assert_eq!(
        render_pylint(&vec![d], "/work"),
        "star_kind.f90:2: [S001] integer*4 is non-standard, use integer(4)\n"
    );
}

#[test]
fn message_emitters() {
    let file = SourceFile::new("/work/star_kind.f90".to_string(), "integer*4 foo; end");
    let d = located(&file, TextRange::new(7, 8), "S001");
    assert_eq!(
        AzureEmitter.emit(&vec![d.clone()]),
        "##vso[task.logissue type=error;sourcepath=/work/star_kind.f90;linenumber=1;columnnumber=8;code=S001;]integer*4 is non-standard, use integer(4)\n"
    );
    assert_eq!(
        PylintEmitter.emit(&vec![d], "/work"),
        "star_kind.f90:1: [S001] integer*4 is non-standard, use integer(4)\n"
    );
}


#[test]
fn diagnostics_made_from_files_can_be_rendered() {
    let f = fortitude::source::SourceFile::new("a.f90".to_string(), "ab\ncd\n");
    let d = fortitude::diagnostics::create_lint_diagnostic(
        "m".to_string(),
        None,
        fortitude::range::TextRange::new(1, 4),
        None,
        f,
        fortitude::rules::Rule(2),
        fortitude::diagnostics::LintName::of("some-rule"),
        "R2".to_string(),
        "https://fortitude.readthedocs.io",
    );
    assert!(all_renderable_exec(&vec![d]));
    let g = fortitude::source::SourceFile::new("b.f90".to_string(), "ab\n");
    let outside = fortitude::diagnostics::create_lint_diagnostic(
        "m".to_string(),
        None,
        fortitude::range::TextRange::new(1, 9),
        None,
        g,
        fortitude::rules::Rule(2),
        fortitude::diagnostics::LintName::of("some-rule"),
        "R2".to_string(),
        "https://fortitude.readthedocs.io",
    );
    assert!(!all_renderable_exec(&vec![outside]));
}
