use fortitude::diagnostics::{
    Annotation, Applicability, Diagnostic, DiagnosticId, Edit, Fix, LintName, SecondaryCode,
    Severity, Span, SubDiagnostic, SubDiagnosticSeverity,
};
use fortitude::json_messages::JsonEmitter;
use fortitude::range::TextRange;
use fortitude::source::{LineColumn, SourceFile};

#[test]
fn json_lists_locations_fixes_and_help() {
    let file = SourceFile::new("star_kind.f90".to_string(), "program p\ninteger*4 :: x\nend\n");
    let mut d = Diagnostic::new(
        DiagnosticId::lint(LintName::of("star-kind")),
        Severity::Error,
        "integer*4 is non-standard, use integer(4)".to_string(),
    );
    d.annotate(Annotation::primary(Span { file: file.clone(), range: Some(TextRange::new(17, 19)) }));
    d.set_secondary_code(SecondaryCode::new("PORT021".to_string()));
    d.sub(SubDiagnostic::new(SubDiagnosticSeverity::Info, "not this".to_string()));
    d.sub(SubDiagnostic::new(SubDiagnosticSeverity::Help, "Replace with `integer(4)`".to_string()));
    d.set_fix(Fix {
        applicability: Applicability::Safe,
        edits: vec![
            Edit::range_replacement("(4)".to_string(), TextRange::new(17, 19)),
            Edit::range_deletion(TextRange::new(10, 11)),
        ],
    });
    let listed = JsonEmitter.expand(&vec![d]);
    assert_eq!(listed.len(), 1);
    let m = &listed[0];
    assert_eq!(m.code.as_deref(), Some("PORT021"));
    assert_eq!(m.filename, "star_kind.f90");
    assert_eq!(m.location, LineColumn { line: 2, column: 8 });
    assert_eq!(m.end_location, LineColumn { line: 2, column: 10 });
    let fix = m.fix.as_ref().unwrap();
    assert_eq!(fix.applicability, Applicability::Safe);
    assert_eq!(fix.message.as_deref(), Some("Replace with `integer(4)`"));
    assert_eq!(fix.edits.len(), 2);
    assert_eq!(fix.edits[0].content, "(4)");
    assert_eq!(fix.edits[0].location, LineColumn { line: 2, column: 8 });
    assert_eq!(fix.edits[1].content, "");
    assert_eq!(fix.edits[1].location, LineColumn { line: 2, column: 1 });
    assert_eq!(fix.edits[1].end_location, LineColumn { line: 2, column: 2 });
}

#[test]
fn json_message_without_file() {
    let d = Diagnostic::new(DiagnosticId::Io, Severity::Error, "cannot read".to_string());
    let listed = JsonEmitter.expand(&vec![d]);
    assert_eq!(listed[0].filename, "");
    assert_eq!(listed[0].location, LineColumn { line: 1, column: 1 });
    assert!(listed[0].code.is_none());
    assert!(listed[0].fix.is_none());
    assert_eq!(listed[0].message, "cannot read");
}
