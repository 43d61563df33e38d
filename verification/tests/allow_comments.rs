use fortitude::allow_comments::{
    check_allow_comments, find_allow_list, gather_allow_comments, AllowCommentRules,
    AllowViolationKind, CommentNode, Registry, RuleEntry,
};
use fortitude::diagnostics::{Annotation, Diagnostic, DiagnosticId, LintName, Severity, Span};
use fortitude::range::TextRange;
use fortitude::rules::{Rule, RuleTable};
use fortitude::source::SourceFile;

fn registry() -> Registry {
    let entry = |rule: u16, code: &str, name: &str| RuleEntry {
        rule: Rule(rule),
        code: code.to_string(),
        name: name.to_string(),
    };
    Registry {
        rules: vec![
            entry(1, "C001", "implicit-typing"),
            entry(2, "C002", "superfluous-semicolon"),
            entry(10, "F001", "redirected-allow-comment"),
            entry(11, "F002", "invalid-rule-code-or-name"),
            entry(12, "F003", "duplicated-allow-comment"),
            entry(13, "F004", "disabled-allow-comment"),
            entry(14, "F005", "unused-allow-comment"),
        ],
        redirects: vec![("old-semicolon".to_string(), "C002".to_string())],
    }
}

fn allow_rules() -> AllowCommentRules {
    AllowCommentRules {
        redirected: Rule(10),
        invalid: Rule(11),
        duplicated: Rule(12),
        disabled: Rule(13),
        unused: Rule(14),
    }
}

fn chars(s: &str) -> Vec<char> {
    s.chars().collect()
}

fn comment(text: &str, start: u32, next: Option<TextRange>) -> CommentNode {
    CommentNode {
        kind: "comment".to_string(),
        text: text.to_string(),
        range: TextRange::new(start, start + text.len() as u32),
        next_named_sibling: next,
    }
}

fn violation(file: &SourceFile, rule: u16, range: TextRange) -> Diagnostic {
    let mut d = Diagnostic::new(
        DiagnosticId::lint(LintName::of("violation")),
        Severity::Error,
        "message".to_string(),
    );
    d.rule = Some(Rule(rule));
    d.annotate(Annotation::primary(Span { file: file.clone(), range: Some(range) }));
    d
}

#[test]
fn allow_list_is_found() {
    assert_eq!(find_allow_list(&chars("! allow(C001)")), Some((8, 12)));
    assert_eq!(find_allow_list(&chars("! allow(C001, C002)  ")), Some((8, 18)));
    assert_eq!(find_allow_list(&chars("! allow(a) b)\nc)")), Some((8, 12)));
    assert_eq!(find_allow_list(&chars("! allow(C001")), None);
    assert_eq!(find_allow_list(&chars("! allow(C001\n)")), None);
    assert_eq!(find_allow_list(&chars("! something else")), None);
}

#[test]
fn gather_resolves_codes_names_and_redirects() {
    let source = "! allow(C001, superfluous-semicolon, old-semicolon, nope)\ninteger :: x\n";
    let file = SourceFile::new("test.f90".to_string(), source);
    let node = comment(
        "! allow(C001, superfluous-semicolon, old-semicolon, nope)",
        0,
        Some(TextRange::new(58, 70)),
    );
    let reg = registry();
    let ac = gather_allow_comments(&node, &file.index, &reg).unwrap();
    assert_eq!(ac.range, TextRange::new(58, 71));
    assert_eq!(ac.node, TextRange::new(0, 57));
    let codes: Vec<(&str, Option<Rule>, TextRange)> =
        ac.codes.iter().map(|c| (c.code.as_str(), c.rule, c.loc)).collect();
    assert_eq!(
        codes,
        vec![
            ("C001", Some(Rule(1)), TextRange::new(8, 12)),
            ("superfluous-semicolon", Some(Rule(2)), TextRange::new(14, 35)),
            ("old-semicolon", Some(Rule(2)), TextRange::new(37, 50)),
            ("nope", None, TextRange::new(52, 56)),
        ]
    );
}

#[test]
fn gather_rejects_other_nodes() {
    let file = SourceFile::new("test.f90".to_string(), "! allow(C001)\nx = 1\n");
    let reg = registry();
    let mut node = comment("! allow(C001)", 0, Some(TextRange::new(14, 19)));
    node.kind = "string_literal".to_string();
    assert!(gather_allow_comments(&node, &file.index, &reg).is_none());
    let last = comment("! allow(C001)", 0, None);
    assert!(gather_allow_comments(&last, &file.index, &reg).is_none());
    let plain = comment("! just a comment", 0, Some(TextRange::new(14, 19)));
    assert!(gather_allow_comments(&plain, &file.index, &reg).is_none());
}

#[test]
fn check_silences_and_reports() {
    let source = "! allow(C001, C001, C002, nope)\ninteger :: x\n";
    let file = SourceFile::new("test.f90".to_string(), source);
    let reg = registry();
    let node = comment("! allow(C001, C001, C002, nope)", 0, Some(TextRange::new(32, 44)));
    let ac = gather_allow_comments(&node, &file.index, &reg).unwrap();
    let table = RuleTable::from_rules(&[Rule(1), Rule(2), Rule(11), Rule(12), Rule(14)]);
    let inside = violation(&file, 1, TextRange::new(32, 39));
    let other_rule = violation(&file, 3, TextRange::new(32, 39));
    let diagnostics = vec![other_rule, inside];
    let (ignored, findings) = check_allow_comments(
        &diagnostics,
        &vec![ac],
        &table,
        &reg,
        allow_rules(),
        &file.text,
        &file.index,
    );
    assert_eq!(ignored, vec![1]);
    let kinds: Vec<(AllowViolationKind, &str, TextRange)> =
        findings.iter().map(|f| (f.kind, f.rule.as_str(), f.loc)).collect();
    assert_eq!(
        kinds,
        vec![
            (AllowViolationKind::DuplicatedAllowComment, "C001", TextRange::new(14, 18)),
            (AllowViolationKind::UnusedAllowComment, "C002", TextRange::new(20, 24)),
            (AllowViolationKind::InvalidRuleCodeOrName, "nope", TextRange::new(26, 30)),
        ]
    );
    let unused_fix = &findings[1].fix.edits[0];
    assert_eq!(unused_fix.content.as_deref(), Some("! allow(C001, C001, nope)"));
    assert_eq!(unused_fix.range, TextRange::new(0, 31));
}

#[test]
fn check_reports_redirects_and_disabled_rules() {
    let source = "x = 1 ! allow(old-semicolon)\ny = 2\n";
    let file = SourceFile::new("test.f90".to_string(), source);
    let reg = registry();
    let node = comment("! allow(old-semicolon)", 6, Some(TextRange::new(29, 34)));
    let ac = gather_allow_comments(&node, &file.index, &reg).unwrap();
    let table = RuleTable::from_rules(&[Rule(10), Rule(13)]);
    let (ignored, findings) = check_allow_comments(
        &vec![],
        &vec![ac],
        &table,
        &reg,
        allow_rules(),
        &file.text,
        &file.index,
    );
    assert!(ignored.is_empty());
    assert_eq!(findings.len(), 2);
    assert_eq!(findings[0].kind, AllowViolationKind::RedirectedAllowComment);
    let redirect = findings[0].redirect.as_ref().unwrap();
    assert_eq!(redirect.redirect, "C002");
    assert_eq!(redirect.new_code, "C002");
    assert_eq!(redirect.new_name, "superfluous-semicolon");
    assert_eq!(findings[0].fix.edits[0].content.as_deref(), Some("superfluous-semicolon"));
    assert_eq!(findings[0].fix.edits[0].range, TextRange::new(14, 27));
    assert_eq!(findings[1].kind, AllowViolationKind::DisabledAllowComment);
    // The only code is removed, so the comment goes, but the statement before it stays.
    assert_eq!(findings[1].fix.edits[0].content, None);
    assert_eq!(findings[1].fix.edits[0].range, TextRange::new(6, 28));
}

#[test]
fn check_deletes_whole_comment_line() {
    let source = "  ! allow(C002)\nx = 1\n";
    let file = SourceFile::new("test.f90".to_string(), source);
    let reg = registry();
    let node = comment("! allow(C002)", 2, Some(TextRange::new(16, 21)));
    let ac = gather_allow_comments(&node, &file.index, &reg).unwrap();
    let table = RuleTable::from_rules(&[Rule(2), Rule(14)]);
    let (_, findings) = check_allow_comments(
        &vec![],
        &vec![ac],
        &table,
        &reg,
        allow_rules(),
        &file.text,
        &file.index,
    );
    assert_eq!(findings.len(), 1);
    assert_eq!(findings[0].kind, AllowViolationKind::UnusedAllowComment);
    assert_eq!(findings[0].fix.edits[0].range, TextRange::new(0, 16));
}
