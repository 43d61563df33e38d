use fortitude::allow_comments::{AllowCommentRules, Registry, RuleEntry};
use fortitude::diagnostics::{create_lint_diagnostic, Applicability, Diagnostic, Edit, Fix, LintName};
use fortitude::fix::{check_and_fix_file, fix_file, fix_table};
use fortitude::lint_walk::{CheckRules, LintRule};
use fortitude::range::TextRange;
use fortitude::rules::{Rule, RuleSet, RuleTable};
use fortitude::source::SourceFile;

const HOMEPAGE: &str = "https://fortitude.readthedocs.io";

fn file(text: &str) -> SourceFile {
    SourceFile::new("test.f90".to_string(), text)
}

fn violation(rule: u16, edits: Vec<Edit>, applicability: Applicability) -> Diagnostic {
    let start = edits.first().map_or(0, |e| e.range.start);
    create_lint_diagnostic(
        format!("v{rule}"),
        None,
        TextRange::new(start, start),
        Some(Fix { applicability, edits }),
        file("abcdefghij\n"),
        Rule(rule),
        LintName::of("some-rule"),
        format!("R{rule}"),
        HOMEPAGE,
    )
}

fn rules() -> CheckRules {
    let mut ast_rules = RuleSet::empty();
    ast_rules.insert(Rule(2));
    ast_rules.insert(Rule(3));
    CheckRules {
        syntax_error: LintRule { rule: Rule(1), name: LintName::of("syntax-error"), code: "E001".to_string() },
        missing_double_colon: LintRule {
            rule: Rule(2),
            name: LintName::of("missing-double-colon"),
            code: "missing-double-colon".to_string(),
        },
        magic_number_in_array_size: LintRule {
            rule: Rule(3),
            name: LintName::of("magic-number-in-array-size"),
            code: "magic-number-in-array-size".to_string(),
        },
        allow: AllowCommentRules {
            redirected: Rule(5),
            invalid: Rule(6),
            duplicated: Rule(7),
            disabled: Rule(8),
            unused: Rule(9),
        },
        ast_rules,
        homepage: HOMEPAGE.to_string(),
    }
}

fn registry() -> Registry {
    let entry = |rule: u16, code: &str, name: &str| RuleEntry {
        rule: Rule(rule),
        code: code.to_string(),
        name: name.to_string(),
    };
    Registry {
        rules: vec![
            entry(1, "E001", "syntax-error"),
            entry(2, "missing-double-colon", "missing-double-colon"),
            entry(3, "magic-number-in-array-size", "magic-number-in-array-size"),
        ],
        redirects: vec![],
    }
}

fn table() -> RuleTable {
    RuleTable::from_rules(&[Rule(1), Rule(2), Rule(3)])
}

fn text_of(cs: &[char]) -> String {
    cs.iter().collect()
}

#[test]
fn fixes_apply_in_order_of_start_and_overlaps_are_passed_over() {
    let f = file("abcdefghij\n");
    let ds = vec![
        violation(2, vec![Edit::insertion("X".to_string(), 5)], Applicability::Safe),
        violation(3, vec![Edit::insertion("Y".to_string(), 1)], Applicability::Safe),
        violation(2, vec![Edit::insertion("Z".to_string(), 5)], Applicability::Safe),
        violation(2, vec![Edit::insertion("W".to_string(), 8)], Applicability::Unsafe),
    ];
    let (text, used) = fix_file(&f, &ds, Applicability::Safe).expect("fixes apply");
    assert_eq!(text_of(&text), "aYbcdeXfghij\n");
    assert_eq!(used, vec![1, 0]);
    let (text, used) = fix_file(&f, &ds, Applicability::Unsafe).expect("fixes apply");
    assert_eq!(text_of(&text), "aYbcdeXfghWij\n");
    assert_eq!(used, vec![1, 0, 3]);
}

#[test]
fn no_applicable_fix_gives_nothing() {
    let f = file("abc\n");
    let ds = vec![violation(2, vec![Edit::insertion("X".to_string(), 1)], Applicability::Unsafe)];
    assert!(fix_file(&f, &ds, Applicability::Safe).is_none());
    assert!(fix_file(&f, &Vec::new(), Applicability::Safe).is_none());
}

#[test]
fn fix_table_counts_each_rule_once() {
    let applied = vec![Some(Rule(2)), Some(Rule(3)), None, Some(Rule(2))];
    assert_eq!(fix_table(&applied), vec![(Rule(2), 2), (Rule(3), 1)]);
    assert_eq!(fix_table(&Vec::new()), Vec::<(Rule, usize)>::new());
}

#[test]
fn check_and_fix_adds_missing_double_colons() {
    let f = file("program p\n  integer x\n  real :: y\nend program p\n");
    let (ds, text, applied) =
        check_and_fix_file(&f, &table(), &registry(), &rules(), Applicability::Safe, false).expect("fixes apply");
    assert_eq!(text_of(&text), "program p\n  integer :: x\n  real :: y\nend program p\n");
    assert_eq!(applied, vec![Some(Rule(2))]);
    assert!(ds.iter().all(|d| d.rule != Some(Rule(2))));
}

#[test]
fn check_and_fix_applies_every_fix_of_a_round() {
    let f = file("program p\n  integer x\n  real y, z\nend program p\n");
    let (_, text, applied) =
        check_and_fix_file(&f, &table(), &registry(), &rules(), Applicability::Safe, false).expect("fixes apply");
    assert_eq!(text_of(&text), "program p\n  integer :: x\n  real :: y, z\nend program p\n");
    assert_eq!(applied, vec![Some(Rule(2)), Some(Rule(2))]);
    assert_eq!(fix_table(&applied), vec![(Rule(2), 2)]);
}

#[test]
fn check_and_fix_keeps_violations_of_rules_not_fixed() {
    let source = "program p\n  integer x\nend program p\n";
    let f = file(source);
    let mut t = RuleTable::from_rules(&[Rule(1), Rule(3)]);
    t.enable(Rule(2), false);
    let (ds, text, applied) =
        check_and_fix_file(&f, &t, &registry(), &rules(), Applicability::Safe, false).expect("nothing is fixed");
    assert_eq!(text_of(&text), source);
    assert!(applied.is_empty());
    assert!(ds.iter().any(|d| d.rule == Some(Rule(2)) && d.fix.is_none()));
}

#[test]
fn check_and_fix_leaves_clean_files_alone() {
    let source = "program p\n  integer :: x\nend program p\n";
    let (ds, text, applied) =
        check_and_fix_file(&file(source), &table(), &registry(), &rules(), Applicability::Safe, false)
            .expect("nothing to fix");
    assert_eq!(text_of(&text), source);
    assert!(applied.is_empty());
    assert!(ds.is_empty());
}

#[test]
fn check_and_fix_refuses_files_with_syntax_errors() {
    let f = file("program p\n  integer x = = \nend program p\n");
    let r = check_and_fix_file(&f, &table(), &registry(), &rules(), Applicability::Safe, false);
    assert_eq!(r.err(), Some("File contains syntax errors, no fixes will be applied".to_string()));
}
