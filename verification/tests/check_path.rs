use fortitude::allow_comments::{AllowCommentRules, Registry, RuleEntry};
use fortitude::check_path::keep_violations;
use fortitude::diagnostics::{
    create_lint_diagnostic, Applicability, Diagnostic, Edit, Fix, LintName,
};
use fortitude::lint_walk::{check_path, CheckRules, LintRule};
use fortitude::range::TextRange;
use fortitude::rules::{Rule, RuleSet, RuleTable};
use fortitude::source::SourceFile;
use fortitude::syntax::parse_fortran;

const HOMEPAGE: &str = "https://fortitude.readthedocs.io";

fn file(text: &str) -> SourceFile {
    SourceFile::new("test.f90".to_string(), text)
}

fn violation(rule: u16, start: u32, with_fix: bool) -> Diagnostic {
    let fix = if with_fix {
        Some(Fix { applicability: Applicability::Safe, edits: vec![Edit::insertion("x".to_string(), start)] })
    } else {
        None
    };
    create_lint_diagnostic(
        format!("v{rule}@{start}"),
        None,
        TextRange::new(start, start + 1),
        fix,
        file("0123456789\n"),
        Rule(rule),
        LintName::of("some-rule"),
        format!("R{rule}"),
        HOMEPAGE,
    )
}

fn messages(ds: &[Diagnostic]) -> Vec<String> {
    ds.iter().map(|d| d.message.clone()).collect()
}

fn rules() -> CheckRules {
    let mut ast_rules = RuleSet::empty();
    ast_rules.insert(Rule(2));
    ast_rules.insert(Rule(3));
    CheckRules {
        syntax_error: LintRule { rule: Rule(1), name: LintName::of("syntax-error"), code: "E001".to_string() },
        missing_double_colon: LintRule {
            rule: Rule(2),
            name: LintName::of("missing-double-colon"),
            code: "missing-double-colon".to_string(),
        },
        magic_number_in_array_size: LintRule {
            rule: Rule(3),
            name: LintName::of("magic-number-in-array-size"),
            code: "magic-number-in-array-size".to_string(),
        },
        allow: AllowCommentRules {
            redirected: Rule(5),
            invalid: Rule(6),
            duplicated: Rule(7),
            disabled: Rule(8),
            unused: Rule(9),
        },
        ast_rules,
        homepage: HOMEPAGE.to_string(),
    }
}

fn registry() -> Registry {
    let entry = |rule: u16, code: &str, name: &str| RuleEntry {
        rule: Rule(rule),
        code: code.to_string(),
        name: name.to_string(),
    };
    Registry {
        rules: vec![
            entry(1, "E001", "syntax-error"),
            entry(2, "missing-double-colon", "missing-double-colon"),
            entry(3, "magic-number-in-array-size", "magic-number-in-array-size"),
        ],
        redirects: vec![],
    }
}

fn check(text: &str, ignore_allow_comments: bool) -> Vec<Diagnostic> {
    let f = file(text);
    let tree = parse_fortran(&f).expect("the text parses");
    let table = RuleTable::from_rules(&[Rule(1), Rule(2), Rule(3)]);
    check_path(&tree, &f, &table, &registry(), &rules(), ignore_allow_comments).unwrap().0
}

#[test]
fn lint_diagnostic_links_to_the_rule_page() {
    let d = violation(4, 2, false);
    assert_eq!(d.documentation_url.as_deref(), Some("https://fortitude.readthedocs.io/en/stable/rules/some-rule"));
    assert_eq!(d.secondary_code.as_ref().map(|c| c.0.as_str()), Some("R4"));
}

#[test]
fn silenced_violations_are_swap_removed_from_the_last() {
    let ds = vec![violation(4, 0, false), violation(4, 1, false), violation(4, 2, false), violation(4, 3, false)];
    let table = RuleTable::from_rules(&[Rule(4)]);
    let kept = keep_violations(ds, &vec![0, 2], true, false, Rule(1), &RuleSet::empty(), &table);
    assert_eq!(messages(&kept), vec!["v4@3", "v4@1"]);
}

#[test]
fn silenced_violations_stay_when_allow_comments_are_ignored() {
    let ds = vec![violation(4, 0, false), violation(4, 1, false)];
    let table = RuleTable::from_rules(&[Rule(4)]);
    let kept = keep_violations(ds, &vec![0], false, false, Rule(1), &RuleSet::empty(), &table);
    assert_eq!(messages(&kept), vec!["v4@0", "v4@1"]);
}

#[test]
fn syntax_errors_keep_violations_up_to_the_first_and_drop_fixes() {
    let ds = vec![violation(2, 7, true), violation(1, 4, false), violation(4, 8, true), violation(2, 1, true)];
    let table = RuleTable::from_rules(&[Rule(1), Rule(2), Rule(4)]);
    let mut ast = RuleSet::empty();
    ast.insert(Rule(2));
    let kept = keep_violations(ds, &vec![], true, true, Rule(1), &ast, &table);
    assert_eq!(messages(&kept), vec!["v2@1", "v1@4", "v4@8"]);
    assert!(kept.iter().all(|d| d.fix.is_none()));
}

#[test]
fn syntax_errors_without_the_rule_keep_everything_but_fixes() {
    let ds = vec![violation(2, 7, true), violation(4, 1, true)];
    let table = RuleTable::from_rules(&[Rule(2), Rule(4)]);
    let kept = keep_violations(ds, &vec![], true, true, Rule(1), &RuleSet::empty(), &table);
    assert_eq!(messages(&kept), vec!["v2@7", "v4@1"]);
    assert!(kept.iter().all(|d| d.fix.is_none()));
}

#[test]
fn fixes_of_rules_that_are_not_fixed_are_dropped() {
    let ds = vec![violation(2, 1, true), violation(4, 2, true)];
    let mut table = RuleTable::from_rules(&[Rule(2)]);
    table.enable(Rule(4), false);
    let kept = keep_violations(ds, &vec![], true, false, Rule(1), &RuleSet::empty(), &table);
    assert!(kept[0].fix.is_some());
    assert!(kept[1].fix.is_none());
}

#[test]
fn parse_lists_nodes_in_pre_order() {
    let f = file("program p\nend program p\n");
    let tree = parse_fortran(&f).unwrap();
    assert_eq!(tree.nodes[0].range, TextRange::new(0, 24));
    assert!(!tree.has_error);
    assert!(tree.nodes.iter().enumerate().all(|(i, n)| n.children.iter().all(|c| *c > i)));
}

#[test]
fn check_reports_missing_double_colon() {
    let ds = check("program p\n  integer x\nend program p\n", false);
    assert_eq!(ds.len(), 1);
    assert_eq!(ds[0].rule, Some(Rule(2)));
    assert_eq!(ds[0].range(), Some(TextRange::new(12, 21)));
    assert!(ds[0].fix.is_some());
}

#[test]
fn check_reports_magic_numbers_in_sizes() {
    let ds = check("program p\n  integer :: x(10)\nend program p\n", false);
    assert_eq!(ds.len(), 1);
    assert_eq!(ds[0].rule, Some(Rule(3)));
    assert_eq!(ds[0].range(), Some(TextRange::new(25, 27)));
}

#[test]
fn allow_comments_silence_the_next_statement() {
    let text = "program p\n  ! allow(missing-double-colon)\n  integer x\nend program p\n";
    assert!(check(text, false).is_empty());
    assert_eq!(check(text, true).len(), 1);
}

#[test]
fn check_reads_dimension_qualifiers() {
    let text = "program p\n  integer, dimension(10) :: x\nend program p\n";
    let ds = check(text, false);
    let start = text.find("10").unwrap() as u32;
    assert_eq!(ds.len(), 1);
    assert_eq!(ds[0].rule, Some(Rule(3)));
    assert_eq!(ds[0].range(), Some(TextRange::new(start, start + 2)));
}

#[test]
fn small_sizes_are_not_magic() {
    assert!(check("program p\n  integer :: x(3), y(0:4)\nend program p\n", false).is_empty());
}

#[test]
fn syntax_errors_drop_every_fix() {
    let text = "program p\n  integer x\n  x = (1 + \nend program p\n";
    let f = file(text);
    let tree = parse_fortran(&f).unwrap();
    assert!(tree.has_error);
    let ds = check(text, false);
    assert!(ds.iter().any(|d| d.rule == Some(Rule(2)) && d.range() == Some(TextRange::new(12, 21))));
    assert!(ds.iter().all(|d| d.fix.is_none()));
}
