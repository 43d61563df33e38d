use fortitude::diagnostics::{
    Applicability, Diagnostic, DiagnosticId, Edit, Fix, LintName, SecondaryCode, Severity,
};
use fortitude::printer::{
    show_fix_status, print_fix_summary, CheckResults, Diagnostics, FixMap, FixableStatistics,
    FixedFile, FixedRule, Flags, Printer, StatisticsReport,
};
use fortitude::range::TextRange;
use fortitude::settings::{FixMode, LogLevel, OutputFormat, UnsafeFixes};
use fortitude::write::{decimal_string, num_digits};

fn lint(name: &'static str, code: &str, fix: Option<Applicability>) -> Diagnostic {
    let mut d = Diagnostic::new(
        DiagnosticId::lint(LintName::of(name)),
        Severity::Error,
        format!("{name} message"),
    );
    d.set_secondary_code(SecondaryCode::new(code.to_string()));
    if let Some(a) = fix {
        let mut f = Fix::safe_edit(Edit::range_deletion(TextRange::new(0, 1)));
        f.applicability = a;
        d.set_fix(f);
    }
    d
}

fn results(messages: Vec<Diagnostic>, fixed: Vec<FixedFile>, checked: usize, skipped: usize) -> CheckResults {
    CheckResults {
        diagnostics: Diagnostics { messages, fixed: FixMap { files: fixed } },
        files_checked: checked,
        files_skipped: skipped,
    }
}

fn printer(show_violations: bool, fix_mode: FixMode, unsafe_fixes: UnsafeFixes) -> Printer {
    Printer::new(
        OutputFormat::Full,
        LogLevel::Default,
        Flags { show_violations, show_fix_summary: false, show_fix_diff: false },
        fix_mode,
        unsafe_fixes,
    )
}

fn fixed_file(name: &str, rules: &[(&str, &str, usize)]) -> FixedFile {
    FixedFile {
        filename: name.to_string(),
        rules: rules
            .iter()
            .map(|(code, name, count)| FixedRule {
                code: code.to_string(),
                name: name.to_string(),
                count: *count,
            })
            .collect(),
    }
}

const INFO: &str = "For more information about specific rules, run:\n\n    fortitude explain X001,Y002,...\n\n";

#[test]
fn summary_all_checks_passed() {
    let p = printer(true, FixMode::Generate, UnsafeFixes::Hint);
    let r = results(vec![], vec![], 3, 0);
    assert_eq!(p.summary_text(&r), "fortitude: 3 files scanned.\nAll checks passed!\n\n");
}

#[test]
fn summary_counts_errors_and_skipped_files() {
    let p = printer(true, FixMode::Generate, UnsafeFixes::Hint);
    let r = results(vec![lint("a", "A001", None), lint("b", "B001", None)], vec![], 2, 1);
    assert_eq!(
        p.summary_text(&r),
        format!("fortitude: 2 files scanned, 1 could not be read.\nNumber of errors: 2\n\n{INFO}")
    );
}

#[test]
fn summary_total_is_fixed_plus_remaining() {
    let p = printer(true, FixMode::Apply, UnsafeFixes::Hint);
    let r = results(
        vec![lint("a", "A001", None)],
        vec![fixed_file("x.f90", &[("A001", "a", 2), ("B001", "b", 1)])],
        1,
        0,
    );
    assert_eq!(
        p.summary_text(&r),
        format!("fortitude: 1 files scanned.\nNumber of errors: 4 (3 fixed, 1 remaining)\n\n{INFO}")
    );
}

#[test]
fn summary_hints_at_hidden_unsafe_fixes() {
    let p = printer(true, FixMode::Generate, UnsafeFixes::Hint);
    let r = results(
        vec![
            lint("a", "A001", Some(Applicability::Safe)),
            lint("b", "B001", Some(Applicability::Unsafe)),
            lint("c", "C001", Some(Applicability::Unsafe)),
        ],
        vec![],
        1,
        0,
    );
    assert_eq!(
        p.summary_text(&r),
        format!(
            "fortitude: 1 files scanned.\nNumber of errors: 3\n\n{INFO}[*] 1 fixable with the `--fix` option (2 hidden fixes can be enabled with the `--unsafe-fixes` option).\n"
        )
    );
}

#[test]
fn summary_only_hidden_fix() {
    let p = printer(true, FixMode::Generate, UnsafeFixes::Hint);
    let r = results(vec![lint("b", "B001", Some(Applicability::Unsafe))], vec![], 1, 0);
    assert_eq!(
        p.summary_text(&r),
        format!(
            "fortitude: 1 files scanned.\nNumber of errors: 1\n\n{INFO}No fixes available (1 hidden fix can be enabled with the `--unsafe-fixes` option).\n"
        )
    );
}

#[test]
fn summary_fix_only_modes() {
    let r = results(
        vec![lint("b", "B001", Some(Applicability::Unsafe))],
        vec![fixed_file("x.f90", &[("A001", "a", 1)])],
        1,
        0,
    );
    let apply = printer(false, FixMode::Apply, UnsafeFixes::Hint);
    assert_eq!(
        apply.summary_text(&r),
        "Fixed 1 error (1 additional fix available with `--unsafe-fixes`).\n"
    );
    let generate = printer(false, FixMode::Generate, UnsafeFixes::Hint);
    assert_eq!(
        generate.summary_text(&r),
        "Would fix 1 error (1 additional fix available with `--unsafe-fixes`).\n"
    );
    let none_fixed = results(vec![lint("b", "B001", Some(Applicability::Unsafe))], vec![], 1, 0);
    assert_eq!(
        apply.summary_text(&none_fixed),
        "No errors fixed (1 fix available with `--unsafe-fixes`).\n"
    );
    assert_eq!(
        generate.summary_text(&none_fixed),
        "No errors would be fixed (1 fix available with `--unsafe-fixes`).\n"
    );
    let only_fixed = results(vec![], vec![fixed_file("x.f90", &[("A001", "a", 3)])], 1, 0);
    assert_eq!(apply.summary_text(&only_fixed), "Fixed 3 errors.\n");
    assert_eq!(generate.summary_text(&only_fixed), "Would fix 3 errors.\n");
}

#[test]
fn summary_quiet_is_empty() {
    let mut p = printer(true, FixMode::Generate, UnsafeFixes::Hint);
    p.log_level = LogLevel::Quiet;
    let r = results(vec![lint("a", "A001", None)], vec![], 1, 0);
    assert_eq!(p.summary_text(&r), "");
}

#[test]
fn fixable_statistics_counts() {
    let d = Diagnostics {
        messages: vec![
            lint("a", "A001", Some(Applicability::Safe)),
            lint("b", "B001", Some(Applicability::Unsafe)),
            lint("c", "C001", Some(Applicability::DisplayOnly)),
            lint("d", "D001", None),
        ],
        fixed: FixMap { files: vec![] },
    };
    let hinted = FixableStatistics::try_from(&d, UnsafeFixes::Hint).unwrap();
    assert_eq!((hinted.applicable, hinted.inapplicable_unsafe), (1, 1));
    let enabled = FixableStatistics::try_from(&d, UnsafeFixes::Enabled).unwrap();
    assert_eq!((enabled.applicable, enabled.inapplicable_unsafe), (2, 0));
    let none = Diagnostics { messages: vec![lint("d", "D001", None)], fixed: FixMap { files: vec![] } };
    assert!(FixableStatistics::try_from(&none, UnsafeFixes::Hint).is_none());
    assert!(show_fix_status(FixMode::Generate, Some(&hinted)));
    assert!(!show_fix_status(FixMode::Apply, Some(&hinted)));
    assert!(!show_fix_status(FixMode::Generate, None));
}

#[test]
fn statistics_group_and_order() {
    let p = printer(true, FixMode::Generate, UnsafeFixes::Hint);
    let messages = vec![
        lint("b", "B001", None),
        lint("a", "A001", Some(Applicability::Safe)),
        lint("b", "B001", Some(Applicability::Safe)),
        lint("c", "C001", None),
        lint("a", "A001", Some(Applicability::Safe)),
    ];
    let stats = p.statistics(&messages);
    let summary: Vec<(String, usize, usize, bool)> = stats
        .iter()
        .map(|s| (s.code.clone().unwrap().0, s.count, s.fixable_count, s.all_fixable))
        .collect();
    assert_eq!(
        summary,
        vec![
            ("A001".to_string(), 2, 2, true),
            ("B001".to_string(), 2, 1, false),
            ("C001".to_string(), 1, 0, false),
        ]
    );
    assert_eq!(stats[0].name, "a");
}

#[test]
fn statistics_text_table() {
    let p = printer(true, FixMode::Generate, UnsafeFixes::Hint);
    let messages = vec![
        lint("long-name", "A0001", Some(Applicability::Safe)),
        lint("b", "B1", None),
    ];
    let r = results(messages, vec![], 1, 0);
    match p.write_statistics(&r) {
        StatisticsReport::Text(t) => {
            assert_eq!(
                t,
                format!(
                    "1\tA0001\t[*] long-name\n1\tB1   \t[ ] b\nfortitude: 1 files scanned.\nNumber of errors: 2\n\n{INFO}[*] 1 fixable with the `--fix` option.\n"
                )
            );
        }
        other => panic!("unexpected report {other:?}"),
    }
    let empty = results(vec![], vec![], 1, 0);
    assert!(matches!(p.write_statistics(&empty), StatisticsReport::Nothing));
    let mut pylint = p;
    pylint.format = OutputFormat::Pylint;
    assert!(matches!(pylint.write_statistics(&r), StatisticsReport::Unsupported(OutputFormat::Pylint)));
    let mut json = p;
    json.format = OutputFormat::Json;
    assert!(matches!(json.write_statistics(&r), StatisticsReport::Json(s) if s.len() == 2));
}

#[test]
fn fix_summary_sorts_files_and_rules() {
    let fixed = FixMap {
        files: vec![
            fixed_file("b.f90", &[("A001", "alpha", 1)]),
            fixed_file("a.f90", &[("B001", "beta", 2), ("C001", "gamma", 12)]),
        ],
    };
    let names = vec!["b.f90".to_string(), "a.f90".to_string()];
    assert_eq!(
        print_fix_summary(&fixed, &names),
        "Fixed 15 errors:\n- a.f90:\n    12 × C001 (gamma)\n     2 × B001 (beta)\n- b.f90:\n     1 × A001 (alpha)\n"
    );
}

#[test]
fn write_once_silent_and_fix_summary() {
    let r = results(vec![], vec![fixed_file("a.f90", &[("A001", "alpha", 1)])], 1, 0);
    let names = vec!["a.f90".to_string()];
    let mut p = printer(false, FixMode::Apply, UnsafeFixes::Hint);
    p.flags.show_fix_summary = true;
    assert_eq!(
        p.write_once(&r, "", &names),
        "\nFixed 1 error:\n- a.f90:\n    1 × A001 (alpha)\n\nFixed 1 error.\n"
    );
    p.log_level = LogLevel::Silent;
    assert_eq!(p.write_once(&r, "", &names), "");
    let mut shown = printer(true, FixMode::Generate, UnsafeFixes::Hint);
    shown.format = OutputFormat::Pylint;
    let none = results(vec![], vec![], 1, 0);
    assert_eq!(shown.write_once(&none, "rendered\n", &vec![]), "rendered\n");
}

#[test]
fn decimal_and_digits() {
    assert_eq!(decimal_string(0).iter().collect::<String>(), "0");
    assert_eq!(decimal_string(1207).iter().collect::<String>(), "1207");
    assert_eq!(num_digits(0), 1);
    assert_eq!(num_digits(9), 1);
    assert_eq!(num_digits(10), 2);
    assert_eq!(num_digits(12345), 5);
}
