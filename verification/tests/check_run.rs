use fortitude::check::{
    exit_failure, file_status, fix_mode_for, io_error_message, is_stdin, printer_flags,
    retain_not_ignored, stdin_output, summary_to_stderr, CheckStatus, FileOutcome,
};
use fortitude::cli::{config_flag_key_value, config_flag_tip, InvalidConfigFlagReason};
use fortitude::diagnostics::{Annotation, Diagnostic, DiagnosticId, LintName, Severity, Span};
use fortitude::range::TextRange;
use fortitude::source::SourceFile;
use fortitude::printer::{CheckResults, Diagnostics, FixMap, FixedFile, FixedRule};
use fortitude::rules::Rule;
use fortitude::settings::FixMode;

fn fixed_file(name: &str, rules: &[(&str, usize)]) -> FixedFile {
    FixedFile {
        filename: name.to_string(),
        rules: rules
            .iter()
            .map(|(code, count)| FixedRule { code: code.to_string(), name: format!("rule-{code}"), count: *count })
            .collect(),
    }
}

fn count(map: &FixMap, file: &str, code: &str) -> usize {
    map.files
        .iter()
        .filter(|f| f.filename == file)
        .flat_map(|f| f.rules.iter())
        .filter(|r| r.code == code)
        .map(|r| r.count)
        .sum()
}

fn diagnostic(rule: Option<u16>, message: &str) -> Diagnostic {
    let mut d = Diagnostic::new(DiagnosticId::lint(LintName::of("some-rule")), Severity::Error, message.to_string());
    d.rule = rule.map(Rule);
    d
}

#[test]
fn stdin_is_read_for_dash_or_stdin_filename() {
    assert!(is_stdin(&vec!["-".to_string()], false));
    assert!(is_stdin(&vec!["a.f90".to_string()], true));
    assert!(!is_stdin(&vec!["a.f90".to_string()], false));
    assert!(!is_stdin(&vec!["-".to_string(), "-".to_string()], false));
    assert!(!is_stdin(&vec![], false));
}

#[test]
fn fix_mode_and_printer_flags() {
    assert_eq!(fix_mode_for(false, false), FixMode::Generate);
    assert_eq!(fix_mode_for(true, false), FixMode::Apply);
    assert_eq!(fix_mode_for(false, true), FixMode::Apply);
    assert!(summary_to_stderr(true, FixMode::Apply));
    assert!(summary_to_stderr(true, FixMode::Diff));
    assert!(!summary_to_stderr(true, FixMode::Generate));
    assert!(!summary_to_stderr(false, FixMode::Apply));
    let flags = printer_flags(true, true);
    assert!(!flags.show_violations && flags.show_fix_summary && !flags.show_fix_diff);
}

#[test]
fn exit_status_follows_flags() {
    let none = Diagnostics::new(vec![]);
    let remaining = Diagnostics::new(vec![diagnostic(Some(1), "x")]);
    let fixed = Diagnostics { messages: vec![], fixed: FixMap { files: vec![fixed_file("a.f90", &[("C001", 1)])] } };
    assert!(!exit_failure(false, false, false, &none));
    assert!(exit_failure(false, false, false, &remaining));
    assert!(!exit_failure(true, false, false, &remaining));
    assert!(!exit_failure(false, false, false, &fixed));
    assert!(exit_failure(false, false, true, &fixed));
    assert!(!exit_failure(false, true, false, &fixed));
    assert!(exit_failure(false, true, true, &fixed));
    assert!(!exit_failure(false, true, true, &remaining));
}

#[test]
fn fix_maps_add_counts_per_file_and_rule() {
    let mut a = FixMap { files: vec![fixed_file("a.f90", &[("C001", 2), ("C002", 1)])] };
    let b = FixMap {
        files: vec![
            fixed_file("a.f90", &[("C001", 3), ("C003", 0)]),
            fixed_file("b.f90", &[("C002", 4)]),
            fixed_file("c.f90", &[]),
            fixed_file("d.f90", &[("C009", 0)]),
        ],
    };
    a.add(b);
    assert_eq!(count(&a, "a.f90", "C001"), 5);
    assert_eq!(count(&a, "a.f90", "C002"), 1);
    assert_eq!(count(&a, "a.f90", "C003"), 0);
    assert_eq!(count(&a, "b.f90", "C002"), 4);
    assert_eq!(a.total(), 10);
    // A file that lists no rule gets no entry; one that lists only empty counts does.
    assert!(a.files.iter().all(|f| f.filename != "c.f90"));
    assert!(a.files.iter().any(|f| f.filename == "d.f90"));
    assert_eq!(a.files.iter().filter(|f| f.filename == "a.f90").count(), 1);
}

#[test]
fn fix_map_from_files_drops_empty_entries() {
    let m = FixMap::from_files(vec![fixed_file("a.f90", &[]), fixed_file("b.f90", &[("C001", 1)])]);
    assert_eq!(m.files.len(), 1);
    assert_eq!(m.files[0].filename, "b.f90");
}

#[test]
fn results_add_statuses_and_merge() {
    let r = CheckResults::new()
        .add(CheckStatus::NoViolations)
        .add(CheckStatus::Violations(Diagnostics::new(vec![diagnostic(Some(1), "one")])))
        .add(CheckStatus::Skipped(Diagnostics::new(vec![diagnostic(None, "io")])))
        .add(CheckStatus::SkippedNoDiagnostic);
    assert_eq!(r.files_checked, 2);
    assert_eq!(r.files_skipped, 2);
    assert_eq!(r.diagnostics.messages.len(), 2);
    let other = CheckResults::from_stdin(Diagnostics {
        messages: vec![diagnostic(Some(2), "two")],
        fixed: FixMap { files: vec![fixed_file("-", &[("C001", 2)])] },
    });
    let merged = r.merge(other);
    assert_eq!(merged.files_checked, 3);
    assert_eq!(merged.files_skipped, 2);
    let messages: Vec<&str> = merged.diagnostics.messages.iter().map(|d| d.message.as_str()).collect();
    assert_eq!(messages, vec!["one", "io", "two"]);
    assert_eq!(merged.diagnostics.fixed.total(), 2);
}

#[test]
fn per_file_ignores_drop_ignored_rules() {
    let kept = retain_not_ignored(
        vec![diagnostic(Some(1), "a"), diagnostic(Some(2), "b"), diagnostic(None, "c"), diagnostic(Some(3), "d")],
        &vec![Rule(2), Rule(3)],
    );
    let messages: Vec<&str> = kept.iter().map(|d| d.message.as_str()).collect();
    assert_eq!(messages, vec!["a", "c"]);
}

#[test]
fn file_status_for_each_outcome() {
    let unreadable = FileOutcome::Unreadable("No such file".to_string());
    assert_eq!(io_error_message(&unreadable).unwrap(), "Error opening file: No such file");
    let failed = FileOutcome::Failed("bad".to_string());
    assert_eq!(io_error_message(&failed).unwrap(), "Failed to process: bad");
    assert!(io_error_message(&FileOutcome::Checked(Diagnostics::new(vec![]))).is_none());

    assert!(matches!(file_status(unreadable.clone(), None), CheckStatus::SkippedNoDiagnostic));
    match file_status(failed, Some(diagnostic(Some(9), "Failed to process: bad"))) {
        CheckStatus::Skipped(d) => {
            assert_eq!(d.messages.len(), 1);
            assert_eq!(d.messages[0].message, "Failed to process: bad");
        }
        other => panic!("unexpected {other:?}"),
    }
    assert!(matches!(
        file_status(FileOutcome::Checked(Diagnostics::new(vec![])), None),
        CheckStatus::NoViolations
    ));
    assert!(matches!(
        file_status(FileOutcome::Checked(Diagnostics::new(vec![diagnostic(Some(1), "x")])), None),
        CheckStatus::Violations(_)
    ));
}

#[test]
fn stdin_output_only_when_applying() {
    assert_eq!(stdin_output(FixMode::Apply, Some("fixed".to_string()), "src".to_string()), Some("fixed".to_string()));
    assert_eq!(stdin_output(FixMode::Apply, None, "src".to_string()), Some("src".to_string()));
    assert_eq!(stdin_output(FixMode::Diff, Some("fixed".to_string()), "src".to_string()), None);
    assert_eq!(stdin_output(FixMode::Generate, None, "src".to_string()), None);
}

const BASE_TIP: &str = "A `--config` flag must either be a path to a `.toml` configuration file\n       or a TOML `<KEY> = <VALUE>` pair overriding a specific configuration\n       option";

#[test]
fn config_key_value_split() {
    assert_eq!(
        config_flag_key_value("  line-length = 100 "),
        Some(("line-length".to_string(), "100 ".to_string()))
    );
    assert_eq!(config_flag_key_value("a=b=c"), Some(("a".to_string(), "b=c".to_string())));
    assert_eq!(config_flag_key_value("no-equals"), None);
}

#[test]
fn config_tip_for_missing_toml_path() {
    let reason = InvalidConfigFlagReason::InvalidToml("expected `=`".to_string());
    let tip = config_flag_tip("foo.TOML", Some("TOML".to_string()), &reason, None, "expected `=`");
    assert_eq!(
        tip,
        format!(
            "{BASE_TIP}\n\nIt looks like you were trying to pass a path to a configuration file.\nThe path `foo.TOML` does not point to a configuration file"
        )
    );
}

#[test]
fn config_tip_for_table_key() {
    let reason = InvalidConfigFlagReason::ValidTomlButInvalidFortitudeSchema("invalid type".to_string());
    let tip = config_flag_tip(
        "check = 1",
        None,
        &reason,
        Some(vec!["select".to_string(), "ignore".to_string()]),
        "invalid type",
    );
    assert_eq!(
        tip,
        format!(
            "{BASE_TIP}\n\n`check` is a table of configuration options.\nDid you want to override one of the table's subkeys?\n\nPossible choices:\n\n- `check.select`\n- `check.ignore`"
        )
    );
}

#[test]
fn config_tip_with_parser_message() {
    let reason = InvalidConfigFlagReason::InvalidToml("unexpected eof\n".to_string());
    let tip = config_flag_tip("line-length = ", None, &reason, None, "unexpected eof\n  ");
    assert_eq!(
        tip,
        format!("{BASE_TIP}\n\nThe supplied argument is not valid TOML:\n\nunexpected eof")
    );
    let plain = config_flag_tip("nonsense", None, &reason, None, "x");
    assert_eq!(plain, BASE_TIP);
    assert_eq!(
        InvalidConfigFlagReason::ExtendPassedViaConfigFlag.description(),
        "Cannot include `extend` in a --config flag value"
    );
}

fn located(file: &str, start: Option<u32>, fatal: bool, message: &str) -> Diagnostic {
    let severity = if fatal { Severity::Fatal } else { Severity::Error };
    let mut d = Diagnostic::new(DiagnosticId::lint(LintName::of("some-rule")), severity, message.to_string());
    let range = start.map(|s| TextRange::new(s, s + 1));
    d.annotate(Annotation::primary(Span { file: SourceFile::new(file.to_string(), "abcdefgh"), range }));
    d
}

#[test]
fn results_sort_by_fatality_file_and_start() {
    let mut r = CheckResults::from_stdin(Diagnostics::new(vec![
        located("b.f90", Some(1), false, "b1"),
        located("a.f90", Some(5), false, "a5"),
        located("a.f90", Some(2), true, "fatal"),
        located("a.f90", None, false, "a-none"),
        located("a.f90", Some(2), false, "a2"),
        located("a.f90", Some(2), false, "a2-second"),
    ]));
    r.sort();
    let messages: Vec<&str> = r.diagnostics.messages.iter().map(|d| d.message.as_str()).collect();
    assert_eq!(messages, vec!["a-none", "a2", "a2-second", "a5", "b1", "fatal"]);
}
