use fortitude::ast::{
    dtype_is_plain_number, eq_ignore_ascii_case, strip_line_breaks, Intent,
    ProcedureAttributeKind, ProcedureKind,
};
use fortitude::cli::{resolve_bool_arg, LogLevelArgs, ServerCommand};
use fortitude::order::{chars_lt, stable_order_by_count_desc, stable_order_by_key};
use fortitude::panic_error::{PanicError, Payload};
use fortitude::settings::{
    is_show_diff_enabled, is_warning_severity_enabled, FixMode, IndentWidth, LogLevel,
    OutputFormat, PreviewMode, UnsafeFixes,
};
use fortitude::diagnostics::Applicability;

#[test]
fn line_breaks_are_stripped() {
    assert_eq!(strip_line_breaks("a &\r\n  & b"), "a     b");
    assert_eq!(strip_line_breaks("x\ny"), "x y");
    assert_eq!(strip_line_breaks(""), "");
}

#[test]
fn plain_number_types() {
    assert!(dtype_is_plain_number("integer"));
    assert!(dtype_is_plain_number("REAL"));
    assert!(dtype_is_plain_number("Logical"));
    assert!(dtype_is_plain_number("complex"));
    assert!(!dtype_is_plain_number("double precision"));
    assert!(!dtype_is_plain_number("character"));
    assert!(!dtype_is_plain_number("integers"));
    assert!(eq_ignore_ascii_case("AbC", "aBc"));
    assert!(!eq_ignore_ascii_case("é", "É"));
}

#[test]
fn intents_from_children() {
    let kinds = |ks: &[&str]| ks.iter().map(|k| k.to_string()).collect::<Vec<_>>();
    assert_eq!(Intent::from_child_kinds(&kinds(&["intent", "(", "in", ")"])), Intent::In);
    assert_eq!(Intent::from_child_kinds(&kinds(&["intent", "(", "out", ")"])), Intent::Out);
    assert_eq!(Intent::from_child_kinds(&kinds(&["intent", "(", "inout", ")"])), Intent::InOut);
    assert_eq!(Intent::from_child_kinds(&kinds(&["intent", "(", "in", "out", ")"])), Intent::InOut);
}

#[test]
fn procedure_kinds_and_attributes() {
    assert_eq!(ProcedureKind::from_str("function"), Some(ProcedureKind::Function));
    assert_eq!(ProcedureKind::from_str("SUBROUTINE"), Some(ProcedureKind::Subroutine));
    assert_eq!(ProcedureKind::from_str("module"), None);
    assert_eq!(ProcedureAttributeKind::from_str("Pure"), Some(ProcedureAttributeKind::Pure));
    assert_eq!(
        ProcedureAttributeKind::from_str("NON_RECURSIVE"),
        Some(ProcedureAttributeKind::NonRecursive)
    );
    assert_eq!(ProcedureAttributeKind::from_str("nonrecursive"), None);
}

#[test]
fn log_levels_from_flags() {
    let args = |verbose, quiet, silent| LogLevelArgs { verbose, quiet, silent };
    assert_eq!(args(false, false, false).log_level(), LogLevel::Default);
    assert_eq!(args(true, false, false).log_level(), LogLevel::Verbose);
    assert_eq!(args(true, true, false).log_level(), LogLevel::Quiet);
    assert_eq!(args(true, true, true).log_level(), LogLevel::Silent);
    assert!(LogLevel::Verbose.at_least(LogLevel::Default));
    assert!(!LogLevel::Quiet.at_least(LogLevel::Default));
}

#[test]
fn opposite_flags() {
    assert_eq!(resolve_bool_arg(true, false), Some(true));
    assert_eq!(resolve_bool_arg(false, true), Some(false));
    assert_eq!(resolve_bool_arg(false, false), None);
    assert_eq!(ServerCommand { preview: true, no_preview: false }.resolve_preview(), Some(true));
    assert_eq!(ServerCommand { preview: false, no_preview: false }.resolve_preview(), None);
}

#[test]
fn modes() {
    assert!(FixMode::Apply.is_apply());
    assert!(!FixMode::Diff.is_apply());
    assert_eq!(UnsafeFixes::Enabled.required_applicability(), Applicability::Unsafe);
    assert_eq!(UnsafeFixes::Hint.required_applicability(), Applicability::Safe);
    assert_eq!(UnsafeFixes::Disabled.required_applicability(), Applicability::Safe);
    assert!(is_warning_severity_enabled(PreviewMode::Enabled));
    assert!(!is_show_diff_enabled(PreviewMode::Disabled));
    assert!(OutputFormat::Grouped.is_human_readable());
    assert!(!OutputFormat::Sarif.is_human_readable());
    assert_eq!(IndentWidth(4).as_usize(), 4);
}

#[test]
fn panic_messages() {
    let e = PanicError {
        location: Some("src/lib.rs:1:2".to_string()),
        payload: Payload(Some("boom".to_string())),
    };
    assert_eq!(
        e.to_diagnostic_message(Some("a.f90")),
        "Panicked at src/lib.rs:1:2 when checking `a.f90`: `boom`"
    );
    let anon = PanicError { location: None, payload: Payload(None) };
    assert_eq!(anon.to_diagnostic_message(None), "Panicked: `Box<dyn Any>`");
    assert_eq!(e.payload.downcast_ref(), Some("boom"));
    assert_eq!(anon.payload.downcast_ref(), None);
}

#[test]
fn stable_orders() {
    let keys: Vec<Vec<char>> = ["b", "a", "b", "", "a"].iter().map(|s| s.chars().collect()).collect();
    assert_eq!(stable_order_by_key(&keys), vec![3, 1, 4, 0, 2]);
    assert_eq!(stable_order_by_count_desc(&vec![1, 3, 3, 0, 5]), vec![4, 1, 2, 0, 3]);
    assert!(chars_lt(&['a'], &['b']));
    assert!(chars_lt(&['a'], &['a', 'a']));
    assert!(!chars_lt(&['b'], &['a', 'z']));
    assert!(!chars_lt(&[], &[]));
}
