use fortitude::diagnostics::{Applicability, Edit, Fix};
use fortitude::diff::{apply_fix, fix_diff, render_diff, ChangeKind, DiffChange};
use fortitude::range::TextRange;
use fortitude::source::SourceFile;

fn file(text: &str) -> SourceFile {
    SourceFile::new("test.f90".to_string(), text)
}

fn change(tag: ChangeKind, new_index: Option<usize>, text: &str) -> DiffChange {
    DiffChange {
        tag,
        new_index,
        value: text.to_string(),
        missing_newline: false,
    }
}

#[test]
fn apply_fix_replaces_and_deletes_in_order() {
    let f = file("integer*4 :: x\nreal*8 :: y\n");
    let fix = Fix {
        applicability: Applicability::Safe,
        edits: vec![
            Edit::range_replacement("integer(4)".to_string(), TextRange::new(0, 9)),
            Edit::range_deletion(TextRange::new(15, 22)),
        ],
    };
    let (text, count) = apply_fix(&f, &fix);
    assert_eq!(text.iter().collect::<String>(), "integer(4) :: x\n:: y\n");
    assert_eq!(count, 2);
}

#[test]
fn apply_fix_skips_edits_outside_the_file() {
    let f = file("abc\n");
    let fix = Fix {
        applicability: Applicability::Safe,
        edits: vec![Edit::insertion("zzz".to_string(), 10)],
    };
    let (text, count) = apply_fix(&f, &fix);
    assert_eq!(text.iter().collect::<String>(), "abc\n");
    assert_eq!(count, 0);
}

#[test]
fn render_diff_numbers_and_signs_lines() {
    let groups = vec![vec![
        change(ChangeKind::Equal, Some(0), "program p\n"),
        change(ChangeKind::Delete, None, "integer*4 :: x\n"),
        change(ChangeKind::Insert, Some(1), "integer(4) :: x\n"),
    ]];
    let text = render_diff(&groups, 2);
    assert_eq!(
        text,
        "1 | program p\n  - integer*4 :: x\n2 + integer(4) :: x\n"
    );
}

#[test]
fn render_diff_separates_groups_and_pads_numbers() {
    let groups = vec![
        vec![change(ChangeKind::Equal, Some(0), "a\n")],
        vec![change(ChangeKind::Insert, Some(11), "b\x07\n")],
    ];
    let text = render_diff(&groups, 12);
    let expected = format!("1  | a\n{}\n12 + b\u{2407}\n", "-".repeat(80));
    assert_eq!(text, expected);
}

#[test]
fn render_diff_marks_missing_newline() {
    let groups = vec![vec![DiffChange {
        tag: ChangeKind::Insert,
        new_index: Some(0),
        value: "xy".to_string(),
        missing_newline: true,
    }]];
    assert_eq!(render_diff(&groups, 1), "1 + xy\n");
}

#[test]
fn fix_diff_without_applied_edits_shows_only_the_note() {
    let f = file("abc\n");
    let fix = Fix {
        applicability: Applicability::Unsafe,
        edits: vec![Edit::range_deletion(TextRange::new(20, 30))],
    };
    assert_eq!(
        fix_diff(&f, &fix),
        Some("note: This is an unsafe fix and may change runtime behavior\n".to_string())
    );
    let safe = Fix { applicability: Applicability::Safe, edits: vec![] };
    assert_eq!(fix_diff(&f, &safe), Some(String::new()));
}

#[test]
fn fix_diff_shows_changed_line() {
    let f = file("a\nb\nc\n");
    let fix = Fix {
        applicability: Applicability::DisplayOnly,
        edits: vec![Edit::range_replacement("B".to_string(), TextRange::new(2, 3))],
    };
    let shown = fix_diff(&f, &fix).unwrap();
    assert!(shown.starts_with("1 | a\n  - b\n"), "{shown}");
    assert!(shown.contains("2 + B\n"), "{shown}");
    assert!(shown.contains("3 | c\n"), "{shown}");
    assert!(shown.ends_with(
        "note: This is a display-only fix and is likely to be incorrect\n"
    ));
}

#[test]
fn render_diff_puts_no_space_before_a_bare_line_ending() {
    let groups = vec![vec![change(ChangeKind::Insert, Some(0), "\n")]];
    assert_eq!(render_diff(&groups, 1), "1 +\n");
}

#[test]
fn fix_diff_of_a_safe_fix_has_no_note_and_exact_groups() {
    let f = file("x = 1\n");
    let fix = Fix {
        applicability: Applicability::Safe,
        edits: vec![Edit::range_replacement("2".to_string(), TextRange::new(4, 5))],
    };
    assert_eq!(fix_diff(&f, &fix), Some("  - x = 1\n1 + x = 2\n".to_string()));
}

#[test]
fn fix_diff_of_an_unsafe_fix_ends_with_the_note() {
    let f = file("a\nb\n");
    let fix = Fix {
        applicability: Applicability::Unsafe,
        edits: vec![Edit::insertion("c\n".to_string(), 4)],
    };
    assert_eq!(
        fix_diff(&f, &fix),
        Some("1 | a\n2 | b\n3 + c\nnote: This is an unsafe fix and may change runtime behavior\n".to_string())
    );
}
