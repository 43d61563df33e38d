use fortitude::diagnostics::Applicability;
use fortitude::lints::{
    io_unit_value, is_dimension_qualifier, magic_io_unit_text, magic_number_text,
    magic_numbers_in_size, missing_double_colon, missing_double_colon_fix_title,
    missing_double_colon_text, parse_i32, SizeEntry,
};
use fortitude::range::TextRange;

fn strings(s: &[&str]) -> Vec<String> {
    s.iter().map(|x| x.to_string()).collect()
}

#[test]
fn double_colon_missing_gets_insertion_fix() {
    // integer x
    let fix = missing_double_colon(&strings(&["integer", "x"]), Some(8)).unwrap();
    assert_eq!(fix.applicability, Applicability::Safe);
    assert_eq!(fix.edits.len(), 1);
    assert_eq!(fix.edits[0].content.as_deref(), Some(":: "));
    assert_eq!(fix.edits[0].range, TextRange::new(8, 8));
    assert_eq!(missing_double_colon_text(), "variable declaration missing '::'");
    assert_eq!(missing_double_colon_fix_title(), "Add '::'");
}

#[test]
fn double_colon_present_or_no_declarator() {
    assert!(missing_double_colon(&strings(&["integer", "::", "x"]), Some(11)).is_none());
    assert!(missing_double_colon(&strings(&["integer"]), None).is_none());
}

#[test]
fn parses_integers_like_str_parse() {
    assert_eq!(parse_i32("10"), Some(10));
    assert_eq!(parse_i32("+7"), Some(7));
    assert_eq!(parse_i32("-2147483648"), Some(i32::MIN));
    assert_eq!(parse_i32("2147483647"), Some(i32::MAX));
    assert_eq!(parse_i32("2147483648"), None);
    assert_eq!(parse_i32("-"), None);
    assert_eq!(parse_i32(""), None);
    assert_eq!(parse_i32("10_int64"), None);
    for text in ["0", "-0", "0042", "99999999999", "-12", "1e3"] {
        assert_eq!(parse_i32(text), text.parse::<i32>().ok(), "{text}");
    }
}

#[test]
fn magic_numbers_skip_small_sizes() {
    // dimension(10, 0:4, 2:50, n)
    let entries = vec![
        SizeEntry::Number("10".to_string(), TextRange::new(10, 12)),
        SizeEntry::Extent(vec![
            ("0".to_string(), TextRange::new(14, 15)),
            ("4".to_string(), TextRange::new(16, 17)),
        ]),
        SizeEntry::Extent(vec![
            ("2".to_string(), TextRange::new(19, 20)),
            ("50".to_string(), TextRange::new(21, 23)),
        ]),
        SizeEntry::Other,
    ];
    assert_eq!(
        magic_numbers_in_size(&entries),
        vec![(10, TextRange::new(10, 12)), (50, TextRange::new(21, 23))]
    );
    assert!(is_dimension_qualifier("DIMENSION"));
    assert!(!is_dimension_qualifier("allocatable"));
    assert_eq!(
        magic_number_text(10),
        "Magic number in array size, consider replacing 10 with named `parameter`"
    );
}

#[test]
fn magic_io_units() {
    assert_eq!(io_unit_value("10"), 10);
    assert_eq!(io_unit_value("unit"), 0);
    assert_eq!(magic_io_unit_text(10), "Magic unit '10' in IO statement");
    assert_eq!(magic_io_unit_text(-3), "Magic unit '-3' in IO statement");
}
