use fortitude::line_index::{FilterMap, LineFilter, LineIndex, LineRange};
use fortitude::range::TextRange;

const TEST_FILE: &str = r#"line 1
line 2
line 3
line 4
line 5
line 6
line 7
line 8
line 9
line 10
"#;

fn make_filter() -> Vec<LineFilter> {
    vec![
        LineFilter {
            name: "file1.f90".to_string(),
            lines: Some(vec![
                LineRange { start: 1, end: 3 },
                LineRange { start: 8, end: 10 },
            ]),
        },
        LineFilter {
            name: "file2.f90".to_string(),
            lines: None,
        },
    ]
}

#[test]
fn filter_map() {
    let filter = FilterMap::new(make_filter());
    let index = LineIndex::from_source_text(TEST_FILE);

    assert!(filter.get(&"file1.f90".to_string(), &index).is_some());
    assert!(filter.get(&"nothing".to_string(), &index).is_none());
}

#[test]
fn filter_set() {
    let filter = FilterMap::new(make_filter());
    let index = LineIndex::from_source_text(TEST_FILE);
    let filter = filter
        .get(&"file1.f90".to_string(), &index)
        .expect("Expected file1.f90");

    assert!(filter.contains(18));
    assert!(filter.contains(52));
    assert!(!filter.contains(25));
    assert!(!filter.contains(129));

    assert!(filter.contains_range(TextRange::new(6, 17)));
    assert!(!filter.contains_range(TextRange::new(32, 38)));
}

#[test]
fn filter_without_lines_covers_whole_file() {
    let filter = FilterMap::new(make_filter());
    let index = LineIndex::from_source_text(TEST_FILE);
    let filter = filter.get(&"file2.f90".to_string(), &index).unwrap();
    assert_eq!(filter.inner, vec![TextRange::new(0, 71)]);
    assert!(filter.contains(71));
}

#[test]
fn line_index_lines() {
    let index = LineIndex::from_source_text("a\nbc\r\nd\re");
    assert_eq!(index.line_count(), 4);
    assert_eq!(index.line_start(1), 0);
    assert_eq!(index.line_start(2), 2);
    assert_eq!(index.line_start(3), 6);
    assert_eq!(index.line_start(4), 8);
    assert_eq!(index.line_end(2), 6);
    assert_eq!(index.line_end(4), 9);
    assert_eq!(index.line_index(0), 1);
    assert_eq!(index.line_index(3), 2);
    assert_eq!(index.line_index(5), 2);
    assert_eq!(index.line_index(6), 3);
    assert_eq!(index.line_index(9), 4);
}

#[test]
fn later_filter_for_same_file_wins() {
    let map = FilterMap::new(vec![
        LineFilter { name: "a.f90".to_string(), lines: Some(vec![LineRange { start: 1, end: 1 }]) },
        LineFilter { name: "a.f90".to_string(), lines: Some(vec![LineRange { start: 2, end: 2 }]) },
    ]);
    let index = LineIndex::from_source_text("x\ny\n");
    let set = map.get(&"a.f90".to_string(), &index).unwrap();
    assert_eq!(set.inner, vec![TextRange::new(2, 4)]);
}
