use fortitude::formatter::{
    break_lines_once, get_indent, get_uncontinued_lines, long_lines, node_contains_long_line,
    possible_breaks, trim_end_chars, trim_start_chars, Break, Point, SyntaxTree, TreeNode,
    WrapMatch, try_break_lines_once,
};
use fortitude::wrap::{break_lines, matches_fit_exec, wrap_input};

fn strings(lines: &[&str]) -> Vec<String> {
    lines.iter().map(|s| s.to_string()).collect()
}

fn chars(s: &str) -> Vec<char> {
    s.chars().collect()
}

#[test]
fn trims_whitespace_and_ampersands() {
    assert_eq!(trim_end_chars(&chars("x + &  "), true), chars("x +"));
    assert_eq!(trim_end_chars(&chars("x + &  "), false), chars("x + &"));
    assert_eq!(trim_start_chars(&chars("  & y"), true), chars("y"));
    assert_eq!(trim_start_chars(&chars("  & y"), false), chars("& y"));
}

#[test]
fn uncontinued_lines_join_continuations() {
    let lines = strings(&["a = 1 + &", "   & 2   ", "b = 3  ", "c = &", "  4 &", " &5", ""]);
    let joined = get_uncontinued_lines(&lines);
    assert_eq!(joined, strings(&["a = 1 +2", "b = 3", "c =45", ""]));
}

#[test]
fn uncontinued_lines_drop_unfinished_statement() {
    let lines = strings(&["x = 1", "y = &"]);
    assert_eq!(get_uncontinued_lines(&lines), strings(&["x = 1"]));
    assert_eq!(get_uncontinued_lines(&Vec::new()), Vec::<String>::new());
}

#[test]
fn indent_counts_leading_bytes() {
    assert_eq!(get_indent(&"    x = 1".to_string()), 4);
    assert_eq!(get_indent(&"\t x".to_string()), 2);
    assert_eq!(get_indent(&"x".to_string()), 0);
    assert_eq!(get_indent(&"     ".to_string()), 0);
}

#[test]
fn long_lines_are_listed_in_order() {
    let lines = strings(&["short", "a line that is long", "ok", "é é é é é"]);
    assert_eq!(long_lines(&lines, 8), vec![1, 3]);
    assert_eq!(long_lines(&lines, 100), Vec::<usize>::new());
}

#[test]
fn node_long_line_search() {
    let long = vec![2, 5, 9];
    assert!(node_contains_long_line(0, 2, &long));
    assert!(node_contains_long_line(6, 9, &long));
    assert!(!node_contains_long_line(3, 4, &long));
    assert!(!node_contains_long_line(10, 20, &long));
    assert!(!node_contains_long_line(0, 5, &Vec::new()));
}

fn one_statement_tree() -> SyntaxTree {
    SyntaxTree {
        nodes: vec![
            TreeNode { start_row: 0, end_row: 1, children: vec![1] },
            TreeNode { start_row: 0, end_row: 0, children: vec![] },
        ],
    }
}

fn break_after(row: usize, column: usize) -> WrapMatch {
    WrapMatch { pattern_index: 0, root: 1, break_after: vec![(Point { row, column }, row)] }
}

#[test]
fn possible_breaks_collect_matches_per_node() {
    let lines = strings(&["  x = aaaa + bbbb", "end"]);
    let ms = vec![break_after(0, 10), break_after(0, 12)];
    let pb = possible_breaks(&lines, 3, &ms, 2);
    assert_eq!(pb.len(), 2);
    assert!(pb[0].is_none());
    let c = pb[1].as_ref().unwrap();
    assert_eq!(c.pattern_id, 0);
    assert_eq!(
        c.breaks,
        vec![
            Break { point: Point { row: 0, column: 10 }, next_indent: 5 },
            Break { point: Point { row: 0, column: 12 }, next_indent: 5 },
        ]
    );
}

#[test]
fn break_lines_once_splits_long_statement() {
    let mut lines = strings(&["x = aaaa + bbbb", "end"]);
    let n = break_lines_once(&mut lines, 10, 2, &one_statement_tree(), &vec![break_after(0, 8)]);
    assert_eq!(n, 1);
    assert_eq!(lines, strings(&["x = aaaa &", "  + bbbb", "end"]));
}

#[test]
fn break_lines_once_applies_breaks_from_the_last() {
    let mut lines = strings(&["x = aa + bb + cc"]);
    let tree = SyntaxTree {
        nodes: vec![
            TreeNode { start_row: 0, end_row: 0, children: vec![1] },
            TreeNode { start_row: 0, end_row: 0, children: vec![] },
        ],
    };
    // The root itself is not breakable; its child on the long line is.
    let ms = vec![WrapMatch {
        pattern_index: 4,
        root: 1,
        break_after: vec![(Point { row: 0, column: 11 }, 0), (Point { row: 0, column: 6 }, 0)],
    }];
    let n = break_lines_once(&mut lines, 8, 4, &tree, &ms);
    assert_eq!(n, 2);
    assert_eq!(lines, strings(&["x = aa &", "    + bb &", "    + cc"]));
}

#[test]
fn break_lines_once_leaves_short_lines() {
    let mut lines = strings(&["x = 1", "end"]);
    let n = break_lines_once(&mut lines, 80, 2, &one_statement_tree(), &vec![break_after(0, 3)]);
    assert_eq!(n, 0);
    assert_eq!(lines, strings(&["x = 1", "end"]));
}

#[test]
fn try_break_lines_once_refuses_a_break_inside_a_character() {
    let mut lines = strings(&["x = 'éééé' + bbbb", "end"]);
    let ms = vec![break_after(0, 6)];
    assert_eq!(try_break_lines_once(&mut lines, 10, 2, &one_statement_tree(), &ms), None);
    assert_eq!(lines, strings(&["x = 'éééé' + bbbb", "end"]));
}

#[test]
fn try_break_lines_once_breaks_like_break_lines_once() {
    let mut lines = strings(&["x = aaaa + bbbb", "end"]);
    let n = try_break_lines_once(&mut lines, 10, 2, &one_statement_tree(), &vec![break_after(0, 8)]);
    assert_eq!(n, Some(1));
    assert_eq!(lines, strings(&["x = aaaa &", "  + bbbb", "end"]));
}

#[test]
fn matches_fit_checks_roots_rows_and_patterns() {
    let lines = strings(&["x = aaaa + bbbb", "end"]);
    assert!(matches_fit_exec(&lines, 2, &vec![break_after(0, 8)], 2));
    assert!(!matches_fit_exec(&lines, 2, &vec![break_after(5, 8)], 2));
    assert!(!matches_fit_exec(&lines, 2, &vec![break_after(0, 8)], 1));
    let other = WrapMatch { pattern_index: 1, root: 1, break_after: vec![(Point { row: 0, column: 3 }, 0)] };
    assert!(!matches_fit_exec(&lines, 2, &vec![break_after(0, 8), other], 2));
}

#[test]
fn break_lines_reports_a_query_without_captures() {
    let mut lines = strings(&["x = 1"]);
    let r = break_lines(&mut lines, 80, 2, "(identifier) @name");
    assert_eq!(r, Err("the query has no `root` capture".to_string()));
}

#[test]
fn break_lines_reports_a_query_that_does_not_build() {
    let mut lines = strings(&["x = 1"]);
    assert!(break_lines(&mut lines, 80, 2, "((((").is_err());
}

#[test]
fn wrap_input_lists_the_tree_root_first() {
    let lines = strings(&["program p", "x = 1", "end program p"]);
    let (tree, ms) = wrap_input(&lines, "(identifier) @root @break-after").unwrap();
    assert_eq!(tree.nodes[0].start_row, 0);
    // Each line is handed to the parser with its line ending, so the root ends on the row after the last.
    assert_eq!(tree.nodes[0].end_row, 3);
    assert!(!ms.is_empty());
    assert!(ms.iter().all(|m| m.root < tree.nodes.len() && m.break_after.len() == 1));
}
