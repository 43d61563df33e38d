use fortitude::node_text::{collect_rule_codes, escape_delimiter, escape_invisible, render_node_text};

#[test]
fn invisible_characters_are_escaped() {
    assert_eq!(escape_invisible('\n'), Some("\\n"));
    assert_eq!(escape_invisible('\\'), Some("\\\\"));
    assert_eq!(escape_invisible('\x0b'), Some("\\v"));
    assert_eq!(escape_invisible('a'), None);
}

#[test]
fn delimiters_are_escaped() {
    assert_eq!(escape_delimiter('`'), Some("\\`"));
    assert_eq!(escape_delimiter('"'), Some("\\\""));
    assert_eq!(escape_delimiter('\''), None);
}

#[test]
fn node_text_is_shown_on_one_line() {
    assert_eq!(render_node_text("a\tb\n\"c\""), "a\\tb\\n\\\"c\\\"");
    assert_eq!(render_node_text(""), "");
}

#[test]
fn rule_codes_are_sorted_once_and_joined() {
    let codes = vec!["S061".to_string(), "C003".to_string(), "S061".to_string(), "E001".to_string()];
    assert_eq!(collect_rule_codes(&codes), "C003, E001, S061");
    assert_eq!(collect_rule_codes(&Vec::new()), "");
}
