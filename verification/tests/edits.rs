use fortitude::edits::{redent, LineEnding};

#[test]
fn redent_empty() {
    assert_eq!(redent("", "", LineEnding::Lf), "");
}

#[test]
fn redent_multi_line() {
    let x = [
        "    foo",
        "  bar",
        "    baz",
    ].join("\n");
    let y = [
        "   foo",
        " bar",
        "   baz"
    ].join("\n");
    assert_eq!(redent(&x, " ", LineEnding::Lf), y);
}

#[test]
fn redent_empty_line() {
    let x = [
        "    foo",
        "  bar",
        "   ",
        "    baz"
    ].join("\n");
    let y = [
        "   foo",
        " bar",
        "",
        "   baz"
    ].join("\n");
    assert_eq!(redent(&x, " ", LineEnding::Lf), y);
}

#[test]
fn redent_blank_line() {
    let x = [
        "      foo",
        "",
        "        bar",
        "          foo",
        "          bar",
        "          baz",
    ].join("\n");
    let y = [
        "foo",
        "",
        "  bar",
        "    foo",
        "    bar",
        "    baz",
    ].join("\n");
    assert_eq!(redent(&x, "", LineEnding::Lf), y);
}

#[test]
fn redent_whitespace_line() {
    let x = [
        "      foo",
        " ",
        "        bar",
        "          foo",
        "          bar",
        "          baz",
    ].join("\n");
    let y = [
        "  foo",
        "",
        "    bar",
        "      foo",
        "      bar",
        "      baz",
    ].join("\n");
    assert_eq!(redent(&x, "  ", LineEnding::Lf), y);
}

#[test]
fn redent_mixed_whitespace() {
    let x = [
        "\tfoo",
        "  bar",
    ].join("\n");
    let y = [
        "\tfoo",
        "  bar",
    ].join("\n");
    assert_eq!(redent(&x, "", LineEnding::Lf), y);
}

#[test]
fn redent_tabbed_whitespace() {
    let x = [
        "\t\tfoo",
        "\t\t\tbar",
    ].join("\n");
    let y = [
        "\tfoo",
        "\t\tbar",
    ].join("\n");
    assert_eq!(redent(&x, "\t", LineEnding::Lf), y);
}

#[test]
fn redent_mixed_tabbed_whitespace() {
    let x = [
        "\t  \tfoo",
        "\t  \t\tbar",
    ].join("\n");
    let y = [
        "  foo",
        "  \tbar",
    ].join("\n");
    assert_eq!(redent(&x, "  ", LineEnding::Lf), y);
}

#[test]
fn redent_mixed_tabbed_whitespace2() {
    let x = [
        "\t  \tfoo",
        "\t    \tbar",
    ].join("\n");
    let y = [
        "  \tfoo",
        "    \tbar",
    ].join("\n");
    assert_eq!(redent(&x, "  ", LineEnding::Lf), y);
}

#[test]
fn redent_preserve_no_terminating_newline() {
    let x = [
        "  foo",
        "    bar",
    ].join("\n");
    let y = [
        "foo",
        "  bar",
    ].join("\n");
    assert_eq!(redent(&x, "", LineEnding::Lf), y);
}

#[test]
fn redent_leave_shorter_comments() {
    let x = [
        "      foo",
        "        bar",
        "   !       foo",
        "     !     bar",
        "          baz",
    ].join("\n");
    let y = [
        "  foo",
        "    bar",
        "   !       foo",
        "     !     bar",
        "      baz",
    ].join("\n");
    assert_eq!(redent(&x, "  ", LineEnding::Lf), y);
}

#[test]
fn redent_doc_example() {
    assert_eq!(
        redent(
            "\n    1st line\n      2nd line\n !     comment\n    3rd line\n",
            "  ",
            LineEnding::Lf
        ),
        "\n  1st line\n    2nd line\n !     comment\n  3rd line\n"
    );
}

#[test]
fn redent_crlf_endings() {
    assert_eq!(redent("    a\r\n      b\r\n", " ", LineEnding::CrLf), " a\r\n   b\r\n");
}

#[test]
fn redent_continuation_lines_do_not_set_prefix() {
    assert_eq!(redent("  & x\n    y\n", "", LineEnding::Lf), "  & x\ny\n");
}
