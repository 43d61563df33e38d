use fortitude::logical_lines::{LogicalLineEnding, LogicalLines, LogicalLinesBuilder, SyntaxNode};
use fortitude::range::TextRange;
use fortitude::source::SourceFile;

/// The nodes of the parse tree of `source`, in document order, the root first.
fn syntax_nodes(source: &str) -> Vec<SyntaxNode> {
    let mut parser = tree_sitter::Parser::new();
    parser
        .set_language(&tree_sitter_fortran::LANGUAGE.into())
        .expect("Error loading Fortran grammar");
    let tree = parser.parse(source, None).expect("Failed to parse");
    let mut nodes = Vec::new();
    let mut cursor = tree.walk();
    loop {
        let node = cursor.node();
        let mut children = node.walk();
        let child_kinds = node
            .named_children(&mut children)
            .map(|c| c.kind().to_string())
            .collect();
        nodes.push(SyntaxNode {
            kind: node.kind().to_string(),
            is_named: node.is_named(),
            range: TextRange::new(node.start_byte() as u32, node.end_byte() as u32),
            child_kinds,
        });
        if cursor.goto_first_child() || cursor.goto_next_sibling() {
            continue;
        }
        loop {
            if !cursor.goto_parent() {
                return nodes;
            }
            if cursor.goto_next_sibling() {
                break;
            }
        }
    }
}

fn build(source: &str) -> LogicalLines {
    let file = SourceFile::new("test.f90".to_string(), source);
    let mut builder = LogicalLinesBuilder::new();
    for node in syntax_nodes(source) {
        builder.add_node(&node, &file);
    }
    builder.finish(&file)
}

#[test]
fn test_simple_lines() {
    let source = r#"
! Empty program
program test
end program test
"#;
    let logical_lines = build(source);

    assert_eq!(logical_lines.inner.len(), 3);
    let lines = logical_lines.inner.iter().collect::<Vec<_>>();
    assert_eq!(lines[0].line, "! Empty program");
    assert_eq!(lines[1].line, "program test");
    assert_eq!(lines[2].line, "end program test");
    for line in lines {
        assert!(matches!(line.ending, LogicalLineEnding::Newline));
        assert_eq!(line.expected_indent, 0);
    }
}

#[test]
fn test_indents() {
    let source = r#"
module test
  implicit none
contains
  subroutine sub(i)
    integer, intent(in) :: i
    if (i > 0) then
      print *, "Positive"
    else if (i < 0) then
      print *, "Negative"
    else
      print *, "Zero"
    end if
    if (i == 0) print *, "Still zero"
  end subroutine sub
end module test
"#;
    let logical_lines = build(source);

    assert_eq!(logical_lines.inner.len(), 15);
    let lines = logical_lines.inner.iter().collect::<Vec<_>>();
    assert_eq!(lines[0].line, "module test");
    assert_eq!(lines[1].line, "  implicit none");
    assert_eq!(lines[2].line, "contains");
    assert_eq!(lines[3].line, "  subroutine sub(i)");
    assert_eq!(lines[4].line, "    integer, intent(in) :: i");
    assert_eq!(lines[5].line, "    if (i > 0) then");
    assert_eq!(lines[6].line, "      print *, \"Positive\"");
    assert_eq!(lines[7].line, "    else if (i < 0) then");
    assert_eq!(lines[8].line, "      print *, \"Negative\"");
    assert_eq!(lines[9].line, "    else");
    assert_eq!(lines[10].line, "      print *, \"Zero\"");
    assert_eq!(lines[11].line, "    end if");
    assert_eq!(lines[12].line, "    if (i == 0) print *, \"Still zero\"");
    assert_eq!(lines[13].line, "  end subroutine sub");
    assert_eq!(lines[14].line, "end module test");
    assert_eq!(lines[0].expected_indent, 0);
    assert_eq!(lines[1].expected_indent, 1);
    assert_eq!(lines[2].expected_indent, 0);
    assert_eq!(lines[3].expected_indent, 1);
    assert_eq!(lines[4].expected_indent, 2);
    assert_eq!(lines[5].expected_indent, 2);
    assert_eq!(lines[6].expected_indent, 3);
    assert_eq!(lines[7].expected_indent, 2);
    assert_eq!(lines[8].expected_indent, 3);
    assert_eq!(lines[9].expected_indent, 2);
    assert_eq!(lines[10].expected_indent, 3);
    assert_eq!(lines[11].expected_indent, 2);
    assert_eq!(lines[12].expected_indent, 2);
    assert_eq!(lines[13].expected_indent, 1);
    assert_eq!(lines[14].expected_indent, 0);
    for line in lines {
        assert!(matches!(line.ending, LogicalLineEnding::Newline));
    }
}

#[test]
fn test_do_continue() {
    let source = r#"
function f()
  do 10 i = 1, n
    do 10 j = 1, m
      print *, i, j
  10 continue
end function f
"#;
    let logical_lines = build(source);

    assert_eq!(logical_lines.inner.len(), 6);
    let lines = logical_lines.inner.iter().collect::<Vec<_>>();
    assert_eq!(lines[0].line, "function f()");
    assert_eq!(lines[1].line, "  do 10 i = 1, n");
    assert_eq!(lines[2].line, "    do 10 j = 1, m");
    assert_eq!(lines[3].line, "      print *, i, j");
    assert_eq!(lines[4].line, "  10 continue");
    assert_eq!(lines[5].line, "end function f");
    for line in lines {
        assert!(matches!(line.ending, LogicalLineEnding::Newline));
    }
}

#[test]
fn test_line_continuations() {
    let source = r#"
function &
    f()
    print *, &
"Hello &
! mid string comment
       & World"
end &
& function &
f
"#;
    let logical_lines = build(source);

    assert_eq!(logical_lines.inner.len(), 3);
    let lines = logical_lines.inner.iter().collect::<Vec<_>>();
    assert_eq!(lines[0].line, "function &\n    f()");
    assert_eq!(
        lines[1].line,
        "    print *, &\n\"Hello &\n! mid string comment\n       & World\""
    );
    assert_eq!(lines[2].line, "end &\n& function &\nf");
    assert_eq!(lines[0].expected_indent, 0);
    assert_eq!(lines[1].expected_indent, 1);
    assert_eq!(lines[2].expected_indent, 0);
    for line in lines {
        assert!(matches!(line.ending, LogicalLineEnding::Newline));
    }
}

#[test]
fn test_semicolons() {
    let source = r#"
function f();
; ;  print *, "Hello"  ;;print *, "World"
end function f
"#;
    let logical_lines = build(source);

    assert_eq!(logical_lines.inner.len(), 7);
    let lines = logical_lines.inner.iter().collect::<Vec<_>>();
    assert_eq!(lines[0].line, "function f();");
    assert_eq!(lines[1].line, ";"); // First superfluous semicolon on second line
    assert_eq!(lines[2].line, " ;"); // Second superfluous semicolon on second line
    assert_eq!(lines[3].line, "  print *, \"Hello\"  ;");
    assert_eq!(lines[4].line, ";"); // Third superfluous semicolon on second line
    assert_eq!(lines[5].line, "print *, \"World\"");
    assert_eq!(lines[6].line, "end function f");
    assert!(matches!(lines[0].ending, LogicalLineEnding::Semicolon));
    assert!(matches!(lines[1].ending, LogicalLineEnding::Semicolon));
    assert!(matches!(lines[2].ending, LogicalLineEnding::Semicolon));
    assert!(matches!(lines[3].ending, LogicalLineEnding::Semicolon));
    assert!(matches!(lines[4].ending, LogicalLineEnding::Semicolon));
    assert!(matches!(lines[5].ending, LogicalLineEnding::Newline));
    assert!(matches!(lines[6].ending, LogicalLineEnding::Newline));
}

#[test]
fn test_preprocessor() {
    let source = r#"
#define FOO 1
function f()
#if FOO \
    == 1
    print *, "Foo"
#elif FOO == 2
    print *, "Bar"
#else
    print *, "Baz"
#endif
end function f
#undef FOO
"#;
    let logical_lines = build(source);

    assert_eq!(logical_lines.inner.len(), 11);
    let lines = logical_lines.inner.iter().collect::<Vec<_>>();
    assert_eq!(lines[0].line, "#define FOO 1");
    assert_eq!(lines[1].line, "function f()");
    assert_eq!(lines[2].line, "#if FOO \\\n    == 1\n");
    assert_eq!(lines[3].line, "    print *, \"Foo\"");
    assert_eq!(lines[4].line, "#elif FOO == 2\n");
    assert_eq!(lines[5].line, "    print *, \"Bar\"");
    assert_eq!(lines[6].line, "#else");
    assert_eq!(lines[7].line, "    print *, \"Baz\"");
    assert_eq!(lines[8].line, "#endif");
    assert_eq!(lines[9].line, "end function f");
    assert_eq!(lines[10].line, "#undef FOO");
    assert_eq!(lines[0].expected_indent, 0);
    assert_eq!(lines[1].expected_indent, 0);
    assert_eq!(lines[2].expected_indent, 0);
    assert_eq!(lines[3].expected_indent, 1);
    assert_eq!(lines[4].expected_indent, 0);
    assert_eq!(lines[5].expected_indent, 1);
    assert_eq!(lines[6].expected_indent, 0);
    assert_eq!(lines[7].expected_indent, 1);
    assert_eq!(lines[8].expected_indent, 0);
    assert_eq!(lines[9].expected_indent, 0);
    assert_eq!(lines[10].expected_indent, 0);
    for line in lines {
        assert!(matches!(line.ending, LogicalLineEnding::Newline));
    }
}

#[test]
fn test_complex() {
    let source = r#"
!  line1
module mod; implicit &
none;    contains ! comment
function func() result(res)
    integer :: res
#if FOO \
    == 1
    res = 1
#endif
end &
  & function func;end module mod
"#;
    let logical_lines = build(source);

    assert_eq!(logical_lines.inner.len(), 11);
    assert_eq!(logical_lines.inner[0].line, "!  line1");
    assert_eq!(logical_lines.inner[1].line, "module mod;");
    assert_eq!(logical_lines.inner[2].line, " implicit &\nnone;");
    assert_eq!(logical_lines.inner[3].line, "    contains ! comment");
    assert_eq!(logical_lines.inner[4].line, "function func() result(res)");
    assert_eq!(logical_lines.inner[5].line, "    integer :: res");
    assert_eq!(logical_lines.inner[6].line, "#if FOO \\\n    == 1\n");
    assert_eq!(logical_lines.inner[7].line, "    res = 1");
    assert_eq!(logical_lines.inner[8].line, "#endif");
    assert_eq!(logical_lines.inner[9].line, "end &\n  & function func;");
    assert_eq!(logical_lines.inner[10].line, "end module mod");
    assert_eq!(logical_lines.inner[0].expected_indent, 0);
    assert_eq!(logical_lines.inner[1].expected_indent, 0);
    assert_eq!(logical_lines.inner[2].expected_indent, 1);
    assert_eq!(logical_lines.inner[3].expected_indent, 0);
    assert_eq!(logical_lines.inner[4].expected_indent, 1);
    assert_eq!(logical_lines.inner[5].expected_indent, 2);
    assert_eq!(logical_lines.inner[6].expected_indent, 0);
    assert_eq!(logical_lines.inner[7].expected_indent, 2);
    assert_eq!(logical_lines.inner[8].expected_indent, 0);
    assert_eq!(logical_lines.inner[9].expected_indent, 1);
    assert_eq!(logical_lines.inner[10].expected_indent, 0);
    assert!(matches!(
        logical_lines.inner[0].ending,
        LogicalLineEnding::Newline
    ));
    assert!(matches!(
        logical_lines.inner[1].ending,
        LogicalLineEnding::Semicolon
    ));
    assert!(matches!(
        logical_lines.inner[2].ending,
        LogicalLineEnding::Semicolon
    ));
    assert!(matches!(
        logical_lines.inner[3].ending,
        LogicalLineEnding::Newline
    ));
    assert!(matches!(
        logical_lines.inner[4].ending,
        LogicalLineEnding::Newline
    ));
    assert!(matches!(
        logical_lines.inner[5].ending,
        LogicalLineEnding::Newline
    ));
    assert!(matches!(
        logical_lines.inner[6].ending,
        LogicalLineEnding::Newline
    ));
    assert!(matches!(
        logical_lines.inner[7].ending,
        LogicalLineEnding::Newline
    ));
    assert!(matches!(
        logical_lines.inner[8].ending,
        LogicalLineEnding::Newline
    ));
    assert!(matches!(
        logical_lines.inner[9].ending,
        LogicalLineEnding::Semicolon
    ));
    assert!(matches!(
        logical_lines.inner[10].ending,
        LogicalLineEnding::Newline
    ));

}
