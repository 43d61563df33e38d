//! Logical lines of Fortran source: statements joined across continuation lines and split at
//! semicolons, each with the indentation expected of it.
use vstd::prelude::*;
use crate::edits::{boundary, line_of, lemma_line_of, lemma_pos_of, pos_of};
use crate::range::TextRange;
use crate::source::SourceFile;
use crate::text::{char_pos_of_byte, str_eq, string_of};

verus! {

/// The parts of a syntax node that the logical line builder reads.
#[derive(Debug, Clone)]
pub struct SyntaxNode {
    pub kind: String,
    pub is_named: bool,
    pub range: TextRange,
    /// The kinds of the node's named children.
    pub child_kinds: Vec<String>,
}

/// How a logical line ends.
#[derive(Debug, Clone, Copy, PartialEq, Eq, Structural)]
pub enum LogicalLineEnding {
    Newline,
    Semicolon,
}

/// A logical line: its text and range, the indentation expected of it, and how it ends.
#[derive(Debug, Clone)]
pub struct LogicalLine {
    pub line: String,
    pub range: TextRange,
    pub expected_indent: u8,
    pub ending: LogicalLineEnding,
}

/// The logical lines of a source.
#[derive(Debug, Clone)]
pub struct LogicalLines {
    pub inner: Vec<LogicalLine>,
}

impl LogicalLines {
    /// Returns the number of lines.
    pub fn line_count(&self) -> (n: usize)
        ensures
            n == self.inner@.len(),
    {
        self.inner.len()
    }
}

/// Whether a node of kind `kind` raises the indentation of the logical lines that follow it.
pub open spec fn is_post_indentor(kind: Seq<char>) -> bool {
    ||| kind == "program_statement"@
    ||| kind == "module_statement"@
    ||| kind == "submodule_statement"@
    ||| kind == "subroutine_statement"@
    ||| kind == "function_statement"@
    ||| kind == "function"@
    ||| kind == "derived_type_statement"@
    ||| kind == "block_construct"@
    ||| kind == "if_statement"@
    ||| kind == "interface_statement"@
    ||| kind == "procedure_qualifier"@
    ||| kind == "select_case_statement"@
    ||| kind == "select_type_statement"@
    ||| kind == "select_rank_statement"@
    ||| kind == "do_statement"@
    ||| kind == "associate_statement"@
    ||| kind == "where_statement"@
    ||| kind == "contains_statement"@
    ||| kind == "case_statement"@
    ||| kind == "type_statement"@
    ||| kind == "rank_statement"@
    ||| kind == "else_clause"@
    ||| kind == "elseif_clause"@
    ||| kind == "elsewhere_clause"@
}

/// Whether a node of kind `kind` lowers the indentation of its own logical line and of those
/// that follow it.
pub open spec fn is_dedentor(kind: Seq<char>) -> bool {
    ||| kind == "end_program_statement"@
    ||| kind == "end_module_statement"@
    ||| kind == "end_submodule_statement"@
    ||| kind == "end_subroutine_statement"@
    ||| kind == "end_function_statement"@
    ||| kind == "end_type_statement"@
    ||| kind == "end_block_construct_statement"@
    ||| kind == "end_if_statement"@
    ||| kind == "end_interface_statement"@
    ||| kind == "end_select_statement"@
    ||| kind == "end_do_loop_statement"@
    ||| kind == "end_associate_statement"@
    ||| kind == "end_where_statement"@
    ||| kind == "contains_statement"@
    ||| kind == "case_statement"@
    ||| kind == "type_statement"@
    ||| kind == "rank_statement"@
    ||| kind == "else_clause"@
    ||| kind == "elseif_clause"@
    ||| kind == "elsewhere_clause"@
}

fn post_indentor(kind: &str) -> (b: bool)
    ensures
        b == is_post_indentor(kind@),
{
    str_eq(kind, "program_statement") || str_eq(kind, "module_statement") || str_eq(
        kind,
        "submodule_statement",
    ) || str_eq(kind, "subroutine_statement") || str_eq(kind, "function_statement") || str_eq(
        kind,
        "function",
    ) || str_eq(kind, "derived_type_statement") || str_eq(kind, "block_construct") || str_eq(
        kind,
        "if_statement",
    ) || str_eq(kind, "interface_statement") || str_eq(kind, "procedure_qualifier") || str_eq(
        kind,
        "select_case_statement",
    ) || str_eq(kind, "select_type_statement") || str_eq(kind, "select_rank_statement")
        || str_eq(kind, "do_statement") || str_eq(kind, "associate_statement") || str_eq(
        kind,
        "where_statement",
    ) || str_eq(kind, "contains_statement") || str_eq(kind, "case_statement") || str_eq(
        kind,
        "type_statement",
    ) || str_eq(kind, "rank_statement") || str_eq(kind, "else_clause") || str_eq(
        kind,
        "elseif_clause",
    ) || str_eq(kind, "elsewhere_clause")
}

fn dedentor(kind: &str) -> (b: bool)
    ensures
        b == is_dedentor(kind@),
{
    str_eq(kind, "end_program_statement") || str_eq(kind, "end_module_statement") || str_eq(
        kind,
        "end_submodule_statement",
    ) || str_eq(kind, "end_subroutine_statement") || str_eq(kind, "end_function_statement")
        || str_eq(kind, "end_type_statement") || str_eq(kind, "end_block_construct_statement")
        || str_eq(kind, "end_if_statement") || str_eq(kind, "end_interface_statement") || str_eq(
        kind,
        "end_select_statement",
    ) || str_eq(kind, "end_do_loop_statement") || str_eq(kind, "end_associate_statement")
        || str_eq(kind, "end_where_statement") || str_eq(kind, "contains_statement") || str_eq(
        kind,
        "case_statement",
    ) || str_eq(kind, "type_statement") || str_eq(kind, "rank_statement") || str_eq(
        kind,
        "else_clause",
    ) || str_eq(kind, "elseif_clause") || str_eq(kind, "elsewhere_clause")
}

/// Whether `c` is ASCII whitespace (as `char::is_ascii_whitespace`).
pub open spec fn is_ascii_ws(c: char) -> bool {
    c == ' ' || c == '\t' || c == '\n' || c == '\x0C' || c == '\r'
}

/// The first character of `s` that is not ASCII whitespace.
pub open spec fn first_non_ascii_ws(s: Seq<char>) -> Option<char>
    decreases s.len(),
{
    if s.len() == 0 {
        None
    } else if !is_ascii_ws(s[0]) {
        Some(s[0])
    } else {
        first_non_ascii_ws(s.drop_first())
    }
}

/// The last character of `s` that is not ASCII whitespace.
pub open spec fn last_non_ascii_ws(s: Seq<char>) -> Option<char>
    decreases s.len(),
{
    if s.len() == 0 {
        None
    } else if !is_ascii_ws(s.last()) {
        Some(s.last())
    } else {
        last_non_ascii_ws(s.drop_last())
    }
}

/// Whether the kinds `kinds` include `kind`.
pub open spec fn has_kind(kinds: Seq<String>, kind: Seq<char>) -> bool {
    exists|i: int| 0 <= i < kinds.len() && #[trigger] kinds[i]@ == kind
}

/// The text of `src` between the byte offsets `start` and `end`.
pub open spec fn text_between(src: SourceFile, start: int, end: int) -> Seq<char> {
    src.text@.subrange(pos_of(src.text@, start), pos_of(src.text@, end))
}

/// A line as its text, range, expected indentation and ending.
pub open spec fn line_view(l: LogicalLine) -> (Seq<char>, TextRange, u8, LogicalLineEnding) {
    (l.line@, l.range, l.expected_indent, l.ending)
}

/// The lines `lines` as views.
pub open spec fn lines_view(lines: Seq<LogicalLine>) -> Seq<(Seq<char>, TextRange, u8, LogicalLineEnding)> {
    lines.map_values(|l: LogicalLine| line_view(l))
}

/// The state of a builder: its lines as views, the line number, start and end offsets, and the
/// current and next expected indentation.
pub type BuilderState = (Seq<(Seq<char>, TextRange, u8, LogicalLineEnding)>, usize, u32, u32, u8, u8);

/// The line that ends at a line break: from `start` to `end` of `src`, expected at `indent`, or
/// at zero for a preprocessor directive.
pub open spec fn newline_line(src: SourceFile, start: u32, end: u32, indent: u8) -> (
    Seq<char>,
    TextRange,
    u8,
    LogicalLineEnding,
) {
    let text = text_between(src, start as int, end as int);
    (
        text,
        TextRange { start, end },
        if first_non_ascii_ws(text) == Some('#') {
            0
        } else {
            indent
        },
        LogicalLineEnding::Newline,
    )
}

/// The lines `lines` with the line from `start` to `end` added when it is not empty.
pub open spec fn with_pending(
    lines: Seq<(Seq<char>, TextRange, u8, LogicalLineEnding)>,
    src: SourceFile,
    start: u32,
    end: u32,
    indent: u8,
) -> Seq<(Seq<char>, TextRange, u8, LogicalLineEnding)> {
    if start != end {
        lines.push(newline_line(src, start, end, indent))
    } else {
        lines
    }
}

/// Whether every node's range can be sliced out of `src`.
pub open spec fn node_fits(src: SourceFile, node: SyntaxNode) -> bool {
    &&& node.range.start <= node.range.end <= src.index.len()
    &&& boundary(src.text@, node.range.start as int)
    &&& boundary(src.text@, node.range.end as int)
}

/// A builder of logical lines, fed the nodes of a syntax tree in order.
#[derive(Debug, Clone)]
pub struct LogicalLinesBuilder {
    pub lines: Vec<LogicalLine>,
    pub current_line_number: usize,
    pub current_start_byte: u32,
    pub current_end_byte: u32,
    pub current_expected_indent: u8,
    pub next_expected_indent: u8,
    pub initialised: bool,
}

impl LogicalLinesBuilder {
    /// The state of the builder.
    pub open spec fn state(&self) -> BuilderState {
        (
            lines_view(self.lines@),
            self.current_line_number,
            self.current_start_byte,
            self.current_end_byte,
            self.current_expected_indent,
            self.next_expected_indent,
        )
    }

    /// The builder's offsets can be sliced out of `src`, and its start comes no later than its
    /// end.
    pub open spec fn fits(&self, src: SourceFile) -> bool {
        &&& self.current_start_byte <= self.current_end_byte <= src.index.len()
        &&& boundary(src.text@, self.current_start_byte as int)
        &&& boundary(src.text@, self.current_end_byte as int)
        &&& (self.initialised ==> 1 <= self.current_line_number <= src.index.starts().len())
    }

    /// Creates a builder with no line.
    pub fn new() -> (b: Self)
        ensures
            b.lines@.len() == 0,
            b.current_line_number == 1,
            b.current_start_byte == 0,
            b.current_end_byte == 0,
            b.current_expected_indent == 0,
            b.next_expected_indent == 0,
            !b.initialised,
    {
        LogicalLinesBuilder {
            lines: Vec::new(),
            current_line_number: 1,
            current_start_byte: 0,
            current_end_byte: 0,
            current_expected_indent: 0,
            next_expected_indent: 0,
            initialised: false,
        }
    }
}

/// `n` less one, but no less than zero.
pub open spec fn sat_dec(n: u8) -> u8 {
    if n == 0 {
        0
    } else {
        (n - 1) as u8
    }
}

/// `n` plus one, but no more than the largest `u8`.
pub open spec fn sat_inc(n: u8) -> u8 {
    if n == 255 {
        255
    } else {
        (n + 1) as u8
    }
}

/// Whether the text of `src` before byte `offset` ends, but for ASCII whitespace, with a
/// backslash (a continued preprocessor line).
pub open spec fn preprocessor_continued(src: SourceFile, offset: int) -> bool {
    last_non_ascii_ws(src.text@.take(pos_of(src.text@, offset))) == Some('\\')
}

/// Whether `node` opens a block that raises the indentation of what follows: a post-indentor,
/// but not a one-line `if` or `where` statement (one without its end statement).
pub open spec fn opens_block(node: SyntaxNode) -> bool {
    &&& node.is_named
    &&& is_post_indentor(node.kind@)
    &&& !(node.kind@ == "if_statement"@ && !has_kind(node.child_kinds@, "end_if_statement"@))
    &&& !(node.kind@ == "where_statement"@ && !has_kind(node.child_kinds@, "end_where_statement"@))
}

/// The state of builder `b` after it is fed `node` of `src`:
/// - a node on a later line ends the current logical line (when there is one), unless it
///   continues it (a `&` or a preprocessor line ending with a backslash); the new logical line
///   starts at the start of the node's line, expected at the next indentation;
/// - a semicolon ends the current logical line just after it; the next starts there;
/// - a dedentor lowers the current and next indentation, and a node that opens a block sets
///   the next indentation one above the current one;
/// - the current logical line then extends to the end of the node.
pub open spec fn added(b: LogicalLinesBuilder, node: SyntaxNode, src: SourceFile) -> BuilderState {
    let start = node.range.start;
    let end = node.range.end;
    let ln = line_of(src.index, start as int);
    let line_start = src.index.starts()[ln - 1];
    let (num0, s0, e0) = if !b.initialised {
        (ln as usize, line_start, start)
    } else {
        (b.current_line_number, b.current_start_byte, b.current_end_byte)
    };
    let lines0 = lines_view(b.lines@);
    let breaks = ln > num0 && !(!node.is_named && node.kind@ == "&"@) && !preprocessor_continued(
        src,
        start as int,
    );
    let lines1 = if breaks {
        with_pending(lines0, src, s0, e0, b.current_expected_indent)
    } else {
        lines0
    };
    let s1 = if breaks {
        line_start
    } else {
        s0
    };
    let cur1 = if breaks {
        b.next_expected_indent
    } else {
        b.current_expected_indent
    };
    let num1 = if ln > num0 {
        ln as usize
    } else {
        num0
    };
    let semicolon = !node.is_named && node.kind@ == ";"@;
    let lines2 = if semicolon {
        lines1.push(
            (
                text_between(src, s1 as int, end as int),
                TextRange { start: s1, end },
                cur1,
                LogicalLineEnding::Semicolon,
            ),
        )
    } else {
        lines1
    };
    let s2 = if semicolon {
        end
    } else {
        s1
    };
    let cur2 = if semicolon {
        b.next_expected_indent
    } else {
        cur1
    };
    let dedents = node.is_named && is_dedentor(node.kind@);
    let cur3 = if dedents {
        sat_dec(cur2)
    } else {
        cur2
    };
    let next3 = if dedents {
        sat_dec(b.next_expected_indent)
    } else {
        b.next_expected_indent
    };
    let next4 = if opens_block(node) {
        sat_inc(cur3)
    } else {
        next3
    };
    (lines2, num1, s2, end, cur3, next4)
}

/// Whether a statement of kind `close` ends a block that a statement of kind `open` opens.
pub open spec fn block_pair(open: Seq<char>, close: Seq<char>) -> bool {
    ||| open == "program_statement"@ && close == "end_program_statement"@
    ||| open == "module_statement"@ && close == "end_module_statement"@
    ||| open == "submodule_statement"@ && close == "end_submodule_statement"@
    ||| open == "subroutine_statement"@ && close == "end_subroutine_statement"@
    ||| open == "function_statement"@ && close == "end_function_statement"@
    ||| open == "derived_type_statement"@ && close == "end_type_statement"@
    ||| open == "block_construct"@ && close == "end_block_construct_statement"@
    ||| open == "if_statement"@ && close == "end_if_statement"@
    ||| open == "interface_statement"@ && close == "end_interface_statement"@
    ||| open == "select_case_statement"@ && close == "end_select_statement"@
    ||| open == "select_type_statement"@ && close == "end_select_statement"@
    ||| open == "select_rank_statement"@ && close == "end_select_statement"@
    ||| open == "do_statement"@ && close == "end_do_loop_statement"@
    ||| open == "associate_statement"@ && close == "end_associate_statement"@
    ||| open == "where_statement"@ && close == "end_where_statement"@
}

proof fn lemma_dedentor_initial(kind: Seq<char>)
    requires
        is_dedentor(kind),
    ensures
        kind.len() > 0 && (kind[0] == 'e' || kind[0] == 'c' || kind[0] == 't' || kind[0] == 'r'),
{
    reveal_strlit("end_program_statement");
    reveal_strlit("end_module_statement");
    reveal_strlit("end_submodule_statement");
    reveal_strlit("end_subroutine_statement");
    reveal_strlit("end_function_statement");
    reveal_strlit("end_type_statement");
    reveal_strlit("end_block_construct_statement");
    reveal_strlit("end_if_statement");
    reveal_strlit("end_interface_statement");
    reveal_strlit("end_select_statement");
    reveal_strlit("end_do_loop_statement");
    reveal_strlit("end_associate_statement");
    reveal_strlit("end_where_statement");
    reveal_strlit("contains_statement");
    reveal_strlit("case_statement");
    reveal_strlit("type_statement");
    reveal_strlit("rank_statement");
    reveal_strlit("else_clause");
    reveal_strlit("elseif_clause");
    reveal_strlit("elsewhere_clause");
}

proof fn lemma_openers_not_dedentors(open: Seq<char>, close: Seq<char>)
    requires
        block_pair(open, close),
    ensures
        !is_dedentor(open),
        is_post_indentor(open),
{
    reveal_strlit("program_statement");
    reveal_strlit("module_statement");
    reveal_strlit("submodule_statement");
    reveal_strlit("subroutine_statement");
    reveal_strlit("function_statement");
    reveal_strlit("derived_type_statement");
    reveal_strlit("block_construct");
    reveal_strlit("if_statement");
    reveal_strlit("interface_statement");
    reveal_strlit("select_case_statement");
    reveal_strlit("select_type_statement");
    reveal_strlit("select_rank_statement");
    reveal_strlit("do_statement");
    reveal_strlit("associate_statement");
    reveal_strlit("where_statement");
    if is_dedentor(open) {
        lemma_dedentor_initial(open);
    }
}

proof fn lemma_post_indentor_initial(kind: Seq<char>)
    requires
        is_post_indentor(kind),
    ensures
        kind.len() > 1 && (kind[0] != 'e' || kind[1] == 'l'),
{
    reveal_strlit("program_statement");
    reveal_strlit("module_statement");
    reveal_strlit("submodule_statement");
    reveal_strlit("subroutine_statement");
    reveal_strlit("function_statement");
    reveal_strlit("function");
    reveal_strlit("derived_type_statement");
    reveal_strlit("block_construct");
    reveal_strlit("if_statement");
    reveal_strlit("interface_statement");
    reveal_strlit("procedure_qualifier");
    reveal_strlit("select_case_statement");
    reveal_strlit("select_type_statement");
    reveal_strlit("select_rank_statement");
    reveal_strlit("do_statement");
    reveal_strlit("associate_statement");
    reveal_strlit("where_statement");
    reveal_strlit("contains_statement");
    reveal_strlit("case_statement");
    reveal_strlit("type_statement");
    reveal_strlit("rank_statement");
    reveal_strlit("else_clause");
    reveal_strlit("elseif_clause");
    reveal_strlit("elsewhere_clause");
}

proof fn lemma_closers_not_post_indentors(open: Seq<char>, close: Seq<char>)
    requires
        block_pair(open, close),
    ensures
        is_dedentor(close),
        !is_post_indentor(close),
{
    reveal_strlit("end_program_statement");
    reveal_strlit("end_module_statement");
    reveal_strlit("end_submodule_statement");
    reveal_strlit("end_subroutine_statement");
    reveal_strlit("end_function_statement");
    reveal_strlit("end_type_statement");
    reveal_strlit("end_block_construct_statement");
    reveal_strlit("end_if_statement");
    reveal_strlit("end_interface_statement");
    reveal_strlit("end_select_statement");
    reveal_strlit("end_do_loop_statement");
    reveal_strlit("end_associate_statement");
    reveal_strlit("end_where_statement");
    if is_post_indentor(close) {
        lemma_post_indentor_initial(close);
    }
}

/// A block indents its body by one level and its end statement comes back to the level of the
/// statement that opened it: fed, at a statement boundary at level `c`, a statement `open` that
/// opens a block (an `if` or `where` one with its end statement), the builder keeps `open` at
/// `c` and expects `c + 1` of what follows; fed later, at a statement boundary at that level,
/// the matching end statement `close`, it expects `c` of `close` and of what follows it.
pub proof fn lemma_block_indents_its_body(
    b: LogicalLinesBuilder,
    open: SyntaxNode,
    inner: LogicalLinesBuilder,
    close: SyntaxNode,
    src: SourceFile,
)
    requires
        b.current_expected_indent == b.next_expected_indent,
        b.current_expected_indent < 255,
        open.is_named,
        close.is_named,
        block_pair(open.kind@, close.kind@),
        open.kind@ == "if_statement"@ ==> has_kind(open.child_kinds@, "end_if_statement"@),
        open.kind@ == "where_statement"@ ==> has_kind(open.child_kinds@, "end_where_statement"@),
        inner.current_expected_indent == added(b, open, src).5,
        inner.next_expected_indent == added(b, open, src).5,
    ensures
        added(b, open, src).4 == b.current_expected_indent,
        added(b, open, src).5 == b.current_expected_indent + 1,
        added(inner, close, src).4 == b.current_expected_indent,
        added(inner, close, src).5 == b.current_expected_indent,
{
    lemma_openers_not_dedentors(open.kind@, close.kind@);
    lemma_closers_not_post_indentors(open.kind@, close.kind@);
}

/// Whether a statement of kind `kind` divides a block into parts: `else`, `else if`, a `case`,
/// a `type is` or `class is`, a `rank`, `elsewhere`, and `contains`.
pub open spec fn block_divider(kind: Seq<char>) -> bool {
    ||| kind == "else_clause"@
    ||| kind == "elseif_clause"@
    ||| kind == "case_statement"@
    ||| kind == "type_statement"@
    ||| kind == "rank_statement"@
    ||| kind == "elsewhere_clause"@
    ||| kind == "contains_statement"@
}

/// A statement that divides a block sits at the level of the statement that opened the block,
/// and what follows it is indented one level again: fed, at a statement boundary one level
/// inside a block (level `d`, at least one), such a statement, the builder expects `d - 1` of it
/// and `d` of what follows.
pub proof fn lemma_divider_sits_at_block_level(b: LogicalLinesBuilder, divider: SyntaxNode, src: SourceFile)
    requires
        b.current_expected_indent == b.next_expected_indent,
        b.current_expected_indent >= 1,
        divider.is_named,
        block_divider(divider.kind@),
    ensures
        added(b, divider, src).4 == b.current_expected_indent - 1,
        added(b, divider, src).5 == b.current_expected_indent,
{
    reveal_strlit("if_statement");
    reveal_strlit("where_statement");
    reveal_strlit("else_clause");
    reveal_strlit("elseif_clause");
    reveal_strlit("case_statement");
    reveal_strlit("type_statement");
    reveal_strlit("rank_statement");
    reveal_strlit("elsewhere_clause");
    reveal_strlit("contains_statement");
    assert(divider.kind@ != "if_statement"@ && divider.kind@ != "where_statement"@) by {
        assert(divider.kind@[0] != 'i' && divider.kind@[0] != 'w');
    }
}

fn has_child_kind(kinds: &Vec<String>, kind: &str) -> (b: bool)
    ensures
        b == has_kind(kinds@, kind@),
{
    let mut i: usize = 0;
    while i < kinds.len()
        invariant
            i <= kinds@.len(),
            forall|j: int| 0 <= j < i ==> kinds@[j]@ != kind@,
        decreases kinds@.len() - i,
    {
        if str_eq(kinds[i].as_str(), kind) {
            return true;
        }
        i = i + 1;
    }
    false
}

fn ends_with_backslash(text: &[char], p: usize) -> (b: bool)
    requires
        p <= text@.len(),
    ensures
        b == (last_non_ascii_ws(text@.take(p as int)) == Some('\\')),
{
    let mut k = p;
    while k > 0 && (text[k - 1] == ' ' || text[k - 1] == '\t' || text[k - 1] == '\n' || text[k - 1]
        == '\x0C' || text[k - 1] == '\r')
        invariant
            k <= p <= text@.len(),
            last_non_ascii_ws(text@.take(p as int)) == last_non_ascii_ws(text@.take(k as int)),
        decreases k,
    {
        assert(text@.take(k as int).drop_last() =~= text@.take(k - 1));
        k = k - 1;
    }
    if k == 0 {
        assert(text@.take(0) =~= Seq::<char>::empty());
        false
    } else {
        assert(text@.take(k as int).last() == text@[k - 1]);
        text[k - 1] == '\\'
    }
}

fn first_is_hash(text: &[char]) -> (b: bool)
    ensures
        b == (first_non_ascii_ws(text@) == Some('#')),
{
    let mut k: usize = 0;
    assert(text@.skip(0) =~= text@);
    while k < text.len() && (text[k] == ' ' || text[k] == '\t' || text[k] == '\n' || text[k] == '\x0C'
        || text[k] == '\r')
        invariant
            k <= text@.len(),
            first_non_ascii_ws(text@) == first_non_ascii_ws(text@.skip(k as int)),
        decreases text@.len() - k,
    {
        assert(text@.skip(k as int).drop_first() =~= text@.skip(k + 1));
        k = k + 1;
    }
    if k == text.len() {
        assert(text@.skip(k as int).len() == 0);
        false
    } else {
        assert(text@.skip(k as int)[0] == text@[k as int]);
        text[k] == '#'
    }
}

/// Returns the characters of `src` between two byte offsets.
fn slice_between(src: &SourceFile, start: u32, end: u32) -> (t: Vec<char>)
    requires
        start <= end,
        boundary(src.text@, start as int),
        boundary(src.text@, end as int),
    ensures
        t@ == text_between(*src, start as int, end as int),
{
    let p = char_pos_of_byte(src.text.as_slice(), start as usize);
    let q = char_pos_of_byte(src.text.as_slice(), end as usize);
    match (p, q) {
        (Some(p), Some(q)) => {
            proof {
                lemma_pos_of(src.text@, p as int, start as int);
                lemma_pos_of(src.text@, q as int, end as int);
                if q < p {
                    crate::text::lemma_utf8_len_take_increasing(src.text@, q as int, p as int);
                }
            }
            let t = crate::text::tail_from(crate::text::head_of(src.text.as_slice(), q).as_slice(), p);
            assert(t@ =~= src.text@.subrange(p as int, q as int));
            t
        },
        _ => {
            proof {
                assert(false);
            }
            Vec::new()
        },
    }
}

fn newline_line_exec(src: &SourceFile, start: u32, end: u32, indent: u8) -> (l: LogicalLine)
    requires
        start <= end,
        boundary(src.text@, start as int),
        boundary(src.text@, end as int),
    ensures
        line_view(l) == newline_line(*src, start, end, indent),
{
    let text = slice_between(src, start, end);
    let expected_indent = if first_is_hash(text.as_slice()) {
        0
    } else {
        indent
    };
    LogicalLine {
        line: string_of(text.as_slice()),
        range: TextRange { start, end },
        expected_indent,
        ending: LogicalLineEnding::Newline,
    }
}

fn push_line(lines: &mut Vec<LogicalLine>, l: LogicalLine)
    ensures
        lines_view(final(lines)@) == lines_view(old(lines)@).push(line_view(l)),
{
    lines.push(l);
    assert(lines_view(lines@) =~= lines_view(old(lines)@).push(line_view(l)));
}

impl LogicalLinesBuilder {
    /// Feeds the builder `node` of `src` (see [`added`]). Nodes come in the order of their
    /// starts, none before the start of the current logical line.
    pub fn add_node(&mut self, node: &SyntaxNode, src: &SourceFile)
        requires
            src.wf(),
            old(self).fits(*src),
            node_fits(*src, *node),
            old(self).initialised ==> old(self).current_start_byte <= node.range.start,
        ensures
            final(self).state() == added(*old(self), *node, *src),
            final(self).fits(*src),
            final(self).initialised,
    {
        let start = node.range.start;
        let end = node.range.end;
        let ln = src.index.line_index(start);
        let line_start = src.index.line_start(ln);
        proof {
            lemma_line_of(src.index, start as int, ln as int);
            assert(boundary(src.text@, src.index.starts()[ln - 1] as int));
        }
        if !self.initialised {
            self.current_line_number = ln;
            self.current_start_byte = line_start;
            self.current_end_byte = start;
            self.initialised = true;
        }
        let continued = !node.is_named && str_eq(node.kind.as_str(), "&");
        let p = char_pos_of_byte(src.text.as_slice(), start as usize);
        let preproc = match p {
            Some(p) => {
                proof {
                    lemma_pos_of(src.text@, p as int, start as int);
                }
                ends_with_backslash(src.text.as_slice(), p)
            },
            None => {
                proof {
                    assert(false);
                }
                false
            },
        };
        let later = ln > self.current_line_number;
        if later {
            if !continued && !preproc {
                if self.current_start_byte != self.current_end_byte {
                    let l = newline_line_exec(src, self.current_start_byte, self.current_end_byte, self.current_expected_indent);
                    push_line(&mut self.lines, l);
                }
                self.current_start_byte = line_start;
                self.current_expected_indent = self.next_expected_indent;
            }
            self.current_line_number = ln;
        }
        if !node.is_named && str_eq(node.kind.as_str(), ";") {
            let text = slice_between(src, self.current_start_byte, end);
            let l = LogicalLine {
                line: string_of(text.as_slice()),
                range: TextRange { start: self.current_start_byte, end },
                expected_indent: self.current_expected_indent,
                ending: LogicalLineEnding::Semicolon,
            };
            push_line(&mut self.lines, l);
            self.current_start_byte = end;
            self.current_expected_indent = self.next_expected_indent;
        }
        if node.is_named && dedentor(node.kind.as_str()) {
            self.current_expected_indent = if self.current_expected_indent == 0 {
                0
            } else {
                self.current_expected_indent - 1
            };
            self.next_expected_indent = if self.next_expected_indent == 0 {
                0
            } else {
                self.next_expected_indent - 1
            };
        }
        if node.is_named && post_indentor(node.kind.as_str()) {
            let one_line_if = str_eq(node.kind.as_str(), "if_statement") && !has_child_kind(
                &node.child_kinds,
                "end_if_statement",
            );
            let one_line_where = str_eq(node.kind.as_str(), "where_statement") && !has_child_kind(
                &node.child_kinds,
                "end_where_statement",
            );
            if !one_line_if && !one_line_where {
                self.next_expected_indent = if self.current_expected_indent == 255 {
                    255
                } else {
                    self.current_expected_indent + 1
                };
            }
        }
        self.current_end_byte = end;
    }

    /// Consumes the builder and returns its logical lines, with the current one added when it
    /// is not empty.
    pub fn finish(self, src: &SourceFile) -> (lines: LogicalLines)
        requires
            self.fits(*src),
        ensures
            lines_view(lines.inner@) == with_pending(
                lines_view(self.lines@),
                *src,
                self.current_start_byte,
                self.current_end_byte,
                self.current_expected_indent,
            ),
    {
        let mut lines = self.lines;
        if self.current_start_byte != self.current_end_byte {
            let l = newline_line_exec(src, self.current_start_byte, self.current_end_byte, self.current_expected_indent);
            push_line(&mut lines, l);
        }
        LogicalLines { inner: lines }
    }
}

} // verus!
