//! Showing what a fix changes: the fixed text, and a line diff of it with line numbers.
use vstd::prelude::*;
use crate::diagnostics::{Applicability, Edit, Fix};
use crate::edits::{boundary, lemma_pos_of, pos_of};
use crate::source::SourceFile;
use crate::text::{char_pos_of_byte, chars_of, push_all, string_of};
use crate::write::{decimal, pad_right, push_str, spaces};
use similar::{ChangeTag, TextDiff};

verus! {

/// How a line changed.
#[derive(Debug, Clone, Copy, PartialEq, Eq, Structural)]
pub enum ChangeKind {
    Delete,
    Insert,
    Equal,
}

/// A line of a diff: how it changed, its position in the new text, its text, and whether it
/// lacks a line ending.
#[derive(Debug, Clone)]
pub struct DiffChange {
    pub tag: ChangeKind,
    pub new_index: Option<usize>,
    pub value: String,
    pub missing_newline: bool,
}

/// A diff line as plain values: how it changed, its position in the new text, its text, and
/// whether it lacks a line ending.
pub open spec fn line_view(c: DiffChange) -> (ChangeKind, Option<usize>, Seq<char>, bool) {
    (c.tag, c.new_index, c.value@, c.missing_newline)
}

/// The groups of diff lines `gs` as plain values.
pub open spec fn groups_view(gs: Seq<Vec<DiffChange>>) -> Seq<Seq<(ChangeKind, Option<usize>, Seq<char>, bool)>> {
    Seq::new(gs.len(), |g: int| Seq::new(gs[g]@.len(), |k: int| line_view(gs[g]@[k])))
}

/// The groups of lines of the line diff from `before` to `after` that `similar` computes, with
/// three lines of context around each change.
pub uninterp spec fn diff_lines(before: Seq<char>, after: Seq<char>) -> Seq<Seq<(ChangeKind, Option<usize>, Seq<char>, bool)>>;

/// Where the last operation of the line diff from `before` to `after` ends in the new text
/// (`None` when the diff has no group).
pub uninterp spec fn diff_end(before: Seq<char>, after: Seq<char>) -> Option<usize>;

/// The largest line number shown in a diff whose last operation ends at `end`: zero when there
/// is none.
pub open spec fn largest_line(end: Option<usize>) -> usize {
    match end {
        Some(e) => e,
        None => 0,
    }
}

/// Runs `similar::TextDiff::from_lines(before, after)`, groups its operations with three lines of
/// context (`grouped_ops(3)`), and returns for each group the lines of its operations
/// (`iter_changes`: tag, index in the new text, text, missing line ending), and the end of the
/// last operation's range in the new text (`None` when there is none). Both are named results:
/// `from_lines` runs without a deadline here and `grouped_ops` is deterministic, so they depend on
/// the two texts alone. The lines are whole: `iter_inline_changes` would split a changed line into
/// emphasised parts whose text concatenates to the same line, and the plain rendering shows them
/// the same way, but for where the leading space goes on a changed line that begins with a
/// carriage return directly followed by a word.
#[verifier::external_body]
fn line_diff(before: &str, after: &str) -> (r: (Vec<Vec<DiffChange>>, Option<usize>))
    ensures
        groups_view(r.0@) == diff_lines(before@, after@),
        r.1 == diff_end(before@, after@),
{
    let diff = TextDiff::from_lines(before, after);
    let groups = diff.grouped_ops(3);
    let end = groups.last().and_then(|g| g.last()).map(|op| op.new_range().end);
    let lines = groups.iter().map(|g| g.iter().flat_map(|op| diff.iter_changes(op)).map(|c| DiffChange {
        tag: match c.tag() {
            ChangeTag::Delete => ChangeKind::Delete,
            ChangeTag::Insert => ChangeKind::Insert,
            ChangeTag::Equal => ChangeKind::Equal,
        },
        new_index: c.new_index(),
        value: c.to_string_lossy().into_owned(),
        missing_newline: c.missing_newline(),
    }).collect()).collect();
    (lines, end)
}

/// `s` with the control characters BEL, BS, ESC and DEL shown as their control pictures.
pub open spec fn show_nonprinting(s: Seq<char>) -> Seq<char>
    decreases s.len(),
{
    if s.len() == 0 {
        Seq::empty()
    } else {
        let c = s.last();
        show_nonprinting(s.drop_last()) + if c == '\x07' {
            seq!['\u{2407}']
        } else if c == '\x08' {
            seq!['\u{2408}']
        } else if c == '\x1b' {
            seq!['\u{241b}']
        } else if c == '\x7f' {
            seq!['\u{2421}']
        } else {
            seq![c]
        }
    }
}

/// `s` without line feeds and carriage returns at its end.
pub open spec fn trim_newlines(s: Seq<char>) -> Seq<char>
    decreases s.len(),
{
    if s.len() > 0 && (s.last() == '\n' || s.last() == '\r') {
        trim_newlines(s.drop_last())
    } else {
        s
    }
}

/// The text of a diff line's content `v`: a space before it when it is more than a line ending,
/// then `v` with control characters shown.
pub open spec fn line_text(v: Seq<char>) -> Seq<char> {
    (if trim_newlines(v).len() > 0 {
        seq![' ']
    } else {
        Seq::empty()
    }) + show_nonprinting(v)
}

/// The sign of a change.
pub open spec fn sign(tag: ChangeKind) -> Seq<char> {
    match tag {
        ChangeKind::Delete => "-"@,
        ChangeKind::Insert => "+"@,
        ChangeKind::Equal => "|"@,
    }
}

/// The line number shown for a diff line: none for a deleted line, the new one otherwise.
pub open spec fn shown_line(c: (ChangeKind, Option<usize>, Seq<char>, bool)) -> Option<usize> {
    match c.0 {
        ChangeKind::Delete => None,
        _ => c.1,
    }
}

/// A line number column: the one-based number padded to `width`, or `width` spaces.
pub open spec fn line_number(index: Option<usize>, width: nat) -> Seq<char> {
    match index {
        Some(i) => pad_right(decimal((i + 1) as nat), width),
        None => spaces(width),
    }
}

/// The text of a diff line.
pub open spec fn change_text(c: (ChangeKind, Option<usize>, Seq<char>, bool), width: nat) -> Seq<char> {
    line_number(shown_line(c), width) + " "@ + sign(c.0) + line_text(c.2) + if c.3 {
        "\n"@
    } else {
        Seq::empty()
    }
}

/// The text of the lines `cs`.
pub open spec fn changes_text(cs: Seq<(ChangeKind, Option<usize>, Seq<char>, bool)>, width: nat) -> Seq<char>
    decreases cs.len(),
{
    if cs.len() == 0 {
        Seq::empty()
    } else {
        changes_text(cs.drop_last(), width) + change_text(cs.last(), width)
    }
}

/// The text of the groups `gs`, separated by lines of 80 dashes.
pub open spec fn groups_text(gs: Seq<Seq<(ChangeKind, Option<usize>, Seq<char>, bool)>>, width: nat) -> Seq<char>
    decreases gs.len(),
{
    if gs.len() == 0 {
        Seq::empty()
    } else {
        groups_text(gs.drop_last(), width) + (if gs.len() > 1 {
            Seq::new(80, |i: int| '-') + "\n"@
        } else {
            Seq::empty()
        }) + changes_text(gs.last(), width)
    }
}

/// The width of line numbers in a diff whose last line in the new text ends at `largest`: the
/// digits of `largest`, and one for zero.
pub open spec fn number_width(largest: usize) -> nat {
    if largest == 0 {
        1
    } else {
        decimal(largest as nat).len()
    }
}

/// The note that follows a fix's diff: a warning for an unsafe fix or a display-only one.
pub open spec fn applicability_note(a: Applicability) -> Seq<char> {
    match a {
        Applicability::Safe => Seq::empty(),
        Applicability::Unsafe => "note: This is an unsafe fix and may change runtime behavior\n"@,
        Applicability::DisplayOnly => "note: This is a display-only fix and is likely to be incorrect\n"@,
    }
}

fn push_shown(out: &mut Vec<char>, v: &str)
    ensures
        final(out)@ == old(out)@ + show_nonprinting(v@),
{
    let cs = chars_of(v);
    let ghost start = old(out)@;
    let mut i: usize = 0;
    assert(cs@.take(0) =~= Seq::<char>::empty());
    while i < cs.len()
        invariant
            i <= cs@.len(),
            cs@ == v@,
            out@ == start + show_nonprinting(cs@.take(i as int)),
        decreases cs@.len() - i,
    {
        let c = cs[i];
        if c == '\x07' {
            out.push('\u{2407}');
        } else if c == '\x08' {
            out.push('\u{2408}');
        } else if c == '\x1b' {
            out.push('\u{241b}');
        } else if c == '\x7f' {
            out.push('\u{2421}');
        } else {
            out.push(c);
        }
        assert(cs@.take(i + 1).drop_last() =~= cs@.take(i as int));
        i = i + 1;
    }
    assert(cs@.take(i as int) =~= cs@);
}

fn has_content(v: &str) -> (b: bool)
    ensures
        b == (trim_newlines(v@).len() > 0),
{
    let cs = chars_of(v);
    let mut e = cs.len();
    assert(cs@.take(e as int) =~= cs@);
    while e > 0 && (cs[e - 1] == '\n' || cs[e - 1] == '\r')
        invariant
            e <= cs@.len(),
            cs@ == v@,
            trim_newlines(v@) == trim_newlines(cs@.take(e as int)),
        decreases e,
    {
        assert(cs@.take(e as int).drop_last() =~= cs@.take(e - 1));
        e = e - 1;
    }
    e > 0
}

fn push_line_number(out: &mut Vec<char>, index: Option<usize>, width: usize)
    requires
        index matches Some(i) ==> i < usize::MAX,
    ensures
        final(out)@ == old(out)@ + line_number(index, width as nat),
{
    match index {
        Some(i) => {
            let number = crate::write::decimal_string(i + 1);
            let mut k = number.len();
            push_all(out, number.as_slice());
            let ghost mid = out@;
            while k < width
                invariant
                    number@.len() <= k <= width || (k == number@.len() && k >= width),
                    out@ == mid + spaces((k - number@.len()) as nat),
                decreases width - k,
            {
                out.push(' ');
                assert(spaces((k + 1 - number@.len()) as nat) =~= spaces((k - number@.len()) as nat).push(' '));
                k = k + 1;
            }
            assert(spaces(0) =~= Seq::<char>::empty());
        },
        None => {
            let mut k: usize = 0;
            let ghost mid = out@;
            while k < width
                invariant
                    k <= width,
                    out@ == mid + spaces(k as nat),
                decreases width - k,
            {
                out.push(' ');
                assert(spaces((k + 1) as nat) =~= spaces(k as nat).push(' '));
                k = k + 1;
            }
        },
    }
}

#[verifier::rlimit(40)]
#[verifier::spinoff_prover]
fn push_change(out: &mut Vec<char>, c: &DiffChange, width: usize)
    requires
        shown_line(line_view(*c)) matches Some(i) ==> i < usize::MAX,
    ensures
        final(out)@ == old(out)@ + change_text(line_view(*c), width as nat),
{
    let shown = match c.tag {
        ChangeKind::Delete => None,
        _ => c.new_index,
    };
    push_line_number(out, shown, width);
    push_str(out, " ");
    match c.tag {
        ChangeKind::Delete => push_str(out, "-"),
        ChangeKind::Insert => push_str(out, "+"),
        ChangeKind::Equal => push_str(out, "|"),
    }
    let ghost before_text = out@;
    if has_content(c.value.as_str()) {
        out.push(' ');
    }
    push_shown(out, c.value.as_str());
    assert(out@ =~= before_text + line_text(c.value@));
    if c.missing_newline {
        push_str(out, "\n");
    }
}

/// Whether every line number that the groups `gs` show can be counted from one.
pub open spec fn numbers_fit(gs: Seq<Seq<(ChangeKind, Option<usize>, Seq<char>, bool)>>) -> bool {
    forall|g: int, k: int|
        0 <= g < gs.len() && 0 <= k < gs[g].len() ==> (shown_line(#[trigger] gs[g][k]) matches Some(i) ==> i < usize::MAX)
}

/// Returns the text of a line diff made of the groups `gs` whose last line in the new text
/// ends at `largest` (see [`groups_text`]).
pub fn render_diff(gs: &Vec<Vec<DiffChange>>, largest: usize) -> (s: String)
    requires
        numbers_fit(groups_view(gs@)),
    ensures
        s@ == groups_text(groups_view(gs@), number_width(largest)),
{
    let ghost view = groups_view(gs@);
    let width = if largest == 0 {
        1
    } else {
        crate::write::num_digits(largest)
    };
    let mut out: Vec<char> = Vec::new();
    let mut g: usize = 0;
    assert(view.take(0) =~= Seq::<Seq<(ChangeKind, Option<usize>, Seq<char>, bool)>>::empty());
    while g < gs.len()
        invariant
            g <= gs@.len(),
            view == groups_view(gs@),
            numbers_fit(view),
            width == number_width(largest),
            out@ == groups_text(view.take(g as int), width as nat),
        decreases gs@.len() - g,
    {
        let ghost before = out@;
        if g > 0 {
            let mut d: usize = 0;
            while d < 80
                invariant
                    d <= 80,
                    out@ == before + Seq::new(d as nat, |i: int| '-'),
                decreases 80 - d,
            {
                out.push('-');
                assert(Seq::new((d + 1) as nat, |i: int| '-') =~= Seq::new(d as nat, |i: int| '-').push('-'));
                d = d + 1;
            }
            push_str(&mut out, "\n");
        }
        let ghost mid = out@;
        let group = &gs[g];
        let ghost line_views = view[g as int];
        assert(line_views.len() == group@.len());
        let mut k: usize = 0;
        assert(line_views.take(0) =~= Seq::<(ChangeKind, Option<usize>, Seq<char>, bool)>::empty());
        while k < group.len()
            invariant
                k <= group@.len(),
                *group == gs@[g as int],
                g < gs@.len(),
                view == groups_view(gs@),
                line_views == view[g as int],
                line_views.len() == group@.len(),
                numbers_fit(view),
                out@ == mid + changes_text(line_views.take(k as int), width as nat),
            decreases group@.len() - k,
        {
            assert(line_views[k as int] == line_view(group@[k as int]));
            assert(shown_line(view[g as int][k as int]) matches Some(i) ==> i < usize::MAX);
            push_change(&mut out, &group[k], width);
            assert(line_views.take(k + 1).drop_last() =~= line_views.take(k as int));
            k = k + 1;
        }
        assert(line_views.take(k as int) =~= line_views);
        assert(view.take(g + 1).drop_last() =~= view.take(g as int));
        assert(out@ =~= groups_text(view.take(g + 1), width as nat));
        g = g + 1;
    }
    assert(view.take(g as int) =~= view);
    string_of(out.as_slice())
}

/// Whether the edits `es` from the `k`-th on that lie within the first `len` bytes come in
/// order, each starting no earlier than `last`, at character boundaries of `text`.
pub open spec fn edits_ordered(text: Seq<char>, es: Seq<Edit>, len: int, k: int, last: int) -> bool
    decreases es.len() - k,
{
    if k < 0 || k >= es.len() {
        boundary(text, last)
    } else {
        let e = es[k];
        if e.range.start <= e.range.end && e.range.end <= len {
            last <= e.range.start && boundary(text, last) && boundary(text, e.range.start as int)
                && edits_ordered(text, es, len, k + 1, e.range.end as int)
        } else {
            edits_ordered(text, es, len, k + 1, last)
        }
    }
}

/// The text of the bytes `a` to `b` of `text`.
pub open spec fn bytes_text(text: Seq<char>, a: int, b: int) -> Seq<char> {
    text.subrange(pos_of(text, a), pos_of(text, b))
}

/// `text` with the edits `es` from the `k`-th on applied, those within the first `len` bytes,
/// from byte `last` on; and the number of edits applied.
pub open spec fn applied(text: Seq<char>, es: Seq<Edit>, len: int, k: int, last: int) -> (Seq<char>, nat)
    decreases es.len() - k,
{
    if k < 0 || k >= es.len() {
        (bytes_text(text, last, len), 0)
    } else {
        let e = es[k];
        if e.range.start <= e.range.end && e.range.end <= len {
            let (rest, n) = applied(text, es, len, k + 1, e.range.end as int);
            (bytes_text(text, last, e.range.start as int) + match e.content {
                Some(c) => c@,
                None => Seq::empty(),
            } + rest, n + 1)
        } else {
            applied(text, es, len, k + 1, last)
        }
    }
}

/// Whether the edit `e` lies within the first `len` bytes.
pub open spec fn within(e: Edit, len: int) -> bool {
    e.range.start <= e.range.end && e.range.end <= len
}

proof fn lemma_applied_none(text: Seq<char>, es: Seq<Edit>, len: int, k: int, last: int)
    requires
        0 <= k,
        forall|i: int| k <= i < es.len() ==> !within(#[trigger] es[i], len),
    ensures
        applied(text, es, len, k, last) == (bytes_text(text, last, len), 0nat),
    decreases es.len() - k,
{
    if k < es.len() {
        assert(!within(es[k], len));
        lemma_applied_none(text, es, len, k + 1, last);
    }
}

/// A fix none of whose edits lies within the file leaves the file's text as it is, with no
/// edit applied.
pub proof fn lemma_fix_outside_file_changes_nothing(file: SourceFile, fix: Fix)
    requires
        file.wf(),
        forall|i: int| 0 <= i < fix.edits@.len() ==> !within(#[trigger] fix.edits@[i], file.index.len() as int),
    ensures
        applied(file.text@, fix.edits@, file.index.len() as int, 0, 0) == (file.text@, 0nat),
{
    let t = file.text@;
    lemma_applied_none(t, fix.edits@, file.index.len() as int, 0, 0);
    crate::source::lemma_end_boundary(file);
    assert(t.take(0) =~= Seq::<char>::empty());
    assert(crate::text::at_byte(t, 0, 0));
    lemma_pos_of(t, 0, 0);
    assert(t.take(t.len() as int) =~= t);
    assert(crate::text::at_byte(t, t.len() as int, file.index.len() as int));
    lemma_pos_of(t, t.len() as int, file.index.len() as int);
    assert(t.subrange(0, t.len() as int) =~= t);
}

/// Returns the text of the bytes `a` to `b` of `text`.
pub fn slice_bytes(text: &[char], a: u32, b: u32) -> (t: Vec<char>)
    requires
        a <= b,
        boundary(text@, a as int),
        boundary(text@, b as int),
    ensures
        t@ == bytes_text(text@, a as int, b as int),
{
    let p = char_pos_of_byte(text, a as usize);
    let q = char_pos_of_byte(text, b as usize);
    match (p, q) {
        (Some(p), Some(q)) => {
            proof {
                lemma_pos_of(text@, p as int, a as int);
                lemma_pos_of(text@, q as int, b as int);
                if q < p {
                    crate::text::lemma_utf8_len_take_increasing(text@, q as int, p as int);
                }
            }
            let t = crate::text::tail_from(crate::text::head_of(text, q).as_slice(), p);
            assert(t@ =~= text@.subrange(p as int, q as int));
            t
        },
        _ => {
            proof {
                assert(false);
            }
            Vec::new()
        },
    }
}

/// Returns the text of `file` with the edits of `fix` applied that lie within it, in order,
/// and the number of edits applied (see [`applied`]).
pub fn apply_fix(file: &SourceFile, fix: &Fix) -> (r: (Vec<char>, usize))
    requires
        file.wf(),
        edits_ordered(file.text@, fix.edits@, file.index.len() as int, 0, 0),
    ensures
        r.0@ == applied(file.text@, fix.edits@, file.index.len() as int, 0, 0).0,
        r.1 == applied(file.text@, fix.edits@, file.index.len() as int, 0, 0).1,
{
    let len = file.index.len_exec();
    let ghost total = applied(file.text@, fix.edits@, len as int, 0, 0);
    let mut out: Vec<char> = Vec::new();
    let mut count: usize = 0;
    let mut last: u32 = 0;
    let mut k: usize = 0;
    while k < fix.edits.len()
        invariant
            k <= fix.edits@.len(),
            len == file.index.len(),
            last <= len,
            count <= k,
            edits_ordered(file.text@, fix.edits@, len as int, k as int, last as int),
            out@ + applied(file.text@, fix.edits@, len as int, k as int, last as int).0 == total.0,
            count + applied(file.text@, fix.edits@, len as int, k as int, last as int).1 == total.1,
        decreases fix.edits@.len() - k,
    {
        let e = &fix.edits[k];
        if e.range.start <= e.range.end && e.range.end <= len {
            let head = slice_bytes(file.text.as_slice(), last, e.range.start);
            push_all(&mut out, head.as_slice());
            match &e.content {
                Some(c) => push_str(&mut out, c.as_str()),
                None => {},
            }
            proof {
                let rest = applied(file.text@, fix.edits@, len as int, k + 1, e.range.end as int);
                assert(out@ + rest.0 =~= total.0);
            }
            last = e.range.end;
            count = count + 1;
        }
        k = k + 1;
    }
    proof {
        crate::source::lemma_end_boundary(*file);
    }
    let tail = slice_bytes(file.text.as_slice(), last, len);
    push_all(&mut out, tail.as_slice());
    assert(out@ =~= total.0);
    (out, count)
}

fn numbers_fit_exec(gs: &Vec<Vec<DiffChange>>) -> (b: bool)
    ensures
        b == numbers_fit(groups_view(gs@)),
{
    let ghost view = groups_view(gs@);
    let mut g: usize = 0;
    while g < gs.len()
        invariant
            g <= gs@.len(),
            view == groups_view(gs@),
            forall|a: int, k: int|
                0 <= a < g && 0 <= k < view[a].len() ==> (shown_line(#[trigger] view[a][k]) matches Some(i)
                    ==> i < usize::MAX),
        decreases gs@.len() - g,
    {
        let mut k: usize = 0;
        while k < gs[g].len()
            invariant
                g < gs@.len(),
                view == groups_view(gs@),
                k <= gs@[g as int]@.len(),
                forall|a: int, j: int|
                    0 <= a < g && 0 <= j < view[a].len() ==> (shown_line(#[trigger] view[a][j]) matches Some(i)
                        ==> i < usize::MAX),
                forall|j: int|
                    0 <= j < k ==> (shown_line(#[trigger] view[g as int][j]) matches Some(i) ==> i < usize::MAX),
            decreases gs@[g as int]@.len() - k,
        {
            let c = &gs[g][k];
            assert(view[g as int][k as int] == line_view(*c));
            let shown = match c.tag {
                ChangeKind::Delete => None,
                _ => c.new_index,
            };
            if let Some(i) = shown {
                if i == usize::MAX {
                    return false;
                }
            }
            k = k + 1;
        }
        g = g + 1;
    }
    true
}

/// The text shown for a fix: the diff of the fixed text when some edit applies, then the note
/// on the fix's applicability.
pub open spec fn fix_diff_text(
    gs: Seq<Seq<(ChangeKind, Option<usize>, Seq<char>, bool)>>,
    largest: usize,
    applied_count: nat,
    a: Applicability,
) -> Seq<char> {
    (if applied_count > 0 {
        groups_text(gs, number_width(largest))
    } else {
        Seq::empty()
    }) + applicability_note(a)
}

/// The note after a fix's diff depends on the fix's applicability alone: a safe fix adds
/// nothing to its diff, and an unsafe or display-only one adds its warning line at the end.
pub proof fn lemma_note_follows_applicability(
    gs: Seq<Seq<(ChangeKind, Option<usize>, Seq<char>, bool)>>,
    largest: usize,
    count: nat,
    a: Applicability,
)
    ensures
        a == Applicability::Safe ==> fix_diff_text(gs, largest, count, a) =~= (if count > 0 {
            groups_text(gs, number_width(largest))
        } else {
            Seq::empty()
        }),
        fix_diff_text(gs, largest, count, a).len() >= applicability_note(a).len(),
        fix_diff_text(gs, largest, count, a).skip(
            fix_diff_text(gs, largest, count, a).len() - applicability_note(a).len(),
        ) =~= applicability_note(a),
{
    let head = if count > 0 {
        groups_text(gs, number_width(largest))
    } else {
        Seq::<char>::empty()
    };
    assert((head + applicability_note(a)).skip(head.len() as int) =~= applicability_note(a));
    if a == Applicability::Safe {
        assert(head + applicability_note(a) =~= head);
    }
}

/// Returns what is shown for `fix` in `file`: when some edit applies, the line diff between the
/// text and the fixed text (see [`diff_lines`] and [`diff_end`]), then the note on the fix's
/// applicability. `None` when the diff shows a line number that cannot be counted from one.
pub fn fix_diff(file: &SourceFile, fix: &Fix) -> (r: Option<String>)
    requires
        file.wf(),
        edits_ordered(file.text@, fix.edits@, file.index.len() as int, 0, 0),
    ensures
        ({
            let (fixed, count) = applied(file.text@, fix.edits@, file.index.len() as int, 0, 0);
            let gs = diff_lines(file.text@, fixed);
            &&& count == 0 ==> (r matches Some(s) && s@ == applicability_note(fix.applicability))
            &&& count > 0 ==> (r is Some <==> numbers_fit(gs))
            &&& (r matches Some(s) ==> s@ == fix_diff_text(
                gs,
                largest_line(diff_end(file.text@, fixed)),
                count,
                fix.applicability,
            ))
        }),
{
    let (new_text, count) = apply_fix(file, fix);
    let ghost fixed = new_text@;
    let mut out: Vec<char> = Vec::new();
    if count != 0 {
        let before = string_of(file.text.as_slice());
        let after = string_of(new_text.as_slice());
        let (groups, end) = line_diff(before.as_str(), after.as_str());
        let largest = match end {
            Some(e) => e,
            None => 0,
        };
        if !numbers_fit_exec(&groups) {
            return None;
        }
        let text = render_diff(&groups, largest);
        push_str(&mut out, text.as_str());
    }
    match fix.applicability {
        Applicability::Safe => {},
        Applicability::Unsafe => push_str(&mut out, "note: This is an unsafe fix and may change runtime behavior\n"),
        Applicability::DisplayOnly => push_str(&mut out, "note: This is a display-only fix and is likely to be incorrect\n"),
    }
    proof {
        let gs = diff_lines(file.text@, fixed);
        assert(out@ =~= fix_diff_text(gs, largest_line(diff_end(file.text@, fixed)), count as nat, fix.applicability));
    }
    Some(string_of(out.as_slice()))
}

} // verus!
