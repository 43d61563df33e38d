//! Edits to source text: re-indenting blocks of lines.
use vstd::prelude::*;
use crate::diagnostics::Edit;
use crate::line_index::LineIndex;
use crate::range::TextRange;
use crate::text::{
    all_ws, at_byte, char_pos_of_byte, chars_of, has_non_ws, has_prefix, head_of,
    is_all_whitespace, leading_ws, leading_ws_len, lemma_encoded_len, lines, push_all, split_lines,
    starts_with, string_of, tail_from, trim, trim_ws, utf8_len,
};

verus! {

/// The line terminator used in a source file.
#[derive(Debug, Clone, Copy, PartialEq, Eq, Structural)]
pub enum LineEnding {
    Lf,
    Cr,
    CrLf,
}

impl LineEnding {
    /// The characters of the line terminator.
    pub open spec fn chars(self) -> Seq<char> {
        match self {
            LineEnding::Lf => seq!['\n'],
            LineEnding::Cr => seq!['\r'],
            LineEnding::CrLf => seq!['\r', '\n'],
        }
    }

    /// Returns the characters of the line terminator.
    pub fn as_chars(&self) -> (v: Vec<char>)
        ensures
            v@ == self.chars(),
    {
        let mut v = Vec::new();
        match self {
            LineEnding::Lf => v.push('\n'),
            LineEnding::Cr => v.push('\r'),
            LineEnding::CrLf => {
                v.push('\r');
                v.push('\n');
            },
        }
        assert(v@ =~= self.chars());
        v
    }

    /// Returns the length of the line terminator.
    pub fn len(&self) -> (n: usize)
        ensures
            n == self.chars().len(),
    {
        match self {
            LineEnding::CrLf => 2,
            _ => 1,
        }
    }
}

/// Whether `line` is a comment or continuation line: its first character that is not
/// whitespace is `!` or `&`.
pub open spec fn is_comment_line(line: Seq<char>) -> bool {
    has_non_ws(line) && (line[leading_ws(line) as int] == '!' || line[leading_ws(line) as int] == '&')
}

/// Returns whether `line` is a comment or continuation line (see [`is_comment_line`]).
pub fn comment_line(line: &[char]) -> (b: bool)
    ensures
        b == is_comment_line(line@),
{
    let n = leading_ws_len(line);
    n < line.len() && (line[n] == '!' || line[n] == '&')
}

/// The indentation set by the first line that is not a comment and holds more than
/// whitespace, with that line's position; the empty indentation and the number of lines when
/// there is no such line.
pub open spec fn starting_prefix(ls: Seq<Seq<char>>) -> (Seq<char>, int)
    decreases ls.len(),
{
    if ls.len() == 0 {
        (Seq::empty(), 0)
    } else if !is_comment_line(ls[0]) && has_non_ws(ls[0]) {
        (ls[0].take(leading_ws(ls[0]) as int), 0)
    } else {
        let (p, i) = starting_prefix(ls.drop_first());
        (p, i + 1)
    }
}

/// The length of the longest common prefix of `a` and `b`.
pub open spec fn common_len(a: Seq<char>, b: Seq<char>) -> nat
    decreases a.len(),
{
    if a.len() == 0 || b.len() == 0 || a[0] != b[0] {
        0
    } else {
        1 + common_len(a.drop_first(), b.drop_first())
    }
}

/// The indentation after looking at `line`: shortened to the part it shares with `line`
/// when `line` is not a comment and differs from it within both their lengths.
pub open spec fn shorten(prefix: Seq<char>, line: Seq<char>) -> Seq<char> {
    let n = common_len(line, prefix);
    if !is_comment_line(line) && n < line.len() && n < prefix.len() {
        line.take(n as int)
    } else {
        prefix
    }
}

/// The indentation after looking at each of `ls` in turn.
pub open spec fn refine(prefix: Seq<char>, ls: Seq<Seq<char>>) -> Seq<char>
    decreases ls.len(),
{
    if ls.len() == 0 {
        prefix
    } else {
        refine(shorten(prefix, ls[0]), ls.drop_first())
    }
}

/// The common indentation of the lines `ls` that `redent` removes.
pub open spec fn redent_prefix(ls: Seq<Seq<char>>) -> Seq<char> {
    let (p, i) = starting_prefix(ls);
    if i < ls.len() {
        refine(p, ls.skip(i + 1))
    } else {
        p
    }
}

/// One line of the result of `redent`, before its terminator.
pub open spec fn redent_line(line: Seq<char>, prefix: Seq<char>, indentation: Seq<char>) -> Seq<
    char,
> {
    if starts_with(line, prefix) && has_non_ws(line) {
        indentation + line.skip(prefix.len() as int)
    } else if is_comment_line(line) {
        line
    } else {
        Seq::empty()
    }
}

/// The lines `ls` re-indented, each followed by `ending`.
pub open spec fn redent_body(
    ls: Seq<Seq<char>>,
    prefix: Seq<char>,
    indentation: Seq<char>,
    ending: Seq<char>,
) -> Seq<char>
    decreases ls.len(),
{
    if ls.len() == 0 {
        Seq::empty()
    } else {
        redent_body(ls.drop_last(), prefix, indentation, ending) + redent_line(
            ls.last(),
            prefix,
            indentation,
        ) + ending
    }
}

/// The result of [`redent`] on `s`.
pub open spec fn redent_spec(s: Seq<char>, indentation: Seq<char>, ending: LineEnding) -> Seq<char> {
    let ls = lines(s);
    let body = redent_body(ls, redent_prefix(ls), indentation, ending.chars());
    if body.len() > 0 && body.last() == '\n' && !(s.len() > 0 && s.last() == '\n') {
        body.take(body.len() - ending.chars().len())
    } else {
        body
    }
}

/// Returns the length of the longest common prefix of `a` and `b`.
fn common_prefix_len(a: &[char], b: &[char]) -> (n: usize)
    ensures
        n == common_len(a@, b@),
{
    let mut i: usize = 0;
    assert(a@.skip(0) =~= a@);
    assert(b@.skip(0) =~= b@);
    while i < a.len() && i < b.len() && a[i] == b[i]
        invariant
            i <= a@.len(),
            i <= b@.len(),
            common_len(a@, b@) == i + common_len(a@.skip(i as int), b@.skip(i as int)),
        decreases a@.len() - i,
    {
        assert(a@.skip(i as int).drop_first() =~= a@.skip(i + 1));
        assert(b@.skip(i as int).drop_first() =~= b@.skip(i + 1));
        i = i + 1;
    }
    if i < a.len() && i < b.len() {
        assert(a@.skip(i as int)[0] == a@[i as int]);
        assert(b@.skip(i as int)[0] == b@[i as int]);
    }
    i
}

/// Unindent and then indent each line, ignoring under-indented comments and continuation
/// lines.
///
/// The indentation to remove is found from the lines that are not comments or continuation
/// lines: it starts as the leading whitespace of the first such line holding more than
/// whitespace, and each later such line shortens it to the part the two share. Every line that
/// starts with it and holds more than whitespace gets `indentation` in its place; other comment
/// and continuation lines are kept as they are, and all other lines become empty. Each line is
/// followed by `line_ending`, except that a final line feed is dropped when `s` does not end
/// with one.
pub fn redent(s: &str, indentation: &str, line_ending: LineEnding) -> (r: String)
    ensures
        r@ == redent_spec(s@, indentation@, line_ending),
{
    let chars = chars_of(s);
    let ind = chars_of(indentation);
    let ls = split_lines(chars.as_slice());
    let ghost lv = lines(s@);
    // Find the starting prefix.
    let mut prefix: Vec<char> = Vec::new();
    let mut i: usize = 0;
    let mut set = false;
    assert(lv.skip(0) =~= lv);
    while !set && i < ls.len()
        invariant
            ls@.len() == lv.len(),
            forall|k: int| 0 <= k < ls@.len() ==> #[trigger] ls@[k]@ == lv[k],
            i <= lv.len(),
            !set ==> starting_prefix(lv) == (starting_prefix(lv.skip(i as int)).0, starting_prefix(
                lv.skip(i as int),
            ).1 + i),
            set ==> i < lv.len() && starting_prefix(lv) == (prefix@, i as int),
            !set ==> prefix@.len() == 0,
        decreases lv.len() - i + if set {
            0int
        } else {
            1
        },
    {
        let line = &ls[i];
        assert(lv.skip(i as int)[0] == lv[i as int]);
        assert(lv.skip(i as int).drop_first() =~= lv.skip(i + 1));
        if !comment_line(line.as_slice()) {
            let n = leading_ws_len(line.as_slice());
            if n < line.len() {
                prefix = head_of(line.as_slice(), n);
                set = true;
            }
        }
        if !set {
            i = i + 1;
        }
    }
    // Shorten it with the remaining lines.
    if set {
        let n = ls.len();
        assert(i < n);
        let mut k = i + 1;
        assert(lv.skip(i as int + 1).skip(0) =~= lv.skip(k as int));
        while k < ls.len()
            invariant
                ls@.len() == lv.len(),
                forall|j: int| 0 <= j < ls@.len() ==> #[trigger] ls@[j]@ == lv[j],
                i < k <= lv.len(),
                redent_prefix(lv) == refine(prefix@, lv.skip(k as int)),
            decreases lv.len() - k,
        {
            let line = &ls[k];
            assert(lv.skip(k as int)[0] == lv[k as int]);
            assert(lv.skip(k as int).drop_first() =~= lv.skip(k + 1));
            if !comment_line(line.as_slice()) {
                let n = common_prefix_len(line.as_slice(), prefix.as_slice());
                if n < line.len() && n < prefix.len() {
                    prefix = head_of(line.as_slice(), n);
                }
            }
            k = k + 1;
        }
        assert(lv.skip(k as int) =~= Seq::<Seq<char>>::empty());
        assert(refine(prefix@, lv.skip(k as int)) == prefix@);
    } else {
        assert(lv.skip(i as int) =~= Seq::<Seq<char>>::empty());
        assert(starting_prefix(lv.skip(i as int)) == (Seq::<char>::empty(), 0int));
        assert(prefix@ =~= Seq::<char>::empty());
    }
    // Build the result.
    let ending = line_ending.as_chars();
    let mut result: Vec<char> = Vec::new();
    let mut j: usize = 0;
    while j < ls.len()
        invariant
            ls@.len() == lv.len(),
            forall|q: int| 0 <= q < ls@.len() ==> #[trigger] ls@[q]@ == lv[q],
            prefix@ == redent_prefix(lv),
            ind@ == indentation@,
            ending@ == line_ending.chars(),
            j <= lv.len(),
            result@ == redent_body(lv.take(j as int), prefix@, ind@, ending@),
        decreases lv.len() - j,
    {
        let line = &ls[j];
        assert(lv.take(j + 1).drop_last() =~= lv.take(j as int));
        assert(lv.take(j + 1).last() == lv[j as int]);
        let ghost before = result@;
        if has_prefix(line.as_slice(), prefix.as_slice()) && leading_ws_len(line.as_slice())
            < line.len() {
            push_all(&mut result, ind.as_slice());
            let tail = tail_from(line.as_slice(), prefix.len());
            push_all(&mut result, tail.as_slice());
        } else if comment_line(line.as_slice()) {
            push_all(&mut result, line.as_slice());
        }
        assert(result@ == before + redent_line(lv[j as int], prefix@, ind@));
        push_all(&mut result, ending.as_slice());
        j = j + 1;
    }
    assert(lv.take(lv.len() as int) =~= lv);
    proof {
        if lv.len() > 0 {
            assert(result@ == redent_body(lv.drop_last(), prefix@, ind@, ending@) + redent_line(
                lv.last(),
                prefix@,
                ind@,
            ) + ending@);
        }
    }
    if result.len() > 0 && result[result.len() - 1] == '\n' && !(chars.len() > 0 && chars[chars.len()
        - 1] == '\n') {
        let keep = result.len() - line_ending.len();
        result.truncate(keep);
    }
    string_of(result.as_slice())
}

/// Whether a character of `src` starts at byte offset `b` (or `b` is the length of `src`).
pub open spec fn boundary(src: Seq<char>, b: int) -> bool {
    exists|p: int| at_byte(src, p, b)
}

/// Whether `line` is the (one-based) line of `index` on which byte `offset` lies.
pub open spec fn on_line(index: LineIndex, offset: int, line: int) -> bool {
    1 <= line <= index.starts().len() && index.starts()[line - 1] <= offset && (line
        < index.starts().len() ==> offset < index.starts()[line])
}

/// Where line `line` of `index` ends, its terminator included.
pub open spec fn end_of_line(index: LineIndex, line: int) -> int {
    if line < index.starts().len() {
        index.starts()[line] as int
    } else {
        index.len() as int
    }
}

/// `index` indexes the lines of `src`: it is well formed, as long as the encoding of `src`, and
/// every line starts at a character.
pub open spec fn indexes(index: LineIndex, src: Seq<char>) -> bool {
    &&& index.wf()
    &&& index.len() == utf8_len(src)
    &&& forall|k: int| 0 <= k < index.starts().len() ==> boundary(src, #[trigger] index.starts()[k] as int)
}

proof fn lemma_full_boundary(src: Seq<char>)
    ensures
        at_byte(src, src.len() as int, utf8_len(src) as int),
{
    assert(src.take(src.len() as int) =~= src);
}

/// The character position of `src` at which byte offset `b` lies.
pub open spec fn pos_of(src: Seq<char>, b: int) -> int {
    choose|p: int| at_byte(src, p, b)
}

/// The (one-based) line of `index` on which byte `offset` lies.
pub open spec fn line_of(index: LineIndex, offset: int) -> int {
    choose|l: int| on_line(index, offset, l)
}

/// A byte offset lies at no more than one character position.
pub proof fn lemma_pos_of(src: Seq<char>, p: int, b: int)
    requires
        at_byte(src, p, b),
    ensures
        pos_of(src, b) == p,
{
    let q = pos_of(src, b);
    assert(at_byte(src, q, b));
    if q < p {
        crate::text::lemma_utf8_len_take_increasing(src, q, p);
    } else if p < q {
        crate::text::lemma_utf8_len_take_increasing(src, p, q);
    }
}

/// An offset lies on no more than one line of a well-formed index.
pub proof fn lemma_line_of(index: LineIndex, offset: int, l: int)
    requires
        index.wf(),
        on_line(index, offset, l),
    ensures
        line_of(index, offset) == l,
{
    index.lemma_wf();
    let m = line_of(index, offset);
    assert(on_line(index, offset, m));
    if m < l {
        assert(index.starts()[m] <= index.starts()[l - 1]);
    } else if l < m {
        assert(index.starts()[l] <= index.starts()[m - 1]);
    }
}

/// The range that deleting `node` from `src` removes: the whole lines from the start of the line
/// on which the node starts to the end of the line on which it ends, when nothing but
/// whitespace is left on them, and only the node otherwise.
pub open spec fn deletion_range(src: Seq<char>, index: LineIndex, node: TextRange) -> TextRange {
    let l1 = line_of(index, node.start as int);
    let l2 = line_of(index, node.end as int);
    let line_start = index.starts()[l1 - 1];
    let line_end = end_of_line(index, l2);
    if all_ws(
        src.subrange(pos_of(src, line_start as int), pos_of(src, node.start as int)) + src.subrange(
            pos_of(src, node.end as int),
            pos_of(src, line_end),
        ),
    ) {
        TextRange { start: line_start, end: line_end as u32 }
    } else {
        node
    }
}

/// The range that replacing `node` in `src` covers: from the node's start, as many bytes as the
/// node's text has once leading and trailing whitespace are trimmed.
pub open spec fn replacement_range(src: Seq<char>, node: TextRange) -> TextRange {
    TextRange {
        start: node.start,
        end: (node.start + utf8_len(
            trim_ws(src.subrange(pos_of(src, node.start as int), pos_of(src, node.end as int))),
        )) as u32,
    }
}

/// The edit that removes `node` from `src`: the whole lines it spans when nothing but
/// whitespace would be left on them, and only the node otherwise.
pub fn edit_delete(src: &[char], index: &LineIndex, node: TextRange) -> (e: Edit)
    requires
        indexes(*index, src@),
        node.start <= node.end <= index.len(),
        boundary(src@, node.start as int),
        boundary(src@, node.end as int),
    ensures
        e.content is None,
        e.range == deletion_range(src@, *index, node),
{
    let l1 = index.line_index(node.start);
    let l2 = index.line_index(node.end);
    let start_line = index.line_start(l1);
    let end_line = index.line_end(l2);
    proof {
        lemma_full_boundary(src@);
        assert(boundary(src@, index.starts()[l1 - 1] as int));
        if l2 >= index.starts().len() {
            lemma_encoded_len(src@);
            assert(at_byte(src@, src@.len() as int, end_line as int));
        } else {
            assert(boundary(src@, index.starts()[l2 as int] as int));
        }
    }
    let ps = char_pos_of_byte(src, start_line as usize);
    let pa = char_pos_of_byte(src, node.start as usize);
    let pb = char_pos_of_byte(src, node.end as usize);
    let pe = char_pos_of_byte(src, end_line as usize);
    match (ps, pa, pb, pe) {
        (Some(ps), Some(pa), Some(pb), Some(pe)) => {
            proof {
                if ps > pa {
                    crate::text::lemma_utf8_len_take_increasing(src@, pa as int, ps as int);
                }
                if pa > pb {
                    crate::text::lemma_utf8_len_take_increasing(src@, pb as int, pa as int);
                }
                if pb > pe {
                    crate::text::lemma_utf8_len_take_increasing(src@, pe as int, pb as int);
                }
            }
            let mut rest: Vec<char> = Vec::new();
            let mut i = ps;
            while i < pa
                invariant
                    ps <= i <= pa <= src@.len(),
                    rest@ == src@.subrange(ps as int, i as int),
                decreases pa - i,
            {
                rest.push(src[i]);
                assert(src@.subrange(ps as int, i + 1) =~= src@.subrange(ps as int, i as int).push(
                    src@[i as int],
                ));
                i = i + 1;
            }
            let ghost first = rest@;
            let mut j = pb;
            while j < pe
                invariant
                    pb <= j <= pe <= src@.len(),
                    rest@ == first + src@.subrange(pb as int, j as int),
                decreases pe - j,
            {
                rest.push(src[j]);
                assert(src@.subrange(pb as int, j + 1) =~= src@.subrange(pb as int, j as int).push(
                    src@[j as int],
                ));
                j = j + 1;
            }
            let e = if is_all_whitespace(rest.as_slice()) {
                Edit::range_deletion(TextRange { start: start_line, end: end_line })
            } else {
                Edit::range_deletion(node)
            };
            proof {
                lemma_line_of(*index, node.start as int, l1 as int);
                lemma_line_of(*index, node.end as int, l2 as int);
                lemma_pos_of(src@, ps as int, start_line as int);
                lemma_pos_of(src@, pa as int, node.start as int);
                lemma_pos_of(src@, pb as int, node.end as int);
                lemma_pos_of(src@, pe as int, end_line as int);
            }
            e
        },
        _ => {
            proof {
                assert(false);
            }
            Edit::range_deletion(node)
        },
    }
}

/// The edit that replaces `node` by `content`: it spans from the node's start as many bytes as
/// the node's text has once leading and trailing whitespace is trimmed.
pub fn edit_replacement(src: &[char], node: TextRange, content: String) -> (e: Edit)
    requires
        node.start <= node.end,
        boundary(src@, node.start as int),
        boundary(src@, node.end as int),
    ensures
        e.content == Some(content),
        e.range == replacement_range(src@, node),
{
    let pa = char_pos_of_byte(src, node.start as usize);
    let pb = char_pos_of_byte(src, node.end as usize);
    match (pa, pb) {
        (Some(pa), Some(pb)) => {
            proof {
                if pa > pb {
                    crate::text::lemma_utf8_len_take_increasing(src@, pb as int, pa as int);
                }
            }
            let text = tail_from(head_of(src, pb).as_slice(), pa);
            assert(text@ =~= src@.subrange(pa as int, pb as int));
            let trimmed = trim(text.as_slice());
            proof {
                lemma_trim_len(text@);
                crate::text::lemma_utf8_len_concat(
                    src@.take(pa as int),
                    src@.subrange(pa as int, pb as int),
                );
                assert(src@.take(pa as int) + src@.subrange(pa as int, pb as int) =~= src@.take(
                    pb as int,
                ));
            }
            let len = byte_len(trimmed.as_slice());
            proof {
                lemma_pos_of(src@, pa as int, node.start as int);
                lemma_pos_of(src@, pb as int, node.end as int);
            }
            Edit::range_replacement(content, TextRange { start: node.start, end: node.start + len as u32 })
        },
        _ => {
            proof {
                assert(false);
            }
            Edit::range_replacement(content, node)
        },
    }
}

proof fn lemma_trim_len(s: Seq<char>)
    ensures
        utf8_len(trim_ws(s)) <= utf8_len(s),
{
    crate::text::lemma_leading_ws(s);
    if crate::text::leading_ws(s) < s.len() {
        crate::text::lemma_trailing_end_pub(s);
        let a = crate::text::leading_ws(s) as int;
        assert(!crate::text::is_ws(s[a]));
        assert(crate::text::trailing_end(s) > a);
        crate::text::lemma_utf8_len_subrange(s, crate::text::leading_ws(s) as int, crate::text::trailing_end(s) as int);
    }
}

/// Returns the number of bytes of the UTF-8 encoding of `s`.
pub fn byte_len(s: &[char]) -> (n: usize)
    requires
        utf8_len(s@) <= usize::MAX,
    ensures
        n == utf8_len(s@),
{
    let mut n: usize = 0;
    let mut i: usize = 0;
    assert(s@.take(0) =~= Seq::<char>::empty());
    while i < s.len()
        invariant
            i <= s@.len(),
            n == utf8_len(s@.take(i as int)),
            utf8_len(s@) <= usize::MAX,
        decreases s@.len() - i,
    {
        proof {
            crate::text::lemma_utf8_len_take_step_pub(s@, i as int);
            crate::text::lemma_utf8_len_subrange(s@, 0, i + 1);
            assert(s@.subrange(0, i + 1) =~= s@.take(i + 1));
        }
        n = n + crate::text::char_utf8_len(s[i]);
        i = i + 1;
    }
    assert(s@.take(s@.len() as int) =~= s@);
    n
}

} // verus!
