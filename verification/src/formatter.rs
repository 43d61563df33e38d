//! Formatting Fortran source: joining continued lines, and breaking long lines at the points a
//! syntax tree allows.
use vstd::prelude::*;
use crate::text::{char_pos_of_byte, chars_of, is_whitespace, is_ws, push_all, string_of, utf8_len};
use crate::edits::{boundary, lemma_pos_of, pos_of};
use crate::order::{sorted_by_points, stable_order_by_point};
use crate::write::spaces;

verus! {

/// Whether `c` is stripped from line ends: whitespace, and `&` when `amp` is set.
pub open spec fn strippable(c: char, amp: bool) -> bool {
    is_ws(c) || (amp && c == '&')
}

/// `s` without the strippable characters at its end.
pub open spec fn trim_end_by(s: Seq<char>, amp: bool) -> Seq<char>
    decreases s.len(),
{
    if s.len() > 0 && strippable(s.last(), amp) {
        trim_end_by(s.drop_last(), amp)
    } else {
        s
    }
}

/// `s` without the strippable characters at its start.
pub open spec fn trim_start_by(s: Seq<char>, amp: bool) -> Seq<char>
    decreases s.len(),
{
    if s.len() > 0 && strippable(s[0], amp) {
        trim_start_by(s.drop_first(), amp)
    } else {
        s
    }
}

fn strippable_exec(c: char, amp: bool) -> (b: bool)
    ensures
        b == strippable(c, amp),
{
    is_whitespace(c) || (amp && c == '&')
}

/// Returns `s` without the strippable characters at its end.
pub fn trim_end_chars(s: &[char], amp: bool) -> (r: Vec<char>)
    ensures
        r@ == trim_end_by(s@, amp),
{
    let mut e = s.len();
    assert(s@.take(e as int) =~= s@);
    while e > 0 && strippable_exec(s[e - 1], amp)
        invariant
            e <= s@.len(),
            trim_end_by(s@, amp) == trim_end_by(s@.take(e as int), amp),
        decreases e,
    {
        assert(s@.take(e as int).drop_last() =~= s@.take(e - 1));
        e = e - 1;
    }
    crate::text::head_of(s, e)
}

/// Returns `s` without the strippable characters at its start.
pub fn trim_start_chars(s: &[char], amp: bool) -> (r: Vec<char>)
    ensures
        r@ == trim_start_by(s@, amp),
{
    let mut b: usize = 0;
    assert(s@.skip(0) =~= s@);
    while b < s.len() && strippable_exec(s[b], amp)
        invariant
            b <= s@.len(),
            trim_start_by(s@, amp) == trim_start_by(s@.skip(b as int), amp),
        decreases s@.len() - b,
    {
        assert(s@.skip(b as int).drop_first() =~= s@.skip(b + 1));
        b = b + 1;
    }
    crate::text::tail_from(s, b)
}

/// The pieces of `group`, each without trailing whitespace and `&`, joined.
pub open spec fn join_group(group: Seq<Seq<char>>) -> Seq<char>
    decreases group.len(),
{
    if group.len() == 0 {
        Seq::empty()
    } else {
        join_group(group.drop_last()) + trim_end_by(group.last(), true)
    }
}

/// After the first `n` lines of `lines`: the pieces of the statement being continued, and the
/// statements completed so far. A line without trailing whitespace is a piece (and, after the
/// first piece of a statement, also without leading whitespace and `&`); a piece that ends with
/// `&` is continued by the next line; otherwise the statement's pieces are joined into a line.
pub open spec fn uncontinued(lines: Seq<Seq<char>>, n: int) -> (Seq<Seq<char>>, Seq<Seq<char>>)
    decreases n,
{
    if n <= 0 {
        (Seq::empty(), Seq::empty())
    } else {
        let (group, result) = uncontinued(lines, n - 1);
        let stripped = trim_end_by(lines[n - 1], false);
        let piece = if group.len() == 0 {
            stripped
        } else {
            trim_start_by(stripped, true)
        };
        let group2 = group.push(piece);
        if piece.len() > 0 && piece.last() == '&' {
            (group2, result)
        } else {
            (Seq::empty(), result.push(join_group(group2)))
        }
    }
}

/// Whether `line` is continued on the next line: its last character other than whitespace is
/// `&`.
pub open spec fn continued_line(line: Seq<char>) -> bool {
    exists|m: int| 0 < m <= line.len() && line[m - 1] == '&' && #[trigger] ws_from(line, m)
}

/// Whether every character of `line` from the `m`-th on is whitespace.
pub open spec fn ws_from(line: Seq<char>, m: int) -> bool {
    forall|q: int| m <= q < line.len() ==> is_ws(#[trigger] line[q])
}

/// Whether `r` is `line` with the whitespace at its end removed, and nothing else.
pub open spec fn end_trimmed(line: Seq<char>, r: Seq<char>) -> bool {
    &&& r.len() <= line.len()
    &&& r == line.take(r.len() as int)
    &&& forall|q: int| r.len() <= q < line.len() ==> is_ws(#[trigger] line[q])
    &&& (r.len() == 0 || !is_ws(r.last()))
}

proof fn lemma_trim_end_shape(s: Seq<char>, amp: bool)
    ensures
        trim_end_by(s, amp).len() <= s.len(),
        trim_end_by(s, amp) == s.take(trim_end_by(s, amp).len() as int),
        forall|q: int| trim_end_by(s, amp).len() <= q < s.len() ==> strippable(#[trigger] s[q], amp),
        trim_end_by(s, amp).len() == 0 || !strippable(trim_end_by(s, amp).last(), amp),
    decreases s.len(),
{
    if s.len() > 0 && strippable(s.last(), amp) {
        lemma_trim_end_shape(s.drop_last(), amp);
        let t = trim_end_by(s.drop_last(), amp);
        assert(s.drop_last().take(t.len() as int) =~= s.take(t.len() as int));
        assert forall|q: int| t.len() <= q < s.len() implies strippable(#[trigger] s[q], amp) by {
            if q < s.len() - 1 {
                assert(s.drop_last()[q] == s[q]);
            }
        }
    } else {
        assert(s.take(s.len() as int) =~= s);
    }
}

proof fn lemma_trim_start_shape(s: Seq<char>, amp: bool)
    ensures
        trim_start_by(s, amp).len() <= s.len(),
        trim_start_by(s, amp) == s.skip(s.len() - trim_start_by(s, amp).len()),
        forall|q: int| 0 <= q < s.len() - trim_start_by(s, amp).len() ==> strippable(#[trigger] s[q], amp),
        trim_start_by(s, amp).len() == 0 || !strippable(trim_start_by(s, amp)[0], amp),
    decreases s.len(),
{
    if s.len() > 0 && strippable(s[0], amp) {
        lemma_trim_start_shape(s.drop_first(), amp);
        let t = trim_start_by(s.drop_first(), amp);
        assert(s.drop_first().skip(s.drop_first().len() - t.len()) =~= s.skip(s.len() - t.len()));
        assert forall|q: int| 0 <= q < s.len() - t.len() implies strippable(#[trigger] s[q], amp) by {
            if q > 0 {
                assert(s.drop_first()[q - 1] == s[q]);
            }
        }
    } else {
        assert(s.skip(0) =~= s);
    }
}

proof fn lemma_stripped_continues(line: Seq<char>)
    ensures
        (trim_end_by(line, false).len() > 0 && trim_end_by(line, false).last() == '&') <==> continued_line(line),
{
    lemma_trim_end_shape(line, false);
    let t = trim_end_by(line, false);
    if continued_line(line) {
        let m = choose|m: int| 0 < m <= line.len() && line[m - 1] == '&' && #[trigger] ws_from(line, m);
        assert(!is_ws('&'));
        if t.len() < m {
            assert(strippable(line[m - 1], false));
        }
        if t.len() > m {
            assert(t.last() == line[t.len() - 1]);
            assert(is_ws(line[t.len() - 1]));
        }
        assert(t.last() == line[m - 1]);
    }
    if t.len() > 0 && t.last() == '&' {
        assert(t.last() == line[t.len() - 1]);
        assert forall|q: int| t.len() <= q < line.len() implies is_ws(#[trigger] line[q]) by {
            assert(strippable(line[q], false));
        }
        assert(ws_from(line, t.len() as int));
    }
}

/// A statement on a single line is kept as written but for the whitespace at its end: its
/// indentation and everything else up to its last character other than whitespace stay.
pub proof fn lemma_one_line_statement_kept(lines: Seq<Seq<char>>, i: int)
    requires
        0 <= i < lines.len(),
        uncontinued(lines, i).0.len() == 0,
        !continued_line(lines[i]),
    ensures
        uncontinued(lines, i + 1).0.len() == 0,
        uncontinued(lines, i + 1).1.len() == uncontinued(lines, i).1.len() + 1,
        uncontinued(lines, i + 1).1.drop_last() == uncontinued(lines, i).1,
        end_trimmed(lines[i], uncontinued(lines, i + 1).1.last()),
{
    let line = lines[i];
    let piece = trim_end_by(line, false);
    lemma_trim_end_shape(line, false);
    lemma_stripped_continues(line);
    lemma_trim_end_shape(piece, true);
    assert(trim_end_by(piece, true) == piece) by {
        if piece.len() > 0 {
            assert(!is_ws(piece.last()));
            assert(piece.last() != '&');
        }
    }
    let g = seq![piece];
    assert(g.drop_last() =~= Seq::<Seq<char>>::empty());
    assert(join_group(g.drop_last()) == Seq::<char>::empty());
    assert(g.last() == piece);
    assert(join_group(g) == Seq::<char>::empty() + trim_end_by(piece, true));
    assert(join_group(g) =~= piece);
    let prev = uncontinued(lines, i).1;
    assert(uncontinued(lines, i + 1).1 == prev.push(piece));
    assert(prev.push(piece).drop_last() =~= prev);
}

/// Lines none of which is continued are kept one for one, each as written but for the whitespace
/// at its end.
pub proof fn lemma_uncontinued_lines_kept(lines: Seq<Seq<char>>, n: int)
    requires
        0 <= n <= lines.len(),
        forall|i: int| 0 <= i < lines.len() ==> !continued_line(#[trigger] lines[i]),
    ensures
        uncontinued(lines, n).0.len() == 0,
        uncontinued(lines, n).1.len() == n,
        forall|i: int| 0 <= i < n ==> end_trimmed(lines[i], #[trigger] uncontinued(lines, n).1[i]),
    decreases n,
{
    if n > 0 {
        lemma_uncontinued_lines_kept(lines, n - 1);
        lemma_one_line_statement_kept(lines, n - 1);
        let prev = uncontinued(lines, n - 1).1;
        let cur = uncontinued(lines, n).1;
        assert forall|i: int| 0 <= i < n implies end_trimmed(lines[i], #[trigger] uncontinued(lines, n).1[i]) by {
            if i < n - 1 {
                assert(cur.drop_last()[i] == cur[i]);
            }
        }
    }
}

/// Whether `r` is `first.take(a) + second.subrange(s, e)` where `a` is where `first` ends but
/// for whitespace and `&`, `s` where the text of `second` starts after whitespace and `&`, and
/// `e` where it ends but for whitespace.
pub open spec fn joined_pieces(first: Seq<char>, second: Seq<char>, a: int, s: int, e: int, r: Seq<char>) -> bool {
    &&& 0 <= a <= first.len()
    &&& forall|q: int| a <= q < first.len() ==> is_ws(#[trigger] first[q]) || first[q] == '&'
    &&& (a == 0 || !(is_ws(first[a - 1]) || first[a - 1] == '&'))
    &&& 0 <= s <= e <= second.len()
    &&& forall|q: int| 0 <= q < s ==> is_ws(#[trigger] second[q]) || second[q] == '&'
    &&& (s == e || !(is_ws(second[s]) || second[s] == '&'))
    &&& forall|q: int| e <= q < second.len() ==> is_ws(#[trigger] second[q])
    &&& (e == 0 || !is_ws(second[e - 1]))
    &&& r == first.take(a) + second.subrange(s, e)
}

/// A statement continued from one line onto the next keeps the first line as written up to its
/// last character other than whitespace and `&` (its indentation included), followed by the
/// second line without the whitespace and `&` before its text and the whitespace after it.
pub proof fn lemma_two_line_statement_joined(lines: Seq<Seq<char>>, i: int)
    requires
        0 <= i,
        i + 1 < lines.len(),
        uncontinued(lines, i).0.len() == 0,
        continued_line(lines[i]),
        !continued_line(lines[i + 1]),
    ensures
        uncontinued(lines, i + 2).0.len() == 0,
        uncontinued(lines, i + 2).1.drop_last() == uncontinued(lines, i).1,
        uncontinued(lines, i + 2).1.len() == uncontinued(lines, i).1.len() + 1,
        exists|a: int, s: int, e: int| #[trigger] joined_pieces(lines[i], lines[i + 1], a, s, e, uncontinued(lines, i + 2).1.last()),
{
    let l0 = lines[i];
    let l1 = lines[i + 1];
    let p0 = trim_end_by(l0, false);
    lemma_trim_end_shape(l0, false);
    lemma_stripped_continues(l0);
    let t1 = trim_end_by(l1, false);
    lemma_trim_end_shape(l1, false);
    lemma_stripped_continues(l1);
    let p1 = trim_start_by(t1, true);
    lemma_trim_start_shape(t1, true);
    let prev = uncontinued(lines, i).1;
    assert(uncontinued(lines, i + 1) == (seq![p0], prev));
    let g = seq![p0].push(p1);
    assert(p1.len() == 0 || p1.last() != '&') by {
        if p1.len() > 0 {
            assert(p1.last() == t1[t1.len() - 1]);
        }
    }
    assert(uncontinued(lines, i + 2) == (Seq::<Seq<char>>::empty(), prev.push(join_group(g))));
    let a0 = trim_end_by(p0, true);
    lemma_trim_end_shape(p0, true);
    assert(trim_end_by(p1, true) == p1) by {
        if p1.len() > 0 {
            assert(p1.last() == t1[t1.len() - 1]);
            assert(!is_ws(p1.last()));
        }
    }
    assert(g.drop_last() =~= seq![p0]);
    assert(seq![p0].drop_last() =~= Seq::<Seq<char>>::empty());
    assert(join_group(seq![p0].drop_last()) == Seq::<char>::empty());
    assert(seq![p0].last() == p0);
    assert(join_group(seq![p0]) == Seq::<char>::empty() + a0);
    assert(join_group(seq![p0]) =~= a0);
    assert(join_group(g) == a0 + p1);
    let a = a0.len() as int;
    let e = t1.len() as int;
    let s = e - p1.len();
    assert(a0 =~= l0.take(a));
    assert(p1 =~= l1.subrange(s, e));
    assert forall|q: int| a <= q < l0.len() implies is_ws(#[trigger] l0[q]) || l0[q] == '&' by {
        if q < p0.len() {
            assert(p0[q] == l0[q]);
            assert(strippable(p0[q], true));
        } else {
            assert(strippable(l0[q], false));
        }
    }
    if a > 0 {
        assert(a0.last() == l0[a - 1]);
    }
    assert forall|q: int| 0 <= q < s implies is_ws(#[trigger] l1[q]) || l1[q] == '&' by {
        assert(t1[q] == l1[q]);
        assert(strippable(t1[q], true));
    }
    if s < e {
        assert(p1[0] == l1[s]);
    }
    assert forall|q: int| e <= q < l1.len() implies is_ws(#[trigger] l1[q]) by {
        assert(strippable(l1[q], false));
    }
    if e > 0 {
        assert(t1.last() == l1[e - 1]);
    }
    assert(prev.push(a0 + p1).drop_last() =~= prev);
    assert(prev.push(a0 + p1).last() == l0.take(a) + l1.subrange(s, e));
    assert(joined_pieces(l0, l1, a, s, e, uncontinued(lines, i + 2).1.last()));
}

/// The texts of `strings`.
pub open spec fn views(strings: Seq<String>) -> Seq<Seq<char>> {
    strings.map_values(|s: String| s@)
}

fn join_pieces(group: &Vec<Vec<char>>) -> (r: Vec<char>)
    ensures
        r@ == join_group(group@.map_values(|g: Vec<char>| g@)),
{
    let ghost gs = group@.map_values(|g: Vec<char>| g@);
    let mut r: Vec<char> = Vec::new();
    let mut i: usize = 0;
    assert(gs.take(0) =~= Seq::<Seq<char>>::empty());
    while i < group.len()
        invariant
            i <= group@.len(),
            gs == group@.map_values(|g: Vec<char>| g@),
            r@ == join_group(gs.take(i as int)),
        decreases group@.len() - i,
    {
        let piece = trim_end_chars(group[i].as_slice(), true);
        push_all(&mut r, piece.as_slice());
        assert(gs.take(i + 1).drop_last() =~= gs.take(i as int));
        i = i + 1;
    }
    assert(gs.take(i as int) =~= gs);
    r
}

/// Returns the lines of a file with continued statements joined onto one line each (see
/// [`uncontinued`]); a statement still continued after the last line is dropped.
pub fn get_uncontinued_lines(lines: &Vec<String>) -> (result: Vec<String>)
    ensures
        views(result@) == uncontinued(views(lines@), lines@.len() as int).1,
{
    let ghost ls = views(lines@);
    let mut group: Vec<Vec<char>> = Vec::new();
    let mut result: Vec<String> = Vec::new();
    let mut i: usize = 0;
    while i < lines.len()
        invariant
            i <= lines@.len(),
            ls == views(lines@),
            group@.map_values(|g: Vec<char>| g@) == uncontinued(ls, i as int).0,
            views(result@) == uncontinued(ls, i as int).1,
        decreases lines@.len() - i,
    {
        let line = chars_of(lines[i].as_str());
        let stripped = trim_end_chars(line.as_slice(), false);
        let piece = if group.len() == 0 {
            stripped
        } else {
            trim_start_chars(stripped.as_slice(), true)
        };
        let continued = piece.len() > 0 && piece[piece.len() - 1] == '&';
        let ghost before = group@.map_values(|g: Vec<char>| g@);
        group.push(piece);
        assert(group@.map_values(|g: Vec<char>| g@) =~= before.push(piece@));
        if !continued {
            let joined = join_pieces(&group);
            let ghost old_result = views(result@);
            result.push(string_of(joined.as_slice()));
            assert(views(result@) =~= old_result.push(joined@));
            group = Vec::new();
            assert(group@.map_values(|g: Vec<char>| g@) =~= Seq::<Seq<char>>::empty());
        }
        i = i + 1;
    }
    result
}

/// The number of bytes before the first character of `line` that is not whitespace, or zero
/// when there is none.
pub open spec fn indent_of(line: Seq<char>) -> nat {
    if crate::text::has_non_ws(line) {
        utf8_len(line.take(crate::text::leading_ws(line) as int))
    } else {
        0
    }
}

/// Returns the indentation of `line` in bytes (see [`indent_of`]).
pub fn get_indent(line: &String) -> (n: usize)
    ensures
        n == indent_of(line@),
{
    let chars = chars_of(line.as_str());
    let a = crate::text::leading_ws_len(chars.as_slice());
    proof {
        crate::text::lemma_leading_ws(chars@);
    }
    if a >= chars.len() {
        assert(!crate::text::has_non_ws(chars@));
        return 0;
    }
    let head = crate::text::head_of(chars.as_slice(), a);
    assert(crate::text::has_non_ws(chars@));
    let bytes = line.as_str().as_bytes();
    proof {
        crate::text::lemma_encoded_len(line@);
        assert(bytes@.len() == bytes.len());
        assert(chars@.take(a as int) =~= chars@.subrange(0, a as int));
        crate::text::lemma_utf8_len_subrange(chars@, 0, a as int);
    }
    crate::edits::byte_len(head.as_slice())
}

/// A position in a list of lines: a row, and a byte offset in it.
#[derive(Debug, Clone, Copy, PartialEq, Eq, Structural)]
pub struct Point {
    pub row: usize,
    pub column: usize,
}

/// A line break to insert after `point`, indenting the new line by `next_indent` spaces.
#[derive(Debug, Clone, Copy, PartialEq, Eq, Structural)]
pub struct Break {
    pub point: Point,
    pub next_indent: usize,
}

/// The breaks that one pattern of the wrap query allows in a node.
#[derive(Debug, Clone)]
pub struct BreakCollection {
    pub breaks: Vec<Break>,
    pub pattern_id: usize,
}

/// A node of a syntax tree: the rows on which it starts and ends, and the positions of its
/// children in the tree.
#[derive(Debug, Clone)]
pub struct TreeNode {
    pub start_row: usize,
    pub end_row: usize,
    pub children: Vec<usize>,
}

/// A syntax tree whose nodes are listed with the root first; every child comes after its parent.
#[derive(Debug, Clone)]
pub struct SyntaxTree {
    pub nodes: Vec<TreeNode>,
}

impl SyntaxTree {
    /// The tree has a root, and each child comes after its parent and lies in the tree.
    pub open spec fn wf(&self) -> bool {
        &&& self.nodes@.len() > 0
        &&& forall|i: int, k: int|
            0 <= i < self.nodes@.len() && 0 <= k < self.nodes@[i].children@.len() ==> i < (
            #[trigger] self.nodes@[i].children@[k]) < self.nodes@.len()
    }
}

/// A match of the wrap query: its pattern, the node it breaks, and for each place it may break
/// after, where that place ends and the row on which it starts.
#[derive(Debug, Clone)]
pub struct WrapMatch {
    pub pattern_index: usize,
    pub root: usize,
    pub break_after: Vec<(Point, usize)>,
}

/// The number of bytes of the UTF-8 encoding of `s`.
pub open spec fn byte_length(s: Seq<char>) -> nat {
    utf8_len(s)
}

/// The positions, in increasing order, of the first `n` lines of `lines` longer than `limit`
/// bytes.
pub open spec fn long_lines_of(lines: Seq<Seq<char>>, limit: nat, n: int) -> Seq<usize>
    decreases n,
{
    if n <= 0 {
        Seq::empty()
    } else if byte_length(lines[n - 1]) > limit {
        long_lines_of(lines, limit, n - 1).push((n - 1) as usize)
    } else {
        long_lines_of(lines, limit, n - 1)
    }
}

/// Returns the positions, in increasing order, of the lines longer than `limit` bytes.
pub fn long_lines(lines: &Vec<String>, limit: usize) -> (v: Vec<usize>)
    ensures
        v@ == long_lines_of(views(lines@), limit as nat, lines@.len() as int),
        forall|k: int| 0 <= k < v@.len() ==> #[trigger] v@[k] < lines@.len(),
        forall|k: int, l: int| 0 <= k < l < v@.len() ==> v@[k] < v@[l],
{
    let ghost ls = views(lines@);
    let mut v: Vec<usize> = Vec::new();
    let mut i: usize = 0;
    while i < lines.len()
        invariant
            i <= lines@.len(),
            ls == views(lines@),
            v@ == long_lines_of(ls, limit as nat, i as int),
            forall|k: int| 0 <= k < v@.len() ==> #[trigger] v@[k] < i,
            forall|k: int, l: int| 0 <= k < l < v@.len() ==> v@[k] < v@[l],
        decreases lines@.len() - i,
    {
        let bytes = lines[i].as_str().as_bytes();
        let len = bytes.len();
        proof {
            crate::text::lemma_encoded_len(lines@[i as int]@);
            assert(ls[i as int] == lines@[i as int]@);
        }
        if len > limit {
            v.push(i);
        }
        i = i + 1;
    }
    v
}

/// Whether some row of `long` lies between `a` and `b`.
pub open spec fn has_long_between(long: Seq<usize>, a: int, b: int) -> bool {
    exists|k: int| 0 <= k < long.len() && a <= #[trigger] long[k] <= b
}

/// Returns whether a node from row `a` to row `b` spans a long line, given the long lines
/// `long` in increasing order (a binary search).
pub fn node_contains_long_line(a: usize, b: usize, long: &Vec<usize>) -> (r: bool)
    requires
        forall|k: int, l: int| 0 <= k < l < long@.len() ==> long@[k] < long@[l],
    ensures
        r == has_long_between(long@, a as int, b as int),
{
    let mut lo: usize = 0;
    let mut hi: usize = long.len();
    while lo < hi
        invariant
            lo <= hi <= long@.len(),
            forall|k: int, l: int| 0 <= k < l < long@.len() ==> long@[k] < long@[l],
            forall|k: int| 0 <= k < lo ==> #[trigger] long@[k] < a,
            forall|k: int| hi <= k < long@.len() ==> #[trigger] long@[k] > b,
        decreases hi - lo,
    {
        let mid = lo + (hi - lo) / 2;
        let i = long[mid];
        if a <= i && i <= b {
            return true;
        } else if i < a {
            assert forall|k: int| 0 <= k < mid + 1 implies #[trigger] long@[k] < a by {
                if k < mid {
                    assert(long@[k] < long@[mid as int]);
                }
            }
            lo = mid + 1;
        } else {
            assert forall|k: int| mid <= k < long@.len() implies #[trigger] long@[k] > b by {
                if k > mid {
                    assert(long@[mid as int] < long@[k]);
                }
            }
            hi = mid;
        }
    }
    false
}

/// A collection of breaks as its breaks and pattern.
pub open spec fn collection_view(c: BreakCollection) -> (Seq<Break>, usize) {
    (c.breaks@, c.pattern_id)
}

/// An optional collection of breaks as a view.
pub open spec fn option_view(o: Option<BreakCollection>) -> Option<(Seq<Break>, usize)> {
    match o {
        Some(c) => Some(collection_view(c)),
        None => None,
    }
}

/// The possible breaks per node, as views.
pub open spec fn possible_view(v: Seq<Option<BreakCollection>>) -> Seq<Option<(Seq<Break>, usize)>> {
    v.map_values(|o: Option<BreakCollection>| option_view(o))
}

/// The chosen collections of breaks, as views.
pub open spec fn actual_view(v: Seq<BreakCollection>) -> Seq<(Seq<Break>, usize)> {
    v.map_values(|c: BreakCollection| collection_view(c))
}

/// The breaks of the match `m`: after each place it captures, with the next line indented by
/// `indent` more than the line on which that place starts.
pub open spec fn match_breaks(lines: Seq<Seq<char>>, indent: usize, m: WrapMatch) -> Seq<Break> {
    m.break_after@.map_values(
        |c: (Point, usize)| Break { point: c.0, next_indent: (indent_of(lines[c.1 as int]) + indent) as usize },
    )
}

/// The breaks that the first `n` matches of `ms` allow in the node `node`: those of each match
/// whose root it is, in order, with the pattern of the first.
pub open spec fn collected(
    lines: Seq<Seq<char>>,
    indent: usize,
    ms: Seq<WrapMatch>,
    n: int,
    node: int,
) -> Option<(Seq<Break>, usize)>
    decreases n,
{
    if n <= 0 {
        None
    } else {
        let prev = collected(lines, indent, ms, n - 1, node);
        let m = ms[n - 1];
        if m.root == node {
            match prev {
                None => Some((match_breaks(lines, indent, m), m.pattern_index)),
                Some((bs, p)) => Some((bs + match_breaks(lines, indent, m), p)),
            }
        } else {
            prev
        }
    }
}

/// The matches `ms` can be collected for a tree of `n_nodes` nodes over `lines`: each breaks a
/// node of the tree somewhere on an existing line, matches of the same node share a pattern,
/// and indentations fit in a `usize`.
pub open spec fn matches_fit(lines: Seq<Seq<char>>, indent: usize, ms: Seq<WrapMatch>, n_nodes: nat) -> bool {
    &&& forall|i: int| 0 <= i < ms.len() ==> (#[trigger] ms[i]).root < n_nodes
    &&& forall|i: int| 0 <= i < ms.len() ==> (#[trigger] ms[i]).break_after@.len() > 0
    &&& forall|i: int, k: int|
        0 <= i < ms.len() && 0 <= k < ms[i].break_after@.len() ==> (#[trigger] ms[i].break_after@[k]).1 < lines.len()
    &&& forall|i: int, j: int|
        0 <= i < ms.len() && 0 <= j < ms.len() && (#[trigger] ms[i]).root == (#[trigger] ms[j]).root ==> ms[i].pattern_index
            == ms[j].pattern_index
    &&& forall|r: int| 0 <= r < lines.len() ==> utf8_len(#[trigger] lines[r]) + indent <= usize::MAX
}

proof fn lemma_indent_bound(line: Seq<char>)
    ensures
        indent_of(line) <= utf8_len(line),
{
    crate::text::lemma_leading_ws(line);
    if crate::text::has_non_ws(line) {
        assert(line.take(crate::text::leading_ws(line) as int) =~= line.subrange(0, crate::text::leading_ws(line) as int));
        crate::text::lemma_utf8_len_subrange(line, 0, crate::text::leading_ws(line) as int);
    }
}

/// Whether the collection `o`, if any, has the pattern of one of the first `i` matches of `ms`
/// that break the node `u`.
pub open spec fn pattern_seen(ms: Seq<WrapMatch>, i: int, u: int, o: Option<BreakCollection>) -> bool {
    match o {
        Some(c) => exists|j: int| 0 <= j < i && ms[j].root == u && c.pattern_id == ms[j].pattern_index,
        None => true,
    }
}

/// Returns, for each node of a tree of `n_nodes` nodes, the breaks that the matches `ms`
/// allow in it (see [`collected`]).
pub fn possible_breaks(lines: &Vec<String>, indent: usize, ms: &Vec<WrapMatch>, n_nodes: usize) -> (pb: Vec<Option<BreakCollection>>)
    requires
        matches_fit(views(lines@), indent, ms@, n_nodes as nat),
    ensures
        pb@.len() == n_nodes,
        forall|v: int| 0 <= v < n_nodes ==> #[trigger] option_view(pb@[v]) == collected(views(lines@), indent, ms@, ms@.len() as int, v),
{
    let ghost ls = views(lines@);
    let mut pb: Vec<Option<BreakCollection>> = Vec::new();
    let mut v: usize = 0;
    while v < n_nodes
        invariant
            v <= n_nodes,
            pb@.len() == v,
            forall|u: int| 0 <= u < v ==> (#[trigger] pb@[u]) is None,
        decreases n_nodes - v,
    {
        pb.push(None);
        v = v + 1;
    }
    let mut i: usize = 0;
    while i < ms.len()
        invariant
            i <= ms@.len(),
            ls == views(lines@),
            matches_fit(ls, indent, ms@, n_nodes as nat),
            pb@.len() == n_nodes,
            forall|u: int| 0 <= u < n_nodes ==> #[trigger] option_view(pb@[u]) == collected(ls, indent, ms@, i as int, u),
            forall|u: int| 0 <= u < n_nodes ==> pattern_seen(ms@, i as int, u, #[trigger] pb@[u]),
        decreases ms@.len() - i,
    {
        let m = &ms[i];
        assert(m.root < n_nodes);
        let mut bs: Vec<Break> = Vec::new();
        let mut k: usize = 0;
        while k < m.break_after.len()
            invariant
                k <= m.break_after@.len(),
                *m == ms@[i as int],
                ls == views(lines@),
                matches_fit(ls, indent, ms@, n_nodes as nat),
                i < ms@.len(),
                bs@ == match_breaks(ls, indent, *m).take(k as int),
            decreases m.break_after@.len() - k,
        {
            let (point, row) = m.break_after[k];
            assert(m.break_after@[k as int].1 < ls.len());
            assert(ls[row as int] == lines@[row as int]@);
            let base = get_indent(&lines[row]);
            proof {
                lemma_indent_bound(ls[row as int]);
            }
            bs.push(Break { point, next_indent: base + indent });
            assert(bs@ =~= match_breaks(ls, indent, *m).take(k + 1));
            k = k + 1;
        }
        assert(bs@ =~= match_breaks(ls, indent, *m));
        let root = m.root;
        let ghost before_pb = pb@;
        let existing = pb.remove(root);
        let ghost old_pb = pb@;
        assert(option_view(existing) == collected(ls, indent, ms@, i as int, root as int));
        let updated = match existing {
            None => BreakCollection { breaks: bs, pattern_id: m.pattern_index },
            Some(mut c) => {
                let mut bs = bs;
                c.breaks.append(&mut bs);
                c
            },
        };
        pb.insert(root, Some(updated));
        proof {
            assert forall|u: int| 0 <= u < n_nodes implies #[trigger] option_view(pb@[u]) == collected(ls, indent, ms@, i + 1, u) by {
                if u != root {
                    assert(pb@[u] == before_pb[u]);
                }
            }
            assert forall|u: int| 0 <= u < n_nodes implies pattern_seen(ms@, i + 1, u, #[trigger] pb@[u]) by {
                if u != root {
                    assert(pb@[u] == before_pb[u]);
                    assert(pattern_seen(ms@, i as int, u, before_pb[u]));
                } else {
                    match existing {
                        Some(c0) => {
                            assert(pattern_seen(ms@, i as int, u, before_pb[u]));
                            let j = choose|j: int| 0 <= j < i && ms@[j].root == u && c0.pattern_id == ms@[j].pattern_index;
                            assert(ms@[j].root == ms@[i as int].root);
                        },
                        None => {},
                    }
                }
            }
        }
        i = i + 1;
    }
    pb
}

/// The outcome of a search: the breaks handed to the parent, the breaks still possible, and
/// the collections chosen so far.
pub type SearchState = (Option<(Seq<Break>, usize)>, Seq<Option<(Seq<Break>, usize)>>, Seq<(Seq<Break>, usize)>);

/// The search for the outermost breakable nodes, from `node`, with the possible breaks `pb` and
/// the chosen collections `ab`, below an ancestor that is breakable when `anc` is set. A node
/// matters only when it spans a long line; it takes its possible breaks, and is breakable when
/// it has some and lies on one row. Below a breakable ancestor only breakable nodes are searched.
/// Children are searched in order, and a child's breaks of the same pattern join the node's.
/// The outermost breakable node's breaks are chosen; other nodes hand theirs to their parent.
pub open spec fn search(
    tree: SyntaxTree,
    long: Seq<usize>,
    node: int,
    pb: Seq<Option<(Seq<Break>, usize)>>,
    ab: Seq<(Seq<Break>, usize)>,
    anc: bool,
) -> SearchState
    decreases tree.nodes@.len() - node, tree.nodes@[node].children@.len() + 1,
{
    if !(0 <= node < tree.nodes@.len()) {
        (None, pb, ab)
    } else {
        let n = tree.nodes@[node];
        if !has_long_between(long, n.start_row as int, n.end_row as int) {
            (None, pb, ab)
        } else {
            let breaks = pb[node];
            let pb1 = pb.update(node, None);
            let this = breaks is Some && n.start_row == n.end_row;
            if !this && anc {
                (None, pb1, ab)
            } else {
                let (b2, pb2, ab2) = search_children(tree, long, node, 0, breaks, pb1, ab, anc || this);
                if !anc && this {
                    (None, pb2, ab2.push(b2.unwrap()))
                } else {
                    (b2, pb2, ab2)
                }
            }
        }
    }
}

/// The search of the children of `node` from the `k`-th on, with the node's breaks `breaks`.
pub open spec fn search_children(
    tree: SyntaxTree,
    long: Seq<usize>,
    node: int,
    k: int,
    breaks: Option<(Seq<Break>, usize)>,
    pb: Seq<Option<(Seq<Break>, usize)>>,
    ab: Seq<(Seq<Break>, usize)>,
    flag: bool,
) -> SearchState
    decreases tree.nodes@.len() - node, tree.nodes@[node].children@.len() - k,
{
    if !(0 <= node < tree.nodes@.len()) || k < 0 || k >= tree.nodes@[node].children@.len() {
        (breaks, pb, ab)
    } else {
        let c = tree.nodes@[node].children@[k] as int;
        if !(node < c < tree.nodes@.len()) {
            search_children(tree, long, node, k + 1, breaks, pb, ab, flag)
        } else {
            let (cb, pb2, ab2) = search(tree, long, c, pb, ab, flag);
            let breaks2 = match (breaks, cb) {
                (Some((bs, p)), Some((cbs, cp))) => if p == cp {
                    Some((bs + cbs, p))
                } else {
                    breaks
                },
                _ => breaks,
            };
            search_children(tree, long, node, k + 1, breaks2, pb2, ab2, flag)
        }
    }
}

fn take_possible(possible: &mut Vec<Option<BreakCollection>>, node: usize) -> (b: Option<BreakCollection>)
    requires
        node < old(possible)@.len(),
    ensures
        b == old(possible)@[node as int],
        final(possible)@ == old(possible)@.update(node as int, None),
{
    let b = possible.remove(node);
    possible.insert(node, None);
    assert(possible@ =~= old(possible)@.update(node as int, None));
    b
}

fn push_chosen(actual: &mut Vec<BreakCollection>, c: BreakCollection)
    ensures
        actual_view(final(actual)@) == actual_view(old(actual)@).push(collection_view(c)),
{
    actual.push(c);
    assert(actual_view(actual@) =~= actual_view(old(actual)@).push(collection_view(c)));
}

/// Searches from `node` for the outermost breakable nodes (see [`search`]), taking their
/// breaks from `possible` and adding the chosen collections to `actual`.
fn get_breaks_dfs(
    tree: &SyntaxTree,
    long: &Vec<usize>,
    node: usize,
    possible: &mut Vec<Option<BreakCollection>>,
    actual: &mut Vec<BreakCollection>,
    anc: bool,
) -> (r: Option<BreakCollection>)
    requires
        tree.wf(),
        node < tree.nodes@.len(),
        old(possible)@.len() == tree.nodes@.len(),
        forall|k: int, l: int| 0 <= k < l < long@.len() ==> long@[k] < long@[l],
    ensures
        final(possible)@.len() == tree.nodes@.len(),
        (option_view(r), possible_view(final(possible)@), actual_view(final(actual)@)) == search(
            *tree,
            long@,
            node as int,
            possible_view(old(possible)@),
            actual_view(old(actual)@),
            anc,
        ),
    decreases tree.nodes@.len() - node, tree.nodes@[node as int].children@.len() + 1,
{
    let n = &tree.nodes[node];
    if !node_contains_long_line(n.start_row, n.end_row, long) {
        return None;
    }
    let breaks = take_possible(possible, node);
    proof {
        assert(possible_view(possible@) =~= possible_view(old(possible)@).update(node as int, None));
    }
    let this = breaks.is_some() && n.start_row == n.end_row;
    if !this && anc {
        return None;
    }
    let mut breaks = breaks;
    let ghost b0 = option_view(breaks);
    let ghost pb1 = possible_view(possible@);
    let ghost ab1 = actual_view(actual@);
    let flag = anc || this;
    let mut k: usize = 0;
    while k < n.children.len()
        invariant
            tree.wf(),
            node < tree.nodes@.len(),
            *n == tree.nodes@[node as int],
            k <= n.children@.len(),
            possible@.len() == tree.nodes@.len(),
            b0 is Some ==> breaks is Some,
            forall|a: int, b: int| 0 <= a < b < long@.len() ==> long@[a] < long@[b],
            search_children(*tree, long@, node as int, 0, b0, pb1, ab1, flag) == search_children(
                *tree,
                long@,
                node as int,
                k as int,
                option_view(breaks),
                possible_view(possible@),
                actual_view(actual@),
                flag,
            ),
        decreases n.children@.len() - k,
    {
        let c = n.children[k];
        assert(node < c < tree.nodes@.len());
        let cb = get_breaks_dfs(tree, long, c, possible, actual, flag);
        breaks = match breaks {
            Some(br) => match cb {
                Some(ch) => {
                    if br.pattern_id == ch.pattern_id {
                        let mut br = br;
                        let mut more = ch.breaks;
                        br.breaks.append(&mut more);
                        Some(br)
                    } else {
                        Some(br)
                    }
                },
                None => Some(br),
            },
            None => None,
        };
        k = k + 1;
    }
    assert(search_children(
        *tree,
        long@,
        node as int,
        k as int,
        option_view(breaks),
        possible_view(possible@),
        actual_view(actual@),
        flag,
    ) == (option_view(breaks), possible_view(possible@), actual_view(actual@)));
    if !anc && this {
        match breaks {
            Some(b) => {
                push_chosen(actual, b);
            },
            None => {},
        }
        return None;
    }
    breaks
}

/// The breaks of the collections `ab`, in order.
pub open spec fn flatten(ab: Seq<(Seq<Break>, usize)>) -> Seq<Break>
    decreases ab.len(),
{
    if ab.len() == 0 {
        Seq::empty()
    } else {
        flatten(ab.drop_last()) + ab.last().0
    }
}

/// The points of the breaks `bs`, as rows and columns.
pub open spec fn points_of(bs: Seq<Break>) -> Seq<(usize, usize)> {
    bs.map_values(|b: Break| (b.point.row, b.point.column))
}

/// The breaks `bs` taken in the order `order`.
pub open spec fn ordered(bs: Seq<Break>, order: Seq<usize>) -> Seq<Break> {
    order.map_values(|i: usize| bs[i as int])
}

/// Whether `lines` can be broken at `b`: its row exists and its column is where a character of
/// that row starts (or its end).
pub open spec fn can_split(lines: Seq<Seq<char>>, b: Break) -> bool {
    b.point.row < lines.len() && boundary(lines[b.point.row as int], b.point.column as int)
}

/// `lines` broken at `b`: the row ends at the break with ` &`, and the rest of it, without
/// leading whitespace, follows on a new line indented by `b.next_indent` spaces.
pub open spec fn split_line(lines: Seq<Seq<char>>, b: Break) -> Seq<Seq<char>> {
    let row = b.point.row as int;
    let line = lines[row];
    let p = pos_of(line, b.point.column as int);
    lines.update(row, line.take(p) + " &"@).insert(
        row + 1,
        spaces(b.next_indent as nat) + trim_start_by(line.skip(p), false),
    )
}

/// `lines` broken at each of `bs`, the last first.
pub open spec fn apply_reversed(lines: Seq<Seq<char>>, bs: Seq<Break>) -> Seq<Seq<char>>
    decreases bs.len(),
{
    if bs.len() == 0 {
        lines
    } else {
        apply_reversed(split_line(lines, bs.last()), bs.drop_last())
    }
}

/// Whether `lines` can be broken at each of `bs`, the last first.
pub open spec fn all_split(lines: Seq<Seq<char>>, bs: Seq<Break>) -> bool
    decreases bs.len(),
{
    bs.len() == 0 || (can_split(lines, bs.last()) && all_split(split_line(lines, bs.last()), bs.drop_last()))
}

/// The breaks planned for `lines`: those of the outermost breakable nodes of `tree` that span
/// lines longer than `line_length` bytes, with the breaks that the matches `ms` allow.
pub open spec fn planned_breaks(
    lines: Seq<Seq<char>>,
    line_length: usize,
    indent: usize,
    tree: SyntaxTree,
    ms: Seq<WrapMatch>,
) -> Seq<Break> {
    let long = long_lines_of(lines, line_length as nat, lines.len() as int);
    let pb = Seq::new(tree.nodes@.len(), |v: int| collected(lines, indent, ms, ms.len() as int, v));
    flatten(search(tree, long, 0, pb, Seq::empty(), false).2)
}

fn flatten_breaks(actual: &Vec<BreakCollection>) -> (v: Vec<Break>)
    ensures
        v@ == flatten(actual_view(actual@)),
{
    let ghost av = actual_view(actual@);
    let mut v: Vec<Break> = Vec::new();
    let mut i: usize = 0;
    assert(av.take(0) =~= Seq::<(Seq<Break>, usize)>::empty());
    while i < actual.len()
        invariant
            i <= actual@.len(),
            av == actual_view(actual@),
            v@ == flatten(av.take(i as int)),
        decreases actual@.len() - i,
    {
        let bs = &actual[i].breaks;
        let mut k: usize = 0;
        let ghost start = v@;
        while k < bs.len()
            invariant
                k <= bs@.len(),
                v@ == start + bs@.take(k as int),
            decreases bs@.len() - k,
        {
            v.push(bs[k]);
            assert(bs@.take(k + 1) =~= bs@.take(k as int).push(bs@[k as int]));
            k = k + 1;
        }
        assert(bs@.take(k as int) =~= bs@);
        assert(av.take(i + 1).drop_last() =~= av.take(i as int));
        i = i + 1;
    }
    assert(av.take(i as int) =~= av);
    v
}

fn split_at_break(lines: &mut Vec<String>, b: Break)
    requires
        can_split(views(old(lines)@), b),
    ensures
        views(final(lines)@) == split_line(views(old(lines)@), b),
{
    let row = b.point.row;
    let line = chars_of(lines[row].as_str());
    let p = match char_pos_of_byte(line.as_slice(), b.point.column) {
        Some(p) => p,
        None => {
            proof {
                assert(views(lines@)[row as int] == lines@[row as int]@);
            }
            0
        },
    };
    proof {
        assert(views(lines@)[row as int] == lines@[row as int]@);
        let q = choose|q: int| crate::text::at_byte(line@, q, b.point.column as int);
        lemma_pos_of(line@, p as int, b.point.column as int);
    }
    let mut head = crate::text::head_of(line.as_slice(), p);
    head.push(' ');
    head.push('&');
    let rest = crate::text::tail_from(line.as_slice(), p);
    let trimmed = trim_start_chars(rest.as_slice(), false);
    let mut next: Vec<char> = Vec::new();
    let mut k: usize = 0;
    while k < b.next_indent
        invariant
            k <= b.next_indent,
            next@ == spaces(k as nat),
        decreases b.next_indent - k,
    {
        next.push(' ');
        assert(spaces((k + 1) as nat) =~= spaces(k as nat).push(' '));
        k = k + 1;
    }
    push_all(&mut next, trimmed.as_slice());
    proof {
        reveal_strlit(" &");
        assert(head@ =~= line@.take(p as int) + " &"@);
    }
    let ghost before = views(lines@);
    assert(row < lines.len());
    lines.set(row, string_of(head.as_slice()));
    lines.insert(row + 1, string_of(next.as_slice()));
    assert(views(lines@) =~= split_line(before, b));
}

/// The breaks planned for `lines` and their stable order by row and column; no break when no
/// line is longer than `line_length` bytes.
fn plan_breaks(lines: &Vec<String>, line_length: usize, indent: usize, tree: &SyntaxTree, ms: &Vec<WrapMatch>) -> (r: (
    Vec<Break>,
    Vec<usize>,
))
    requires
        tree.wf(),
        matches_fit(views(lines@), indent, ms@, tree.nodes@.len()),
    ensures
        ({
            let before = views(lines@);
            if long_lines_of(before, line_length as nat, before.len() as int).len() == 0 {
                r.0@.len() == 0 && r.1@.len() == 0
            } else {
                r.0@ == planned_breaks(before, line_length, indent, *tree, ms@) && sorted_by_points(
                    r.1@,
                    points_of(r.0@),
                )
            }
        }),
{
    let ghost before = views(lines@);
    let long = long_lines(lines, line_length);
    if long.len() == 0 {
        return (Vec::new(), Vec::new());
    }
    let mut possible = possible_breaks(lines, indent, ms, tree.nodes.len());
    proof {
        assert(possible_view(possible@) =~= Seq::new(
            tree.nodes@.len(),
            |v: int| collected(before, indent, ms@, ms@.len() as int, v),
        ));
    }
    let mut actual: Vec<BreakCollection> = Vec::new();
    assert(actual_view(actual@) =~= Seq::<(Seq<Break>, usize)>::empty());
    let _ = get_breaks_dfs(tree, &long, 0, &mut possible, &mut actual, false);
    let breaks = flatten_breaks(&actual);
    assert(breaks@ == planned_breaks(before, line_length, indent, *tree, ms@));
    let mut points: Vec<(usize, usize)> = Vec::new();
    let mut i: usize = 0;
    while i < breaks.len()
        invariant
            i <= breaks@.len(),
            points@ == points_of(breaks@).take(i as int),
        decreases breaks@.len() - i,
    {
        points.push((breaks[i].point.row, breaks[i].point.column));
        assert(points@ =~= points_of(breaks@).take(i + 1));
        i = i + 1;
    }
    assert(points@ =~= points_of(breaks@));
    let order = stable_order_by_point(&points);
    (breaks, order)
}

fn can_split_exec(lines: &Vec<String>, b: Break) -> (ok: bool)
    ensures
        ok == can_split(views(lines@), b),
{
    if b.point.row >= lines.len() {
        return false;
    }
    let line = chars_of(lines[b.point.row].as_str());
    proof {
        assert(views(lines@)[b.point.row as int] == lines@[b.point.row as int]@);
    }
    match char_pos_of_byte(line.as_slice(), b.point.column) {
        Some(p) => {
            assert(crate::text::at_byte(line@, p as int, b.point.column as int));
            true
        },
        None => false,
    }
}

/// Breaks the long lines of `lines` once, at the breaks planned from the syntax tree `tree` of
/// the lines and the wrap query matches `ms` (see [`planned_breaks`]): the breaks in order of
/// row and column, applied from the last. Returns the number of breaks; none when no line is
/// longer than `line_length` bytes.
pub fn break_lines_once(
    lines: &mut Vec<String>,
    line_length: usize,
    indent: usize,
    tree: &SyntaxTree,
    ms: &Vec<WrapMatch>,
) -> (n: usize)
    requires
        tree.wf(),
        matches_fit(views(old(lines)@), indent, ms@, tree.nodes@.len()),
        forall|order: Seq<usize>|
            sorted_by_points(
                order,
                points_of(planned_breaks(views(old(lines)@), line_length, indent, *tree, ms@)),
            ) ==> all_split(
                views(old(lines)@),
                ordered(planned_breaks(views(old(lines)@), line_length, indent, *tree, ms@), order),
            ),
    ensures
        ({
            let before = views(old(lines)@);
            let planned = planned_breaks(before, line_length, indent, *tree, ms@);
            if long_lines_of(before, line_length as nat, before.len() as int).len() == 0 {
                n == 0 && final(lines)@ == old(lines)@
            } else {
                n == planned.len() && exists|order: Seq<usize>|
                    sorted_by_points(order, points_of(planned)) && views(final(lines)@) == apply_reversed(
                        before,
                        ordered(planned, order),
                    )
            }
        }),
{
    let ghost before = views(lines@);
    if long_lines(lines, line_length).len() == 0 {
        return 0;
    }
    let (breaks, order) = plan_breaks(lines, line_length, indent, tree, ms);
    assert(all_split(before, ordered(breaks@, order@)));
    apply_breaks(lines, &breaks, &order);
    breaks.len()
}

fn apply_breaks(lines: &mut Vec<String>, breaks: &Vec<Break>, order: &Vec<usize>)
    requires
        crate::order::is_permutation(order@, breaks@.len()),
        all_split(views(old(lines)@), ordered(breaks@, order@)),
    ensures
        views(final(lines)@) == apply_reversed(views(old(lines)@), ordered(breaks@, order@)),
{
    let ghost before = views(lines@);
    let ghost sorted = ordered(breaks@, order@);
    let mut k = order.len();
    assert(sorted.take(k as int) =~= sorted);
    while k > 0
        invariant
            k <= order@.len() == breaks@.len(),
            crate::order::is_permutation(order@, breaks@.len()),
            sorted == ordered(breaks@, order@),
            all_split(views(lines@), sorted.take(k as int)),
            apply_reversed(views(lines@), sorted.take(k as int)) == apply_reversed(before, sorted),
        decreases k,
    {
        assert(order@[k - 1] < breaks@.len());
        let b = breaks[order[k - 1]];
        assert(sorted.take(k as int).last() == b);
        assert(sorted.take(k as int).drop_last() =~= sorted.take(k - 1));
        split_at_break(lines, b);
        k = k - 1;
    }
    assert(sorted.take(0) =~= Seq::<Break>::empty());
}

/// Like [`break_lines_once`], but first tests whether every planned break falls where a
/// character of its line starts (or at the line's end), in the order the breaks are applied;
/// returns `None`, breaking no line, when one does not.
pub fn try_break_lines_once(
    lines: &mut Vec<String>,
    line_length: usize,
    indent: usize,
    tree: &SyntaxTree,
    ms: &Vec<WrapMatch>,
) -> (n: Option<usize>)
    requires
        tree.wf(),
        matches_fit(views(old(lines)@), indent, ms@, tree.nodes@.len()),
    ensures
        ({
            let before = views(old(lines)@);
            let planned = planned_breaks(before, line_length, indent, *tree, ms@);
            if long_lines_of(before, line_length as nat, before.len() as int).len() == 0 {
                n == Some(0usize) && final(lines)@ == old(lines)@
            } else {
                exists|order: Seq<usize>|
                    #[trigger] sorted_by_points(order, points_of(planned)) && match n {
                        Some(c) => c == planned.len() && all_split(before, ordered(planned, order))
                            && views(final(lines)@) == apply_reversed(before, ordered(planned, order)),
                        None => !all_split(before, ordered(planned, order)) && final(lines)@ == old(lines)@,
                    }
            }
        }),
{
    let ghost before = views(lines@);
    if long_lines(lines, line_length).len() == 0 {
        return Some(0);
    }
    let (breaks, order) = plan_breaks(lines, line_length, indent, tree, ms);
    let ghost planned = breaks@;
    let ghost sorted = ordered(planned, order@);
    assert(planned == planned_breaks(before, line_length, indent, *tree, ms@));
    // Test the breaks on the views of the lines, the last first, as they will be applied.
    let mut probe: Vec<String> = Vec::new();
    let mut i: usize = 0;
    while i < lines.len()
        invariant
            i <= lines@.len(),
            probe@.len() == i,
            views(probe@) =~= views(lines@).take(i as int),
        decreases lines@.len() - i,
    {
        let copy = string_of(chars_of(lines[i].as_str()).as_slice());
        let ghost cv = copy@;
        assert(cv == lines@[i as int]@);
        probe.push(copy);
        assert(probe@[i as int]@ == cv);
        assert(views(probe@) =~= views(lines@).take(i + 1));
        i = i + 1;
    }
    assert(views(lines@).take(i as int) =~= views(lines@));
    let mut k = order.len();
    assert(sorted.take(k as int) =~= sorted);
    while k > 0
        invariant
            k <= order@.len() == breaks@.len(),
            crate::order::is_permutation(order@, breaks@.len()),
            sorted == ordered(breaks@, order@),
            all_split(before, sorted) == all_split(views(probe@), sorted.take(k as int)),
            lines@ == old(lines)@,
            before == views(old(lines)@),
            planned == breaks@,
            planned == planned_breaks(before, line_length, indent, *tree, ms@),
            sorted_by_points(order@, points_of(planned)),
        decreases k,
    {
        assert(order@[k - 1] < breaks@.len());
        let b = breaks[order[k - 1]];
        assert(sorted.take(k as int).last() == b);
        assert(sorted.take(k as int).drop_last() =~= sorted.take(k - 1));
        if !can_split_exec(&probe, b) {
            assert(!all_split(views(probe@), sorted.take(k as int)));
            assert(sorted_by_points(order@, points_of(planned)));
            return None;
        }
        split_at_break(&mut probe, b);
        k = k - 1;
    }
    assert(sorted.take(0) =~= Seq::<Break>::empty());
    assert(all_split(before, sorted));
    apply_breaks(lines, &breaks, &order);
    assert(sorted_by_points(order@, points_of(planned)));
    Some(breaks.len())
}

} // verus!
