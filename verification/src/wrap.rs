//! Wrapping long lines: the tree and wrap query matches that a pass reads, and the passes that
//! break lines until none is left to break.
use vstd::prelude::*;
use crate::formatter::{
    all_split, apply_reversed, can_split, long_lines_of, matches_fit, ordered, planned_breaks, points_of, split_line,
    try_break_lines_once, views, Break, Point, SyntaxTree, TreeNode, WrapMatch,
};
use crate::order::sorted_by_points;
use crate::syntax::{
    children_in, depths_ok, fortran_nodes, parse_nodes, raw_view, raw_views, tree_shape, RawNode, RawNodeView,
};
use crate::text::{chars_of, string_of, utf8_len};
use tree_sitter::StreamingIterator;

verus! {

/// A node that a match of a query captured: the capture's index, and the node's first byte,
/// the byte after it and its kind.
#[derive(Debug, Clone)]
pub struct RawCapture {
    pub index: u32,
    pub start: usize,
    pub end: usize,
    pub kind: String,
}

/// A match of a query: its pattern and its captures.
#[derive(Debug, Clone)]
pub struct RawMatch {
    pub pattern_index: usize,
    pub captures: Vec<RawCapture>,
}

/// A capture as plain values: index, first byte, byte after it, kind.
pub type CaptureView = (u32, usize, usize, Seq<char>);

/// A match as plain values: pattern and captures.
pub type MatchView = (usize, Seq<CaptureView>);

/// The capture `c` as plain values.
pub open spec fn capture_view(c: RawCapture) -> CaptureView {
    (c.index, c.start, c.end, c.kind@)
}

/// The match `m` as plain values.
pub open spec fn match_view(m: RawMatch) -> MatchView {
    (m.pattern_index, Seq::new(m.captures@.len(), |k: int| capture_view(m.captures@[k])))
}

/// The matches `ms` as plain values.
pub open spec fn match_views(ms: Seq<RawMatch>) -> Seq<MatchView> {
    Seq::new(ms.len(), |i: int| match_view(ms[i]))
}

/// The indices of the captures `root` and `brk` of the query `query` over tree-sitter's Fortran
/// grammar, or the text of the error that building it gives.
pub uninterp spec fn query_captures(query: Seq<char>, root: Seq<char>, brk: Seq<char>) -> Result<(Option<u32>, Option<u32>), Seq<char>>;

/// The matches, in the order the query cursor gives them, of the query `query` in the tree that
/// tree-sitter's Fortran grammar parses from `text`; `None` when there is no tree or no query.
pub uninterp spec fn query_matches_of(query: Seq<char>, text: Seq<char>) -> Option<Seq<MatchView>>;

/// Builds the query `query` over tree-sitter's Fortran grammar (`Query::new`) and returns the
/// indices of its captures named `root` and `brk` (`Query::capture_index_for_name`), or the text
/// of the error. A named result: it depends on its arguments alone.
#[verifier::external_body]
fn capture_indices(query: &str, root: &str, brk: &str) -> (r: Result<(Option<u32>, Option<u32>), String>)
    ensures
        match r {
            Ok(ixs) => query_captures(query@, root@, brk@) == Ok::<(Option<u32>, Option<u32>), Seq<char>>(ixs),
            Err(e) => query_captures(query@, root@, brk@) == Err::<(Option<u32>, Option<u32>), Seq<char>>(e@),
        },
{
    let query = tree_sitter::Query::new(&tree_sitter_fortran::LANGUAGE.into(), query).map_err(|e| e.to_string())?;
    Ok((query.capture_index_for_name(root), query.capture_index_for_name(brk)))
}

/// Parses `text` with tree-sitter's Fortran grammar, builds the query `query` over it, and
/// returns the matches of the query in the tree (`QueryCursor::matches`, over the same text),
/// each with its pattern and, for each capture, its index and the node's bytes and kind. A named
/// result: it depends on its arguments alone.
#[verifier::external_body]
fn query_matches(query: &str, text: &str) -> (r: Option<Vec<RawMatch>>)
    ensures
        match r {
            Some(ms) => query_matches_of(query@, text@) == Some(match_views(ms@)),
            None => query_matches_of(query@, text@) is None,
        },
{
    let mut parser = tree_sitter::Parser::new();
    parser.set_language(&tree_sitter_fortran::LANGUAGE.into()).ok()?;
    let tree = parser.parse(text, None)?;
    let query = tree_sitter::Query::new(&tree_sitter_fortran::LANGUAGE.into(), query).ok()?;
    let mut cursor = tree_sitter::QueryCursor::new();
    let found = cursor.matches(&query, tree.root_node(), text.as_bytes());
    Some(found.map_deref(|m| RawMatch {
        pattern_index: m.pattern_index,
        captures: m.captures().iter().map(|c| RawCapture {
            index: c.index, start: c.node.start_byte(), end: c.node.end_byte(), kind: c.node.kind().to_string(),
        }).collect(),
    }).collect())
}

/// The lines `lines`, each followed by a line feed.
pub open spec fn wrap_text(lines: Seq<Seq<char>>) -> Seq<char>
    decreases lines.len(),
{
    if lines.len() == 0 {
        Seq::empty()
    } else {
        wrap_text(lines.drop_last()) + lines.last() + "\n"@
    }
}

/// The first listed node, from the `i`-th on, with the bytes and kind of the capture `c`.
pub open spec fn node_of(rs: Seq<RawNodeView>, c: CaptureView, i: int) -> Option<int>
    decreases rs.len() - i,
{
    if i < 0 || i >= rs.len() {
        None
    } else if rs[i].1 == c.1 && rs[i].2 == c.2 && rs[i].0 == c.3 {
        Some(i)
    } else {
        node_of(rs, c, i + 1)
    }
}

/// The place to break after the listed node `i`: where it ends, and the row on which it starts.
pub open spec fn break_place(rs: Seq<RawNodeView>, i: int) -> (Point, usize) {
    (Point { row: rs[i].4, column: rs[i].9 }, rs[i].3)
}

/// The root capture and the places to break of the first `k` captures `cs` of a match.
pub open spec fn scan(rs: Seq<RawNodeView>, ir: u32, ib: u32, cs: Seq<CaptureView>, k: int) -> Result<
    (Option<CaptureView>, Seq<(Point, usize)>),
    Seq<char>,
>
    decreases k,
{
    if k <= 0 {
        Ok((None, Seq::empty()))
    } else {
        match scan(rs, ir, ib, cs, k - 1) {
            Err(e) => Err(e),
            Ok((root, bs)) => {
                let c = cs[k - 1];
                if c.0 == ir {
                    if root is Some {
                        Err("a match has more than one root"@)
                    } else {
                        Ok((Some(c), bs))
                    }
                } else if c.0 == ib {
                    match node_of(rs, c, 0) {
                        Some(i) => Ok((root, bs.push(break_place(rs, i)))),
                        None => Err("a match's place to break is not in the tree"@),
                    }
                } else {
                    Ok((root, bs))
                }
            },
        }
    }
}

/// The match `m` as the formatter reads it: its pattern, the position of its root, and its
/// places to break; or why it cannot be read.
pub open spec fn match_result(rs: Seq<RawNodeView>, ir: u32, ib: u32, m: MatchView) -> Result<
    (usize, usize, Seq<(Point, usize)>),
    Seq<char>,
> {
    match scan(rs, ir, ib, m.1, m.1.len() as int) {
        Err(e) => Err(e),
        Ok((None, _)) => Err("a match has no root"@),
        Ok((Some(c), bs)) => match node_of(rs, c, 0) {
            None => Err("a match's root is not in the tree"@),
            Some(i) => if bs.len() == 0 {
                Err("a match has no place to break"@)
            } else {
                Ok((m.0, i as usize, bs))
            },
        },
    }
}

/// The first `n` matches `ms` as the formatter reads them, or the first reason one cannot be.
pub open spec fn match_results(rs: Seq<RawNodeView>, ir: u32, ib: u32, ms: Seq<MatchView>, n: int) -> Result<
    Seq<(usize, usize, Seq<(Point, usize)>)>,
    Seq<char>,
>
    decreases n,
{
    if n <= 0 {
        Ok(Seq::empty())
    } else {
        match match_results(rs, ir, ib, ms, n - 1) {
            Err(e) => Err(e),
            Ok(done) => match match_result(rs, ir, ib, ms[n - 1]) {
                Err(e) => Err(e),
                Ok(m) => Ok(done.push(m)),
            },
        }
    }
}

/// The tree of the listed nodes `rs` as the formatter searches it: each node's rows and children.
pub open spec fn tree_views(rs: Seq<RawNodeView>) -> Seq<(usize, usize, Seq<usize>)> {
    Seq::new(rs.len(), |i: int| (rs[i].3, rs[i].4, children_in(rs, i, rs.len() as int)))
}

/// The tree `t` as plain values.
pub open spec fn tree_view(t: SyntaxTree) -> Seq<(usize, usize, Seq<usize>)> {
    Seq::new(t.nodes@.len(), |i: int| (t.nodes@[i].start_row, t.nodes@[i].end_row, t.nodes@[i].children@))
}

/// The matches `ms` as plain values.
pub open spec fn wrap_views(ms: Seq<WrapMatch>) -> Seq<(usize, usize, Seq<(Point, usize)>)> {
    Seq::new(ms.len(), |i: int| (ms[i].pattern_index, ms[i].root, ms[i].break_after@))
}

/// What a pass over the lines `lines` reads with the wrap query `query` (see [`wrap_input`]).
pub open spec fn wrap_spec(lines: Seq<Seq<char>>, query: Seq<char>) -> Result<
    (Seq<(usize, usize, Seq<usize>)>, Seq<(usize, usize, Seq<(Point, usize)>)>),
    Seq<char>,
> {
    let text = wrap_text(lines);
    match query_captures(query, "root"@, "break-after"@) {
        Err(e) => Err(e),
        Ok((None, _)) => Err("the query has no `root` capture"@),
        Ok((Some(_), None)) => Err("the query has no `break-after` capture"@),
        Ok((Some(ir), Some(ib))) => match fortran_nodes(text) {
            None => Err("the text could not be parsed"@),
            Some((rs, _)) => if !depths_ok(rs) {
                Err("the tree's depths do not describe a tree"@)
            } else {
                match query_matches_of(query, text) {
                    None => Err("the text could not be parsed"@),
                    Some(ms) => match match_results(rs, ir, ib, ms, ms.len() as int) {
                        Err(e) => Err(e),
                        Ok(mv) => Ok((tree_views(rs), mv)),
                    },
                }
            },
        },
    }
}

fn join_lines(lines: &Vec<String>) -> (s: String)
    ensures
        s@ == wrap_text(views(lines@)),
{
    let mut out: Vec<char> = Vec::new();
    let mut i: usize = 0;
    while i < lines.len()
        invariant
            i <= lines@.len(),
            out@ == wrap_text(views(lines@).take(i as int)),
        decreases lines@.len() - i,
    {
        let cs = chars_of(lines[i].as_str());
        crate::text::push_all(&mut out, cs.as_slice());
        out.push('\n');
        proof {
            assert(views(lines@).take(i + 1).drop_last() =~= views(lines@).take(i as int));
            assert(views(lines@)[i as int] == lines@[i as int]@);
            reveal_strlit("\n");
            assert(out@ =~= wrap_text(views(lines@).take(i + 1)));
        }
        i = i + 1;
    }
    assert(views(lines@).take(i as int) =~= views(lines@));
    string_of(out.as_slice())
}

fn find_node(raw: &Vec<RawNode>, c: &RawCapture) -> (p: Option<usize>)
    ensures
        match p {
            Some(k) => node_of(raw_views(raw@), capture_view(*c), 0) == Some(k as int),
            None => node_of(raw_views(raw@), capture_view(*c), 0) is None,
        },
{
    let ghost rs = raw_views(raw@);
    let mut k: usize = 0;
    while k < raw.len()
        invariant
            k <= raw@.len(),
            rs == raw_views(raw@),
            node_of(rs, capture_view(*c), 0) == node_of(rs, capture_view(*c), k as int),
        decreases raw@.len() - k,
    {
        assert(rs[k as int] == raw_view(raw@[k as int]));
        if raw[k].1 == c.start && raw[k].2 == c.end && crate::text::str_eq(raw[k].0.as_str(), c.kind.as_str()) {
            return Some(k);
        }
        k = k + 1;
    }
    None
}

fn read_match(raw: &Vec<RawNode>, ir: u32, ib: u32, m: &RawMatch) -> (r: Result<WrapMatch, String>)
    ensures
        match r {
            Ok(w) => match_result(raw_views(raw@), ir, ib, match_view(*m)) == Ok::<(usize, usize, Seq<(Point, usize)>), Seq<char>>(
                (w.pattern_index, w.root, w.break_after@),
            ),
            Err(e) => match_result(raw_views(raw@), ir, ib, match_view(*m)) == Err::<(usize, usize, Seq<(Point, usize)>), Seq<char>>(e@),
        },
{
    let ghost rs = raw_views(raw@);
    let ghost cs = match_view(*m).1;
    let mut root: Option<usize> = None;
    let mut break_after: Vec<(Point, usize)> = Vec::new();
    let mut c: usize = 0;
    while c < m.captures.len()
        invariant
            c <= m.captures@.len(),
            rs == raw_views(raw@),
            cs == match_view(*m).1,
            cs.len() == m.captures@.len(),
            scan(rs, ir, ib, cs, c as int) matches Ok((rc, bs)) && bs == break_after@ && match root {
                Some(k) => rc matches Some(x) && x == cs[k as int] && k < c,
                None => rc is None,
            },
        decreases m.captures@.len() - c,
    {
        let capture = &m.captures[c];
        assert(cs[c as int] == capture_view(*capture));
        if capture.index == ir {
            if root.is_some() {
                proof {
                    lemma_scan_err(rs, ir, ib, cs, c + 1, cs.len() as int);
                }
                return Err("a match has more than one root".to_string());
            }
            root = Some(c);
        } else if capture.index == ib {
            match find_node(raw, capture) {
                Some(k) => {
                    proof {
                        lemma_node_of(rs, capture_view(*capture), 0);
                    }
                    assert(rs[k as int] == raw_view(raw@[k as int]));
                    break_after.push((Point { row: raw[k].4, column: raw[k].9 }, raw[k].3));
                },
                None => {
                    proof {
                        lemma_scan_err(rs, ir, ib, cs, c + 1, cs.len() as int);
                    }
                    return Err("a match's place to break is not in the tree".to_string());
                },
            }
        }
        c = c + 1;
    }
    let k = match root {
        Some(k) => k,
        None => {
            return Err("a match has no root".to_string());
        },
    };
    assert(cs[k as int] == capture_view(m.captures@[k as int]));
    let position = match find_node(raw, &m.captures[k]) {
        Some(p) => p,
        None => {
            return Err("a match's root is not in the tree".to_string());
        },
    };
    if break_after.len() == 0 {
        return Err("a match has no place to break".to_string());
    }
    Ok(WrapMatch { pattern_index: m.pattern_index, root: position, break_after })
}

/// Reads what a pass over the lines `lines` breaks with the wrap query `query`: the tree of the
/// lines, each followed by a line feed, as the formatter searches it (root first, each node with
/// its rows and children), and the matches of the query with the positions of their roots and
/// where they may break (see [`wrap_spec`]). An error, exactly as [`wrap_spec`] gives it, when
/// the query cannot be built or lacks the `root` or `break-after` capture, when the text cannot
/// be parsed, or when a match has no root, more than one, or a root or place to break outside
/// the tree, or no place to break.
pub fn wrap_input(lines: &Vec<String>, query: &str) -> (r: Result<(SyntaxTree, Vec<WrapMatch>), String>)
    ensures
        match r {
            Ok((tree, ms)) => {
                &&& tree.wf()
                &&& forall|i: int| 0 <= i < ms@.len() ==> (#[trigger] ms@[i]).root < tree.nodes@.len() && ms@[i].break_after@.len() > 0
                &&& wrap_spec(views(lines@), query@) == Ok::<
                    (Seq<(usize, usize, Seq<usize>)>, Seq<(usize, usize, Seq<(Point, usize)>)>),
                    Seq<char>,
                >((tree_view(tree), wrap_views(ms@)))
            },
            Err(e) => wrap_spec(views(lines@), query@) == Err::<
                (Seq<(usize, usize, Seq<usize>)>, Seq<(usize, usize, Seq<(Point, usize)>)>),
                Seq<char>,
            >(e@),
        },
{
    let (ir, ib) = match capture_indices(query, "root", "break-after") {
        Ok((Some(ir), Some(ib))) => (ir, ib),
        Ok((None, _)) => {
            return Err("the query has no `root` capture".to_string());
        },
        Ok((Some(_), None)) => {
            return Err("the query has no `break-after` capture".to_string());
        },
        Err(e) => {
            return Err(e);
        },
    };
    let text = join_lines(lines);
    let (raw, _) = match parse_nodes(text.as_str()) {
        Some(p) => p,
        None => {
            return Err("the text could not be parsed".to_string());
        },
    };
    let ghost rs = raw_views(raw@);
    let (_, mut cs) = match tree_shape(&raw) {
        Some(shape) => shape,
        None => {
            return Err("the tree's depths do not describe a tree".to_string());
        },
    };
    let found = match query_matches(query, text.as_str()) {
        Some(ms) => ms,
        None => {
            return Err("the text could not be parsed".to_string());
        },
    };
    let n = raw.len();
    let mut nodes: Vec<TreeNode> = Vec::new();
    let mut i: usize = 0;
    while i < n
        invariant
            n == raw@.len(),
            rs == raw_views(raw@),
            depths_ok(rs),
            cs@.len() == n,
            i <= n,
            nodes@.len() == i,
            forall|k: int| i <= k < n ==> (#[trigger] cs@[k])@ == children_in(rs, k, n as int),
            forall|k: int| 0 <= k < i ==> (#[trigger] nodes@[k].start_row, nodes@[k].end_row, nodes@[k].children@) == tree_views(rs)[k],
        decreases n - i,
    {
        assert(rs[i as int] == raw_view(raw@[i as int]));
        let mut children: Vec<usize> = Vec::new();
        cs.set_and_swap(i, &mut children);
        nodes.push(TreeNode { start_row: raw[i].3, end_row: raw[i].4, children });
        i = i + 1;
    }
    let tree = SyntaxTree { nodes };
    proof {
        assert(tree_view(tree) =~= tree_views(rs));
        assert forall|a: int, k: int|
            0 <= a < tree.nodes@.len() && 0 <= k < tree.nodes@[a].children@.len() implies a < (
            #[trigger] tree.nodes@[a].children@[k]) < tree.nodes@.len() by {
            assert(tree.nodes@[a].children@ == tree_views(rs)[a].2);
            crate::syntax::lemma_children_after(rs, a, n as int);
        }
    }
    let ghost mvs = match_views(found@);
    let mut ms: Vec<WrapMatch> = Vec::new();
    let mut j: usize = 0;
    assert(wrap_views(ms@) =~= Seq::<(usize, usize, Seq<(Point, usize)>)>::empty());
    while j < found.len()
        invariant
            j <= found@.len(),
            text@ == wrap_text(views(lines@)),
            query_captures(query@, "root"@, "break-after"@) == Ok::<(Option<u32>, Option<u32>), Seq<char>>((Some(ir), Some(ib))),
            fortran_nodes(text@) matches Some((x, _)) && x == rs,
            depths_ok(rs),
            query_matches_of(query@, text@) == Some(mvs),
            tree.wf(),
            tree_view(tree) == tree_views(rs),
            tree.nodes@.len() == n,
            rs == raw_views(raw@),
            n == raw@.len(),
            mvs == match_views(found@),
            match_results(rs, ir, ib, mvs, j as int) == Ok::<Seq<(usize, usize, Seq<(Point, usize)>)>, Seq<char>>(wrap_views(ms@)),
            forall|k: int| 0 <= k < ms@.len() ==> (#[trigger] ms@[k]).root < n && ms@[k].break_after@.len() > 0,
        decreases found@.len() - j,
    {
        assert(mvs[j as int] == match_view(found@[j as int]));
        match read_match(&raw, ir, ib, &found[j]) {
            Ok(w) => {
                proof {
                    lemma_match_root(rs, ir, ib, mvs[j as int]);
                }
                let ghost before = ms@;
                ms.push(w);
                assert(wrap_views(ms@) =~= wrap_views(before).push((w.pattern_index, w.root, w.break_after@)));
            },
            Err(e) => {
                proof {
                    lemma_results_err(rs, ir, ib, mvs, j + 1, mvs.len() as int);
                }
                return Err(e);
            },
        }
        j = j + 1;
    }
    assert(mvs.len() == found@.len());
    Ok((tree, ms))
}

proof fn lemma_scan_err(rs: Seq<RawNodeView>, ir: u32, ib: u32, cs: Seq<CaptureView>, k: int, n: int)
    requires
        0 <= k <= n,
        scan(rs, ir, ib, cs, k) is Err,
    ensures
        scan(rs, ir, ib, cs, n) == scan(rs, ir, ib, cs, k),
    decreases n - k,
{
    if k < n {
        lemma_scan_err(rs, ir, ib, cs, k, n - 1);
    }
}

proof fn lemma_results_err(rs: Seq<RawNodeView>, ir: u32, ib: u32, ms: Seq<MatchView>, k: int, n: int)
    requires
        0 <= k <= n,
        match_results(rs, ir, ib, ms, k) is Err,
    ensures
        match_results(rs, ir, ib, ms, n) == match_results(rs, ir, ib, ms, k),
    decreases n - k,
{
    if k < n {
        lemma_results_err(rs, ir, ib, ms, k, n - 1);
    }
}

proof fn lemma_match_root(rs: Seq<RawNodeView>, ir: u32, ib: u32, m: MatchView)
    ensures
        match_result(rs, ir, ib, m) matches Ok((_, r, b)) ==> r < rs.len() && b.len() > 0,
{
    if let Ok((None, _)) = scan(rs, ir, ib, m.1, m.1.len() as int) {
    } else if let Ok((Some(c), _)) = scan(rs, ir, ib, m.1, m.1.len() as int) {
        lemma_node_of(rs, c, 0);
    }
}

proof fn lemma_node_of(rs: Seq<RawNodeView>, c: CaptureView, i: int)
    ensures
        node_of(rs, c, i) matches Some(k) ==> 0 <= k < rs.len(),
    decreases rs.len() - i,
{
    if 0 <= i < rs.len() && !(rs[i].1 == c.1 && rs[i].2 == c.2 && rs[i].0 == c.3) {
        lemma_node_of(rs, c, i + 1);
    }
}

fn utf8_len_checked(s: &str) -> (n: Option<usize>)
    ensures
        match n {
            Some(k) => k == utf8_len(s@),
            None => utf8_len(s@) > usize::MAX,
        },
{
    let cs = chars_of(s);
    let mut sum: usize = 0;
    let mut i: usize = 0;
    assert(cs@.take(0) =~= Seq::<char>::empty());
    while i < cs.len()
        invariant
            i <= cs@.len(),
            cs@ == s@,
            sum == utf8_len(cs@.take(i as int)),
        decreases cs@.len() - i,
    {
        proof {
            crate::text::lemma_utf8_len_take_step_pub(cs@, i as int);
        }
        let w = crate::text::char_utf8_len(cs[i]);
        if sum > usize::MAX - w {
            proof {
                crate::text::lemma_utf8_len_concat(cs@.take(i + 1), cs@.skip(i + 1));
                assert(cs@.take(i + 1) + cs@.skip(i + 1) =~= cs@);
            }
            return None;
        }
        sum = sum + w;
        i = i + 1;
    }
    assert(cs@.take(i as int) =~= cs@);
    Some(sum)
}

/// Returns whether the matches `ms` fit `lines`, a tree of `n_nodes` nodes and the indent
/// `indent` (see [`matches_fit`]).
pub fn matches_fit_exec(lines: &Vec<String>, indent: usize, ms: &Vec<WrapMatch>, n_nodes: usize) -> (b: bool)
    ensures
        b == matches_fit(views(lines@), indent, ms@, n_nodes as nat),
{
    let mut r: usize = 0;
    while r < lines.len()
        invariant
            r <= lines@.len(),
            forall|q: int| 0 <= q < r ==> utf8_len(#[trigger] views(lines@)[q]) + indent <= usize::MAX,
        decreases lines@.len() - r,
    {
        assert(views(lines@)[r as int] == lines@[r as int]@);
        match utf8_len_checked(lines[r].as_str()) {
            Some(n) => {
                if n > usize::MAX - indent {
                    return false;
                }
            },
            None => {
                return false;
            },
        }
        r = r + 1;
    }
    let mut i: usize = 0;
    while i < ms.len()
        invariant
            i <= ms@.len(),
            forall|q: int| 0 <= q < lines@.len() ==> utf8_len(#[trigger] views(lines@)[q]) + indent <= usize::MAX,
            forall|a: int| 0 <= a < i ==> (#[trigger] ms@[a]).root < n_nodes && ms@[a].break_after@.len() > 0,
            forall|a: int, k: int|
                0 <= a < i && 0 <= k < ms@[a].break_after@.len() ==> (#[trigger] ms@[a].break_after@[k]).1 < lines@.len(),
            forall|a: int, c: int|
                0 <= a < i && 0 <= c < ms@.len() && (#[trigger] ms@[a]).root == (#[trigger] ms@[c]).root ==> ms@[a].pattern_index
                    == ms@[c].pattern_index,
        decreases ms@.len() - i,
    {
        let m = &ms[i];
        if m.root >= n_nodes || m.break_after.len() == 0 {
            return false;
        }
        let mut k: usize = 0;
        while k < m.break_after.len()
            invariant
                k <= m.break_after@.len(),
                i < ms@.len(),
                *m == ms@[i as int],
                forall|j: int| 0 <= j < k ==> (#[trigger] m.break_after@[j]).1 < lines@.len(),
            decreases m.break_after@.len() - k,
        {
            if m.break_after[k].1 >= lines.len() {
                assert(ms@[i as int].break_after@[k as int].1 >= views(lines@).len());
                return false;
            }
            k = k + 1;
        }
        let mut c: usize = 0;
        while c < ms.len()
            invariant
                c <= ms@.len(),
                i < ms@.len(),
                *m == ms@[i as int],
                forall|d: int| 0 <= d < c && ms@[i as int].root == (#[trigger] ms@[d]).root ==> ms@[i as int].pattern_index
                    == ms@[d].pattern_index,
            decreases ms@.len() - c,
        {
            if ms[c].root == m.root && ms[c].pattern_index != m.pattern_index {
                assert(ms@[i as int].root == ms@[c as int].root && ms@[i as int].pattern_index != ms@[c as int].pattern_index);
                return false;
            }
            c = c + 1;
        }
        i = i + 1;
    }
    true
}

/// Whether `r` is what one pass over `lines` with the tree `tree` and the matches `ms` of the
/// wrap query gives, then at most `k - 1` more passes after one that breaks something: an
/// error when the matches do not fit the lines or a planned break does not fit; the lines and
/// no break when no line is longer than `line_length` bytes; else the lines broken at the planned
/// breaks in stable order of row and column, the last first (see [`apply_reversed`]).
pub open spec fn pass_gives(
    lines: Seq<Seq<char>>,
    line_length: usize,
    indent: usize,
    query: Seq<char>,
    k: nat,
    tree: SyntaxTree,
    ms: Seq<WrapMatch>,
    r: Result<(Seq<Seq<char>>, usize), Seq<char>>,
) -> bool
    decreases k, 0nat,
{
    if !matches_fit(lines, indent, ms, tree.nodes@.len()) {
        r == Err::<(Seq<Seq<char>>, usize), Seq<char>>("the wrap query breaks lines at places that do not exist"@)
    } else if long_lines_of(lines, line_length as nat, lines.len() as int).len() == 0 {
        r == Ok::<(Seq<Seq<char>>, usize), Seq<char>>((lines, 0usize))
    } else {
        let planned = planned_breaks(lines, line_length, indent, tree, ms);
        exists|order: Seq<usize>|
            #[trigger] sorted_by_points(order, points_of(planned)) && if !all_split(lines, ordered(planned, order)) {
                r == Err::<(Seq<Seq<char>>, usize), Seq<char>>("a break falls inside a character or past its line"@)
            } else if planned.len() == 0 {
                r == Ok::<(Seq<Seq<char>>, usize), Seq<char>>((apply_reversed(lines, ordered(planned, order)), 0usize))
            } else {
                k > 0 && passes_give(
                    apply_reversed(lines, ordered(planned, order)),
                    planned.len() as usize,
                    line_length,
                    indent,
                    query,
                    (k - 1) as nat,
                    r,
                )
            }
    }
}

/// Whether `r` is what at most `k` more passes over `lines` give, the last pass having broken
/// `last` lines: with no pass left, the lines and `last`; else the error of reading the pass's
/// input (see [`wrap_spec`]), or what the pass gives with a tree and matches read as
/// [`wrap_spec`] gives them (see [`pass_gives`]).
pub open spec fn passes_give(
    lines: Seq<Seq<char>>,
    last: usize,
    line_length: usize,
    indent: usize,
    query: Seq<char>,
    k: nat,
    r: Result<(Seq<Seq<char>>, usize), Seq<char>>,
) -> bool
    decreases k, 1nat,
{
    if k == 0 {
        r == Ok::<(Seq<Seq<char>>, usize), Seq<char>>((lines, last))
    } else {
        match wrap_spec(lines, query) {
            Err(e) => r == Err::<(Seq<Seq<char>>, usize), Seq<char>>(e),
            Ok((tv, mv)) => exists|tree: SyntaxTree, ms: Seq<WrapMatch>|
                #![trigger tree_view(tree), wrap_views(ms)]
                tree_view(tree) == tv && wrap_views(ms) == mv && tree.wf() && pass_gives(
                    lines,
                    line_length,
                    indent,
                    query,
                    k,
                    tree,
                    ms,
                    r,
                ),
        }
    }
}

/// Breaks the long lines of `lines` in passes, each reading the tree and the matches of the
/// wrap query `query` afresh (see [`wrap_input`]) and breaking once (see
/// [`try_break_lines_once`]): at most nine passes, stopping after the first that breaks nothing.
/// Returns the number of breaks of the last pass; an error when a pass's input cannot be read,
/// its matches do not fit the lines (see [`matches_fit`]), or a planned break does not fall
/// where a character starts (see [`passes_give`]).
pub fn break_lines(lines: &mut Vec<String>, line_length: usize, indent: usize, query: &str) -> (r: Result<
    usize,
    String,
>)
    ensures
        passes_give(views(old(lines)@), 0, line_length, indent, query@, 9, match r {
            Ok(n) => Ok::<(Seq<Seq<char>>, usize), Seq<char>>((views(final(lines)@), n)),
            Err(e) => Err::<(Seq<Seq<char>>, usize), Seq<char>>(e@),
        }),
{
    let ghost start = views(lines@);
    let mut changed: usize = 0;
    let mut pass: usize = 1;
    while pass < 10
        invariant_except_break
            1 <= pass <= 10,
            start == views(old(lines)@),
            forall|res: Result<(Seq<Seq<char>>, usize), Seq<char>>|
                #[trigger] passes_give(views(lines@), changed, line_length, indent, query@, (10 - pass) as nat, res)
                    ==> passes_give(start, 0, line_length, indent, query@, 9, res),
            pass == 10 ==> passes_give(start, 0, line_length, indent, query@, 9, Ok::<(Seq<Seq<char>>, usize), Seq<char>>((views(lines@), changed))),
        ensures
            passes_give(start, 0, line_length, indent, query@, 9, Ok::<(Seq<Seq<char>>, usize), Seq<char>>((views(lines@), changed))),
        decreases 10 - pass,
    {
        let ghost cur = views(lines@);
        let ghost k = (10 - pass) as nat;
        let (tree, ms) = match wrap_input(lines, query) {
            Ok(input) => input,
            Err(e) => {
                assert(passes_give(cur, changed, line_length, indent, query@, k, Err::<(Seq<Seq<char>>, usize), Seq<char>>(e@)));
                assert(passes_give(start, 0, line_length, indent, query@, 9, Err::<(Seq<Seq<char>>, usize), Seq<char>>(e@)));
                return Err(e);
            },
        };
        if !matches_fit_exec(lines, indent, &ms, tree.nodes.len()) {
            let ghost res = Err::<(Seq<Seq<char>>, usize), Seq<char>>("the wrap query breaks lines at places that do not exist"@);
            assert(pass_gives(cur, line_length, indent, query@, k, tree, ms@, res));
            assert(passes_give(cur, changed, line_length, indent, query@, k, res));
            return Err("the wrap query breaks lines at places that do not exist".to_string());
        }
        let ghost planned = planned_breaks(cur, line_length, indent, tree, ms@);
        let ghost long = long_lines_of(cur, line_length as nat, cur.len() as int).len() != 0;
        let c = match try_break_lines_once(lines, line_length, indent, &tree, &ms) {
            Some(n) => n,
            None => {
                let ghost res = Err::<(Seq<Seq<char>>, usize), Seq<char>>("a break falls inside a character or past its line"@);
                assert(pass_gives(cur, line_length, indent, query@, k, tree, ms@, res));
                assert(passes_give(cur, changed, line_length, indent, query@, k, res));
                return Err("a break falls inside a character or past its line".to_string());
            },
        };
        if c == 0 {
            let ghost res = Ok::<(Seq<Seq<char>>, usize), Seq<char>>((views(lines@), 0usize));
            assert(pass_gives(cur, line_length, indent, query@, k, tree, ms@, res));
            assert(passes_give(cur, changed, line_length, indent, query@, k, res));
            changed = c;
            break;
        }
        proof {
            assert forall|res: Result<(Seq<Seq<char>>, usize), Seq<char>>|
                #[trigger] passes_give(views(lines@), c, line_length, indent, query@, (k - 1) as nat, res)
                    implies passes_give(start, 0, line_length, indent, query@, 9, res) by {
                assert(pass_gives(cur, line_length, indent, query@, k, tree, ms@, res));
                assert(passes_give(cur, changed, line_length, indent, query@, k, res));
            }
        }
        changed = c;
        pass = pass + 1;
        proof {
            if pass == 10 {
                assert(passes_give(views(lines@), changed, line_length, indent, query@, 0, Ok::<(Seq<Seq<char>>, usize), Seq<char>>((views(lines@), changed))));
            }
        }
    }
    Ok(changed)
}

} // verus!
