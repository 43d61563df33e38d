//! A Fortran syntax tree as plain values: its nodes in pre-order, each with its kind, byte
//! range, flags, parent and children, read from the nodes that tree-sitter lists.
use vstd::prelude::*;
use crate::edits::boundary;
use crate::range::TextRange;
use crate::text::utf8_len;

verus! {

/// A node of a syntax tree: its kind, its byte range, whether it is named or was inserted by
/// the parser in place of something missing, the field its parent holds it in, its children
/// and its parent (positions in the tree's node list).
#[derive(Debug, Clone)]
pub struct SyntaxNode {
    pub kind: String,
    pub range: TextRange,
    pub named: bool,
    pub missing: bool,
    pub field: Option<String>,
    pub children: Vec<usize>,
    pub parent: Option<usize>,
}

/// A syntax tree: its nodes in pre-order, the root first, and whether it holds a syntax error.
#[derive(Debug, Clone)]
pub struct SyntaxNodes {
    pub nodes: Vec<SyntaxNode>,
    pub has_error: bool,
}

/// Whether the range `r` lies within `text` at character boundaries.
pub open spec fn range_in(text: Seq<char>, r: TextRange) -> bool {
    &&& r.start <= r.end <= utf8_len(text)
    &&& boundary(text, r.start as int)
    &&& boundary(text, r.end as int)
}

impl SyntaxNodes {
    /// The tree is well formed over `text`: every node lies within the text at character
    /// boundaries, every child comes after its node in the list, and every parent before it.
    pub open spec fn wf(&self, text: Seq<char>) -> bool {
        &&& forall|i: int| 0 <= i < self.nodes@.len() ==> range_in(text, #[trigger] self.nodes@[i].range)
        &&& forall|i: int, j: int|
            0 <= i < self.nodes@.len() && 0 <= j < self.nodes@[i].children@.len() ==> i < #[trigger] self.nodes@[i].children@[j]
                < self.nodes@.len()
        &&& forall|i: int|
            0 <= i < self.nodes@.len() ==> (#[trigger] self.nodes@[i].parent matches Some(p) ==> p < i)
    }
}

/// A node as tree-sitter lists it in pre-order: its kind, its first byte and the byte after it,
/// the rows on which it starts and ends, whether it is named or was inserted in place of
/// something missing, its depth below the root, the field its parent holds it in, and the column
/// at which it ends.
#[derive(Debug, Clone)]
pub struct RawNode(
    pub String,
    pub usize,
    pub usize,
    pub usize,
    pub usize,
    pub bool,
    pub bool,
    pub u32,
    pub Option<String>,
    pub usize,
);

/// A listed node as plain values: kind, first byte, byte after it, start row, end row, named,
/// missing, depth, field and end column.
pub type RawNodeView = (Seq<char>, usize, usize, usize, usize, bool, bool, u32, Option<Seq<char>>, usize);

/// A listed node as plain values (see [`RawNodeView`]).
pub open spec fn raw_view(n: RawNode) -> RawNodeView {
    (n.0@, n.1, n.2, n.3, n.4, n.5, n.6, n.7, match n.8 {
        Some(f) => Some(f@),
        None => None,
    }, n.9)
}

/// The listed nodes `ns` as plain values.
pub open spec fn raw_views(ns: Seq<RawNode>) -> Seq<RawNodeView> {
    Seq::new(ns.len(), |i: int| raw_view(ns[i]))
}

/// The nodes, in pre-order, of the tree that tree-sitter's Fortran grammar parses from `text`,
/// as plain values (see [`raw_view`]), and whether the tree holds a syntax error; `None` when
/// tree-sitter gives no tree.
pub uninterp spec fn fortran_nodes(text: Seq<char>) -> Option<(
    Seq<RawNodeView>,
    bool,
)>;

/// Parses `text` with tree-sitter's Fortran grammar (`Parser::new`, `set_language`, `parse`, no
/// timeout) and lists the tree's nodes in pre-order (`Node::descendant_count`,
/// `TreeCursor::goto_descendant`), each with its kind, bytes, rows, flags, depth, field and end
/// column, with whether the root holds an error (`Node::has_error`). A named result: it depends
/// on the text alone.
#[verifier::external_body]
pub(crate) fn parse_nodes(text: &str) -> (r: Option<(Vec<RawNode>, bool)>)
    ensures
        match r {
            Some((ns, e)) => fortran_nodes(text@) == Some((raw_views(ns@), e)),
            None => fortran_nodes(text@) is None,
        },
{
    let mut parser = tree_sitter::Parser::new();
    parser.set_language(&tree_sitter_fortran::LANGUAGE.into()).ok()?;
    let tree = parser.parse(text, None)?;
    let mut cursor = tree.walk();
    let nodes = (0..tree.root_node().descendant_count()).map(|i| {
        cursor.goto_descendant(i);
        let n = cursor.node();
        RawNode(n.kind().to_string(), n.start_byte(), n.end_byte(), n.start_position().row, n.end_position().row,
            n.is_named(), n.is_missing(), cursor.depth(), cursor.field_name().map(str::to_string), n.end_position().column)
    }).collect();
    Some((nodes, tree.root_node().has_error()))
}

/// Whether the depths of the listed nodes `rs` describe a tree in pre-order: the first node is
/// the root, at depth zero, and every other node lies at most one level below the node before
/// it, and below the root.
pub open spec fn depths_ok(rs: Seq<RawNodeView>) -> bool {
    &&& rs.len() > 0
    &&& rs[0].7 == 0
    &&& forall|i: int| 0 < i < rs.len() ==> 1 <= #[trigger] rs[i].7 <= rs[i - 1].7 + 1
}

/// The last of the first `n` listed nodes at depth `d`.
pub open spec fn latest_at(
    rs: Seq<RawNodeView>,
    n: int,
    d: u32,
) -> Option<int>
    decreases n,
{
    if n <= 0 {
        None
    } else if rs[n - 1].7 == d {
        Some(n - 1)
    } else {
        latest_at(rs, n - 1, d)
    }
}

/// The parent of the listed node `i`: the last node before it one level up.
pub open spec fn parent_in(rs: Seq<RawNodeView>, i: int) -> Option<int> {
    if rs[i].7 == 0 {
        None
    } else {
        latest_at(rs, i, (rs[i].7 - 1) as u32)
    }
}

/// The children of the listed node `p` among the first `n` nodes, in order.
pub open spec fn children_in(
    rs: Seq<RawNodeView>,
    p: int,
    n: int,
) -> Seq<usize>
    decreases n,
{
    if n <= 0 {
        Seq::empty()
    } else if parent_in(rs, n - 1) == Some(p) {
        children_in(rs, p, n - 1).push((n - 1) as usize)
    } else {
        children_in(rs, p, n - 1)
    }
}

/// Whether the bytes `start` to `end` lie within `text` at character boundaries.
pub open spec fn bytes_fit(text: Seq<char>, start: usize, end: usize) -> bool {
    &&& start <= end <= utf8_len(text)
    &&& boundary(text, start as int)
    &&& boundary(text, end as int)
}

/// Whether every listed node of `rs` lies within `text` at character boundaries.
pub open spec fn ranges_fit(text: Seq<char>, rs: Seq<RawNodeView>) -> bool {
    forall|i: int| 0 <= i < rs.len() ==> bytes_fit(text, #[trigger] rs[i].1, rs[i].2)
}

/// Whether the node `n` is the listed node `i` of `rs`: the same kind, range, flags and field,
/// with its parent and children as the depths give them.
pub open spec fn node_is(rs: Seq<RawNodeView>, i: int, n: SyntaxNode) -> bool {
    &&& n.kind@ == rs[i].0
    &&& n.range.start == rs[i].1
    &&& n.range.end == rs[i].2
    &&& n.named == rs[i].5
    &&& n.missing == rs[i].6
    &&& (match n.field {
        Some(f) => Some(f@),
        None => None,
    }) == rs[i].8
    &&& (match n.parent {
        Some(p) => Some(p as int),
        None => None,
    }) == parent_in(rs, i)
    &&& n.children@ == children_in(rs, i, rs.len() as int)
}

proof fn lemma_latest_below(
    rs: Seq<RawNodeView>,
    n: int,
    d: u32,
)
    ensures
        latest_at(rs, n, d) matches Some(x) ==> 0 <= x < n && rs[x].7 == d,
    decreases n,
{
    if n > 0 && rs[n - 1].7 != d {
        lemma_latest_below(rs, n - 1, d);
    }
}

pub(crate) proof fn lemma_children_after(
    rs: Seq<RawNodeView>,
    p: int,
    n: int,
)
    requires
        n <= usize::MAX,
    ensures
        forall|k: int| 0 <= k < children_in(rs, p, n).len() ==> parent_in(rs, #[trigger] children_in(rs, p, n)[k] as int)
            == Some(p) && p < children_in(rs, p, n)[k] < n,
    decreases n,
{
    if n > 0 {
        lemma_children_after(rs, p, n - 1);
        if parent_in(rs, n - 1) == Some(p) {
            if rs[n - 1].7 != 0 {
                lemma_latest_below(rs, n - 1, (rs[n - 1].7 - 1) as u32);
            }
            let c = children_in(rs, p, n - 1);
            assert forall|k: int| 0 <= k < children_in(rs, p, n).len() implies parent_in(
                rs,
                #[trigger] children_in(rs, p, n)[k] as int,
            ) == Some(p) && p < children_in(rs, p, n)[k] < n by {
                if k < c.len() {
                    assert(children_in(rs, p, n)[k] == c[k]);
                } else {
                    assert(children_in(rs, p, n)[k] == (n - 1) as usize);
                }
            }
        }
    }
}

/// The byte range `start` to `end` of `text`, when it lies within it at character boundaries.
fn checked_range(text: &[char], total: u32, start: usize, end: usize) -> (r: Option<TextRange>)
    requires
        total == utf8_len(text@),
    ensures
        r is Some <==> bytes_fit(text@, start, end),
        r matches Some(rg) ==> range_in(text@, rg) && rg.start == start && rg.end == end,
{
    if start > end || end > total as usize {
        return None;
    }
    let a = crate::text::char_pos_of_byte(text, start);
    let b = crate::text::char_pos_of_byte(text, end);
    match (a, b) {
        (Some(p), Some(q)) => {
            let r = TextRange { start: start as u32, end: end as u32 };
            assert(crate::text::at_byte(text@, p as int, r.start as int));
            assert(crate::text::at_byte(text@, q as int, r.end as int));
            Some(r)
        },
        _ => None,
    }
}

/// Returns the parent and the children of each of the listed nodes `raw`, as their depths give
/// them (see [`parent_in`] and [`children_in`]); `None` exactly when the depths do not describe
/// a tree (see [`depths_ok`]).
pub fn tree_shape(raw: &Vec<RawNode>) -> (r: Option<(Vec<Option<usize>>, Vec<Vec<usize>>)>)
    ensures
        r is Some <==> depths_ok(raw_views(raw@)),
        r matches Some((ps, cs)) ==> {
            let rs = raw_views(raw@);
            &&& ps@.len() == rs.len()
            &&& cs@.len() == rs.len()
            &&& forall|i: int|
                0 <= i < rs.len() ==> (match #[trigger] ps@[i] {
                    Some(p) => Some(p as int),
                    None => None,
                }) == parent_in(rs, i)
            &&& forall|i: int| 0 <= i < rs.len() ==> (#[trigger] cs@[i])@ == children_in(rs, i, rs.len() as int)
        },
{
    let ghost rs = raw_views(raw@);
    let n = raw.len();
    if n == 0 || raw[0].7 != 0 {
        proof {
            if n > 0 {
                assert(rs[0] == raw_view(raw@[0]));
            }
        }
        return None;
    }
    assert(rs[0] == raw_view(raw@[0]));
    let mut ps: Vec<Option<usize>> = Vec::new();
    let mut cs: Vec<Vec<usize>> = Vec::new();
    let mut stack: Vec<usize> = Vec::new();
    let mut j: usize = 0;
    while j < n
        invariant
            n == raw@.len(),
            rs == raw_views(raw@),
            n > 0,
            rs[0].7 == 0,
            j <= n,
            ps@.len() == j,
            cs@.len() == j,
            forall|i: int| 0 < i < j ==> 1 <= #[trigger] rs[i].7 <= rs[i - 1].7 + 1,
            j > 0 ==> stack@.len() == rs[j - 1].7 + 1,
            j == 0 ==> stack@.len() == 0,
            forall|k: int| 0 <= k < stack@.len() ==> latest_at(rs, j as int, k as u32) == Some(#[trigger] stack@[k] as int),
            forall|i: int|
                0 <= i < j ==> (match #[trigger] ps@[i] {
                    Some(p) => Some(p as int),
                    None => None,
                }) == parent_in(rs, i),
            forall|i: int| 0 <= i < j ==> (#[trigger] cs@[i])@ == children_in(rs, i, j as int),
        decreases n - j,
    {
        assert(raw_view(raw@[j as int]) == rs[j as int]);
        let d = raw[j].7 as usize;
        if j > 0 && (d == 0 || d > stack.len()) {
            assert(!(1 <= rs[j as int].7 <= rs[j - 1].7 + 1));
            return None;
        }
        let parent = if j == 0 {
            None
        } else {
            Some(stack[d - 1])
        };
        proof {
            if j > 0 {
                assert(parent_in(rs, j as int) == latest_at(rs, j as int, (d - 1) as u32));
                lemma_latest_below(rs, j as int, (d - 1) as u32);
            }
        }
        let ghost before = cs@;
        ps.push(parent);
        cs.push(Vec::new());
        if let Some(p) = parent {
            cs[p].push(j);
        }
        proof {
            assert forall|i: int| 0 <= i <= j implies (#[trigger] cs@[i])@ == children_in(rs, i, j + 1) by {
                if i < j {
                    if parent != Some(i as usize) {
                        assert(cs@[i] == before[i]);
                    }
                } else {
                    lemma_children_after(rs, j as int, j as int);
                    if children_in(rs, j as int, j as int).len() > 0 {
                        assert(children_in(rs, j as int, j as int)[0] < j);
                    }
                    assert(children_in(rs, j as int, j as int) =~= Seq::<usize>::empty());
                }
            }
        }
        stack.truncate(d);
        stack.push(j);
        proof {
            assert forall|k: int| 0 <= k < stack@.len() implies latest_at(rs, j + 1, k as u32) == Some(
                #[trigger] stack@[k] as int,
            ) by {
                if k < d {
                    assert(latest_at(rs, j + 1, k as u32) == latest_at(rs, j as int, k as u32));
                }
            }
        }
        j = j + 1;
    }
    Some((ps, cs))
}

fn make_node(
    r: &RawNode,
    range: TextRange,
    parent: Option<usize>,
    children: Vec<usize>,
    rs: Ghost<Seq<RawNodeView>>,
    i: Ghost<int>,
) -> (n: SyntaxNode)
    requires
        0 <= i@ < rs@.len(),
        rs@[i@] == raw_view(*r),
        range.start == r.1,
        range.end == r.2,
        (match parent {
            Some(p) => Some(p as int),
            None => None,
        }) == parent_in(rs@, i@),
        children@ == children_in(rs@, i@, rs@.len() as int),
    ensures
        node_is(rs@, i@, n),
        n.range == range,
{
    let field = match &r.8 {
        Some(f) => Some(copy_string(f)),
        None => None,
    };
    SyntaxNode { kind: copy_string(&r.0), range, named: r.5, missing: r.6, field, children, parent }
}

fn copy_string(s: &String) -> (r: String)
    ensures
        r@ == s@,
{
    crate::text::string_of(crate::text::chars_of(s.as_str()).as_slice())
}

/// Whether `n` is the syntax tree of `text`: the nodes that tree-sitter lists (see
/// [`fortran_nodes`]), each with its parent and children (see [`node_is`]), well formed over
/// the text.
pub open spec fn parsed_as(text: Seq<char>, n: SyntaxNodes) -> bool {
    &&& fortran_nodes(text) is Some
    &&& n.wf(text)
    &&& n.nodes@.len() == fortran_nodes(text).unwrap().0.len()
    &&& n.has_error == fortran_nodes(text).unwrap().1
    &&& forall|i: int| 0 <= i < n.nodes@.len() ==> node_is(fortran_nodes(text).unwrap().0, i, #[trigger] n.nodes@[i])
}

/// Parses the text of `file` as Fortran and returns its syntax tree as plain values: the nodes
/// that tree-sitter lists (see [`fortran_nodes`]), in pre-order, each with its parent and
/// children as their depths give them (see [`node_is`]). `None` exactly when tree-sitter gives
/// no tree, when the depths do not describe a tree, or when a node does not lie within the text
/// at character boundaries.
#[verifier::rlimit(50)]
pub fn parse_fortran(file: &crate::source::SourceFile) -> (t: Option<SyntaxNodes>)
    requires
        file.wf(),
    ensures
        t is Some <==> (fortran_nodes(file.text@) matches Some((rs, e)) && depths_ok(rs) && ranges_fit(file.text@, rs)),
        t matches Some(n) ==> parsed_as(file.text@, n),
{
    let total = file.index.len_exec();
    let source = crate::text::string_of(file.text.as_slice());
    let (raw, has_error) = match parse_nodes(source.as_str()) {
        Some(p) => p,
        None => {
            return None;
        },
    };
    let ghost rs = raw_views(raw@);
    let (ps, mut cs) = match tree_shape(&raw) {
        Some(shape) => shape,
        None => {
            return None;
        },
    };
    let n = raw.len();
    let mut nodes: Vec<SyntaxNode> = Vec::new();
    let mut i: usize = 0;
    while i < n
        invariant
            n == raw@.len(),
            rs == raw_views(raw@),
            fortran_nodes(file.text@) == Some((rs, has_error)),
            depths_ok(rs),
            total == utf8_len(file.text@),
            i <= n,
            nodes@.len() == i,
            ps@.len() == n,
            cs@.len() == n,
            forall|k: int| 0 <= k < n ==> (match #[trigger] ps@[k] {
                Some(p) => Some(p as int),
                None => None,
            }) == parent_in(rs, k),
            forall|k: int| i <= k < n ==> (#[trigger] cs@[k])@ == children_in(rs, k, n as int),
            forall|k: int| 0 <= k < i ==> bytes_fit(file.text@, #[trigger] rs[k].1, rs[k].2),
            forall|k: int| 0 <= k < i ==> range_in(file.text@, #[trigger] nodes@[k].range),
            forall|k: int| 0 <= k < i ==> node_is(rs, k, #[trigger] nodes@[k]),
        decreases n - i,
    {
        let r = &raw[i];
        assert(raw_view(*r) == rs[i as int]);
        let range = match checked_range(file.text.as_slice(), total, r.1, r.2) {
            Some(rg) => rg,
            None => {
                assert(!bytes_fit(file.text@, rs[i as int].1, rs[i as int].2));
                assert(!ranges_fit(file.text@, rs));
                return None;
            },
        };
        let mut children: Vec<usize> = Vec::new();
        cs.set_and_swap(i, &mut children);
        let node = make_node(r, range, ps[i], children, Ghost(rs), Ghost(i as int));
        nodes.push(node);
        i = i + 1;
    }
    proof {
        assert forall|a: int, k: int|
            0 <= a < nodes@.len() && 0 <= k < nodes@[a].children@.len() implies a < #[trigger] nodes@[a].children@[k]
                < nodes@.len() by {
            assert(node_is(rs, a, nodes@[a]));
            lemma_children_after(rs, a, n as int);
        }
        assert forall|a: int| 0 <= a < nodes@.len() implies (#[trigger] nodes@[a].parent matches Some(p) ==> p < a) by {
            assert(node_is(rs, a, nodes@[a]));
            if rs[a].7 != 0 {
                lemma_latest_below(rs, a, (rs[a].7 - 1) as u32);
            }
        }
    }
    Some(SyntaxNodes { nodes, has_error })
}

} // verus!
