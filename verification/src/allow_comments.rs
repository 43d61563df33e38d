//! Allow comments (`! allow(code, name, ...)`): which rules they allow on the statement that
//! follows, which diagnostics they silence, and what is wrong with them.
use vstd::prelude::*;
use crate::edits::{boundary, end_of_line, line_of, lemma_line_of, lemma_pos_of, pos_of};
use crate::line_index::LineIndex;
use crate::range::TextRange;
use crate::rules::{Rule, RuleSet, RuleTable};
use crate::diagnostics::{first_primary, Applicability, Diagnostic, Edit, Fix};
use crate::edits::{deletion_range, edit_delete, edit_replacement, indexes, replacement_range};
use crate::write::push_str;
use crate::text::{at_byte, char_pos_of_byte, chars_of, str_eq, string_of, utf8_len};

verus! {

/// A rule of the registry, with its short code and its name.
#[derive(Debug, Clone)]
pub struct RuleEntry {
    pub rule: Rule,
    pub code: String,
    pub name: String,
}

/// The rules that codes and names in allow comments can refer to, and the old codes and names
/// that now stand for others.
#[derive(Debug, Clone)]
pub struct Registry {
    pub rules: Vec<RuleEntry>,
    /// Pairs of an old code or name and what it now stands for.
    pub redirects: Vec<(String, String)>,
}

/// The first position of `rules` whose code is `code`.
pub open spec fn code_position(rules: Seq<RuleEntry>, code: Seq<char>) -> Option<int>
    decreases rules.len(),
{
    if rules.len() == 0 {
        None
    } else if rules[0].code@ == code {
        Some(0)
    } else {
        match code_position(rules.drop_first(), code) {
            Some(p) => Some(p + 1),
            None => None,
        }
    }
}

/// The first position of `rules` whose name is `name`.
pub open spec fn name_position(rules: Seq<RuleEntry>, name: Seq<char>) -> Option<int>
    decreases rules.len(),
{
    if rules.len() == 0 {
        None
    } else if rules[0].name@ == name {
        Some(0)
    } else {
        match name_position(rules.drop_first(), name) {
            Some(p) => Some(p + 1),
            None => None,
        }
    }
}

/// What the first redirect of `redirects` from `code` leads to.
pub open spec fn redirect_of(redirects: Seq<(String, String)>, code: Seq<char>) -> Option<Seq<char>>
    decreases redirects.len(),
{
    if redirects.len() == 0 {
        None
    } else if redirects[0].0@ == code {
        Some(redirects[0].1@)
    } else {
        redirect_of(redirects.drop_first(), code)
    }
}

/// The rule that `code` stands for in `reg`: after following a redirect, the rule with that code,
/// or else the rule with that name.
pub open spec fn resolve(reg: Registry, code: Seq<char>) -> Option<Rule> {
    let target = match redirect_of(reg.redirects@, code) {
        Some(t) => t,
        None => code,
    };
    match code_position(reg.rules@, target) {
        Some(p) => Some(reg.rules@[p].rule),
        None => match name_position(reg.rules@, target) {
            Some(p) => Some(reg.rules@[p].rule),
            None => None,
        },
    }
}

proof fn lemma_position_step(rules: Seq<RuleEntry>, key: Seq<char>, i: int)
    requires
        0 <= i < rules.len(),
    ensures
        code_position(rules.skip(i), key) == if rules[i].code@ == key {
            Some(0int)
        } else {
            match code_position(rules.skip(i + 1), key) {
                Some(p) => Some(p + 1),
                None => None,
            }
        },
        name_position(rules.skip(i), key) == if rules[i].name@ == key {
            Some(0int)
        } else {
            match name_position(rules.skip(i + 1), key) {
                Some(p) => Some(p + 1),
                None => None,
            }
        },
{
    assert(rules.skip(i).drop_first() =~= rules.skip(i + 1));
    assert(rules.skip(i)[0] == rules[i]);
}

impl Registry {
    /// Returns the position of the rule whose code (when `by_name` is false) or name (when it is
    /// true) is `key`.
    fn position(&self, key: &str, by_name: bool) -> (p: Option<usize>)
        ensures
            p matches Some(i) ==> i < self.rules@.len(),
            !by_name ==> match p {
                Some(i) => code_position(self.rules@, key@) == Some(i as int),
                None => code_position(self.rules@, key@) is None,
            },
            by_name ==> match p {
                Some(i) => name_position(self.rules@, key@) == Some(i as int),
                None => name_position(self.rules@, key@) is None,
            },
    {
        let ghost rules = self.rules@;
        let mut i: usize = 0;
        assert(rules.skip(0) =~= rules);
        while i < self.rules.len()
            invariant
                i <= rules.len(),
                rules == self.rules@,
                !by_name ==> code_position(rules, key@) == match code_position(
                    rules.skip(i as int),
                    key@,
                ) {
                    Some(q) => Some(q + i),
                    None => None::<int>,
                },
                by_name ==> name_position(rules, key@) == match name_position(
                    rules.skip(i as int),
                    key@,
                ) {
                    Some(q) => Some(q + i),
                    None => None::<int>,
                },
            decreases rules.len() - i,
        {
            proof {
                lemma_position_step(rules, key@, i as int);
            }
            let entry = &self.rules[i];
            let hit = if by_name {
                str_eq(entry.name.as_str(), key)
            } else {
                str_eq(entry.code.as_str(), key)
            };
            if hit {
                return Some(i);
            }
            i = i + 1;
        }
        assert(rules.skip(i as int).len() == 0);
        None
    }

    /// Returns what `code` is redirected to, if it is.
    pub fn redirect_target(&self, code: &str) -> (t: Option<&str>)
        ensures
            match t {
                Some(s) => redirect_of(self.redirects@, code@) == Some(s@),
                None => redirect_of(self.redirects@, code@) is None,
            },
    {
        let ghost rs = self.redirects@;
        let mut i: usize = 0;
        assert(rs.skip(0) =~= rs);
        while i < self.redirects.len()
            invariant
                i <= rs.len(),
                rs == self.redirects@,
                redirect_of(rs, code@) == redirect_of(rs.skip(i as int), code@),
            decreases rs.len() - i,
        {
            assert(rs.skip(i as int).drop_first() =~= rs.skip(i + 1));
            assert(rs.skip(i as int)[0] == rs[i as int]);
            if str_eq(self.redirects[i].0.as_str(), code) {
                return Some(self.redirects[i].1.as_str());
            }
            i = i + 1;
        }
        None
    }

    /// Returns the rule that `code` stands for (see [`resolve`]).
    pub fn resolve(&self, code: &str) -> (r: Option<Rule>)
        ensures
            r == resolve(*self, code@),
    {
        let target = match self.redirect_target(code) {
            Some(t) => t,
            None => code,
        };
        match self.position(target, false) {
            Some(i) => Some(self.rules[i].rule),
            None => match self.position(target, true) {
                Some(i) => Some(self.rules[i].rule),
                None => None,
            },
        }
    }

    /// Returns the entry of the rule whose code is `code`.
    pub fn from_code(&self, code: &str) -> (e: Option<&RuleEntry>)
        ensures
            match e {
                Some(x) => code_position(self.rules@, code@) matches Some(p) && *x == self.rules@[p],
                None => code_position(self.rules@, code@) is None,
            },
    {
        match self.position(code, false) {
            Some(i) => Some(&self.rules[i]),
            None => None,
        }
    }
}

/// The byte offsets of the matches of the regular expression `pattern` in `text`, from left to
/// right; `None` when `pattern` is not a valid regular expression.
pub uninterp spec fn regex_matches(pattern: Seq<char>, text: Seq<char>) -> Option<Seq<(usize, usize)>>;

/// Runs `regex::Regex::new(pattern)` and, when the pattern is valid, `find_iter(text)`, and
/// returns the start and end byte offsets of the matches. Claimed of it: the result is
/// `regex_matches` of the pattern and the text, and each match starts no later than it ends, at
/// offsets where characters of `text` start (or at its end), as `Match::as_str` slices `text`
/// there.
#[verifier::external_body]
fn find_matches(pattern: &str, text: &str) -> (r: Option<Vec<(usize, usize)>>)
    ensures
        match r {
            Some(v) => regex_matches(pattern@, text@) == Some(v@) && forall|k: int|
                0 <= k < v@.len() ==> v@[k].0 <= v@[k].1 && boundary(text@, v@[k].0 as int)
                    && boundary(text@, #[trigger] v@[k].1 as int),
            None => regex_matches(pattern@, text@) is None,
        },
{
    match regex::Regex::new(pattern) {
        Ok(re) => Some(re.find_iter(text).map(|m| (m.start(), m.end())).collect()),
        Err(_) => None,
    }
}

/// The pattern of a code or name in an allow comment.
pub open spec fn code_pattern() -> Seq<char> {
    "\\w[-\\w\\d]*"@
}

/// The opening of an allow comment.
pub open spec fn allow_opening() -> Seq<char> {
    "! allow("@
}

/// The first position at or after `k` that holds a line feed, or the length of `t`.
pub open spec fn line_end_from(t: Seq<char>, k: int) -> int
    decreases t.len() - k,
{
    if k >= t.len() {
        t.len() as int
    } else if t[k] == '\n' {
        k
    } else {
        line_end_from(t, k + 1)
    }
}

/// The last position before `b` and at or after `a` that holds `)`.
pub open spec fn last_paren(t: Seq<char>, a: int, b: int) -> Option<int>
    decreases b - a,
{
    if b <= a {
        None
    } else if t[b - 1] == ')' {
        Some(b - 1)
    } else {
        last_paren(t, a, b - 1)
    }
}

/// The `)` that closes an allow comment whose list starts at `a`: the last one on that line.
pub open spec fn closing_paren(t: Seq<char>, a: int) -> Option<int> {
    last_paren(t, a, line_end_from(t, a))
}

/// Whether an allow comment opens at position `i` of `t` and is closed on that line.
pub open spec fn opens_at(t: Seq<char>, i: int) -> bool {
    0 <= i && i + 8 <= t.len() && t.subrange(i, i + 8) == allow_opening() && closing_paren(
        t,
        i + 8,
    ) is Some
}

/// The first position at or after `k` at which an allow comment opens.
pub open spec fn first_opening(t: Seq<char>, k: int) -> Option<int>
    decreases t.len() - k,
{
    if k < 0 || k + 8 > t.len() {
        None
    } else if opens_at(t, k) {
        Some(k)
    } else {
        first_opening(t, k + 1)
    }
}

/// The positions of the list of an allow comment in `t`, as the first match of
/// `! allow\((.*)\)\s*` captures it: from just after the first `! allow(` that is closed on its
/// line to the last `)` of that line.
pub open spec fn allow_list(t: Seq<char>) -> Option<(int, int)> {
    match first_opening(t, 0) {
        Some(i) => Some((i + 8, closing_paren(t, i + 8).unwrap())),
        None => None,
    }
}

proof fn lemma_line_end_from(t: Seq<char>, k: int)
    requires
        0 <= k <= t.len(),
    ensures
        k <= line_end_from(t, k) <= t.len(),
    decreases t.len() - k,
{
    if k < t.len() && t[k] != '\n' {
        lemma_line_end_from(t, k + 1);
    }
}

proof fn lemma_last_paren(t: Seq<char>, a: int, b: int)
    ensures
        last_paren(t, a, b) matches Some(j) ==> a <= j < b && t[j] == ')',
    decreases b - a,
{
    if b > a && t[b - 1] != ')' {
        lemma_last_paren(t, a, b - 1);
    }
}

fn line_end_at(t: &[char], k: usize) -> (e: usize)
    requires
        k <= t@.len(),
    ensures
        e == line_end_from(t@, k as int),
        k <= e <= t@.len(),
{
    let mut e = k;
    while e < t.len() && t[e] != '\n'
        invariant
            k <= e <= t@.len(),
            line_end_from(t@, k as int) == line_end_from(t@, e as int),
        decreases t@.len() - e,
    {
        e = e + 1;
    }
    e
}

fn last_paren_in(t: &[char], a: usize, b: usize) -> (r: Option<usize>)
    requires
        a <= b <= t@.len(),
    ensures
        r == match last_paren(t@, a as int, b as int) {
            Some(j) => Some(j as usize),
            None => None::<usize>,
        },
{
    let mut j = b;
    while j > a && t[j - 1] != ')'
        invariant
            a <= j <= b <= t@.len(),
            last_paren(t@, a as int, b as int) == last_paren(t@, a as int, j as int),
        decreases j - a,
    {
        j = j - 1;
    }
    if j > a {
        Some(j - 1)
    } else {
        None
    }
}

/// Returns the positions of the list of an allow comment in `t` (see [`allow_list`]).
pub fn find_allow_list(t: &[char]) -> (r: Option<(usize, usize)>)
    ensures
        match r {
            Some((a, b)) => allow_list(t@) == Some((a as int, b as int)) && 8 <= a <= b < t@.len(),
            None => allow_list(t@) is None,
        },
{
    let opening = chars_of("! allow(");
    proof {
        reveal_strlit("! allow(");
    }
    let mut i: usize = 0;
    while t.len() >= 8 && i <= t.len() - 8
        invariant
            opening@ == allow_opening(),
            opening@.len() == 8,
            first_opening(t@, 0) == first_opening(t@, i as int),
        decreases t@.len() - i,
    {
        let mut k: usize = 0;
        while k < 8 && t[i + k] == opening[k]
            invariant
                k <= 8,
                i + 8 <= t@.len(),
                i + 8 <= t.len(),
                opening@ == allow_opening(),
                opening@.len() == 8,
                t@.subrange(i as int, i + k) == opening@.take(k as int),
            decreases 8 - k,
        {
            assert(t@.subrange(i as int, i + k + 1) =~= t@.subrange(i as int, i + k).push(t@[i + k]));
            assert(opening@.take(k + 1) =~= opening@.take(k as int).push(opening@[k as int]));
            k = k + 1;
        }
        proof {
            if k < 8 {
                assert(t@.subrange(i as int, i + 8)[k as int] != opening@[k as int]);
            } else {
                assert(opening@.take(8) =~= opening@);
            }
        }
        if k == 8 {
            let e = line_end_at(t, i + 8);
            let close = last_paren_in(t, i + 8, e);
            if let Some(j) = close {
                proof {
                    lemma_last_paren(t@, (i + 8) as int, e as int);
                }
                return Some((i + 8, j));
            }
        }
        i = i + 1;
    }
    None
}

/// The parts of a syntax node that allow comments read: its kind, its text and range, and the
/// range of the next named node beside it.
#[derive(Debug, Clone)]
pub struct CommentNode {
    pub kind: String,
    pub text: String,
    pub range: TextRange,
    pub next_named_sibling: Option<TextRange>,
}

/// A code or name in an allow comment, with the rule it stands for and where it is.
#[derive(Debug, Clone)]
pub struct Code {
    pub code: String,
    pub rule: Option<Rule>,
    pub loc: TextRange,
}

/// An allow comment: the codes it lists, the range it applies to, and the range of the comment.
#[derive(Debug, Clone)]
pub struct AllowComment {
    pub codes: Vec<Code>,
    pub range: TextRange,
    pub node: TextRange,
}

/// `code` is the `k`-th code of a list `list` whose matches of the code pattern are at the byte
/// offsets `spans`, for a list that starts at byte `base` of the file.
pub open spec fn is_code_of(reg: Registry, list: Seq<char>, spans: Seq<(usize, usize)>, base: int, k: int, code: Code) -> bool {
    let (s, e) = spans[k];
    &&& code.code@ == list.subrange(pos_of(list, s as int), pos_of(list, e as int))
    &&& code.loc == (TextRange { start: (base + s) as u32, end: (base + e) as u32 })
    &&& code.rule == resolve(reg, code.code@)
}

/// The offsets `spans` are those of matches in `list`: each starts no later than it ends, where
/// characters start, and ends no further than `limit` bytes past `base`.
pub open spec fn valid_spans(list: Seq<char>, spans: Seq<(usize, usize)>, base: int, limit: int) -> bool {
    forall|k: int|
        0 <= k < spans.len() ==> #[trigger] spans[k].0 <= spans[k].1 && boundary(list, spans[k].0 as int)
            && boundary(list, spans[k].1 as int) && base + spans[k].1 <= limit
}

/// Returns the codes of a list `list`, starting at byte `base` of the file, whose matches of the
/// code pattern are at the byte offsets `spans`: each with its text, its range in the file, and
/// the rule it stands for.
pub fn codes_from_matches(reg: &Registry, list: &[char], spans: &Vec<(usize, usize)>, base: u32) -> (codes: Vec<Code>)
    requires
        valid_spans(list@, spans@, base as int, u32::MAX as int),
    ensures
        codes@.len() == spans@.len(),
        forall|k: int| 0 <= k < codes@.len() ==> is_code_of(*reg, list@, spans@, base as int, k, #[trigger] codes@[k]),
{
    let mut codes: Vec<Code> = Vec::new();
    let mut k: usize = 0;
    while k < spans.len()
        invariant
            k <= spans@.len(),
            valid_spans(list@, spans@, base as int, u32::MAX as int),
            codes@.len() == k,
            forall|t: int| 0 <= t < k ==> is_code_of(*reg, list@, spans@, base as int, t, #[trigger] codes@[t]),
        decreases spans@.len() - k,
    {
        let (s, e) = spans[k];
        assert(spans@[k as int].0 <= spans@[k as int].1);
        let ps = char_pos_of_byte(list, s);
        let pe = char_pos_of_byte(list, e);
        match (ps, pe) {
            (Some(ps), Some(pe)) => {
                proof {
                    lemma_pos_of(list@, ps as int, s as int);
                    lemma_pos_of(list@, pe as int, e as int);
                    if pe < ps {
                        crate::text::lemma_utf8_len_take_increasing(list@, pe as int, ps as int);
                    }
                }
                let text = crate::text::tail_from(crate::text::head_of(list, pe).as_slice(), ps);
                assert(text@ =~= list@.subrange(ps as int, pe as int));
                let code = string_of(text.as_slice());
                let rule = reg.resolve(code.as_str());
                codes.push(Code { code, rule, loc: TextRange { start: base + s as u32, end: base + e as u32 } });
            },
            _ => {
                proof {
                    assert(boundary(list@, s as int));
                    assert(boundary(list@, e as int));
                }
                assert(false);
                return codes;
            },
        }
        k = k + 1;
    }
    codes
}

/// The range to which an allow comment before the node at `next` applies: from the start of the
/// line on which that node starts to the end of the line on which it ends.
pub open spec fn allowed_range(index: LineIndex, next: TextRange) -> TextRange {
    TextRange {
        start: index.starts()[line_of(index, next.start as int) - 1],
        end: end_of_line(index, line_of(index, next.end as int)) as u32,
    }
}

proof fn lemma_at_byte_bound(s: Seq<char>, p: int, b: int)
    requires
        at_byte(s, p, b),
    ensures
        b <= utf8_len(s),
{
    assert(s.take(p) =~= s.subrange(0, p));
    crate::text::lemma_utf8_len_subrange(s, 0, p);
}

/// Returns the allow comment that `node` is, if it is one: a comment whose text holds an allow
/// list, before a named node. It lists the codes that the code pattern matches in the list, and
/// applies to the lines of the node that follows.
pub fn gather_allow_comments(node: &CommentNode, index: &LineIndex, reg: &Registry) -> (r: Option<AllowComment>)
    requires
        index.wf(),
        node.range.start + 8 + utf8_len(node.text@) <= u32::MAX,
    ensures
        r is Some <==> (node.kind@ == "comment"@ && allow_list(node.text@) is Some
            && node.next_named_sibling is Some),
        r matches Some(ac) ==> {
            let (a, b) = allow_list(node.text@).unwrap();
            let list = node.text@.subrange(a, b);
            &&& ac.node == node.range
            &&& ac.range == allowed_range(*index, node.next_named_sibling.unwrap())
            &&& match regex_matches(code_pattern(), list) {
                Some(spans) => ac.codes@.len() == spans.len() && forall|k: int|
                    0 <= k < spans.len() ==> is_code_of(
                        *reg,
                        list,
                        spans,
                        node.range.start + 8,
                        k,
                        #[trigger] ac.codes@[k],
                    ),
                None => ac.codes@.len() == 0,
            }
        },
{
    if !str_eq(node.kind.as_str(), "comment") {
        return None;
    }
    let text = chars_of(node.text.as_str());
    let (a, b) = match find_allow_list(text.as_slice()) {
        Some(list) => list,
        None => return None,
    };
    let next = match node.next_named_sibling {
        Some(n) => n,
        None => return None,
    };
    let l1 = index.line_index(next.start);
    let l2 = index.line_index(next.end);
    let range = TextRange { start: index.line_start(l1), end: index.line_end(l2) };
    proof {
        lemma_line_of(*index, next.start as int, l1 as int);
        lemma_line_of(*index, next.end as int, l2 as int);
    }
    let list = crate::text::tail_from(crate::text::head_of(text.as_slice(), b).as_slice(), a);
    assert(list@ =~= text@.subrange(a as int, b as int));
    let list_str = string_of(list.as_slice());
    let pattern = "\\w[-\\w\\d]*";
    let codes = match find_matches(pattern, list_str.as_str()) {
        Some(spans) => {
            proof {
                crate::text::lemma_utf8_len_subrange(text@, a as int, b as int);
                assert forall|k: int| 0 <= k < spans@.len() implies #[trigger] spans@[k].0 <= spans@[k].1
                    && boundary(list@, spans@[k].0 as int) && boundary(list@, spans@[k].1 as int)
                    && (node.range.start + 8) + spans@[k].1 <= u32::MAX by {
                    let p = choose|p: int| at_byte(list@, p, spans@[k].1 as int);
                    lemma_at_byte_bound(list@, p, spans@[k].1 as int);
                }
            }
            codes_from_matches(reg, list.as_slice(), &spans, node.range.start + 8)
        },
        None => Vec::new(),
    };
    assert(allow_list(node.text@) == Some((a as int, b as int)));
    assert(range == allowed_range(*index, next));
    Some(AllowComment { codes, range, node: node.range })
}

/// The range of `d` by which allow comments silence it: that of its primary annotation, or the
/// empty range at offset zero.
pub open spec fn diagnostic_range(d: Diagnostic) -> TextRange {
    match first_primary(d.annotations@) {
        Some(i) => match d.annotations@[i].span.range {
            Some(r) => r,
            None => TextRange { start: 0, end: 0 },
        },
        None => TextRange { start: 0, end: 0 },
    }
}

/// Whether the code `c` of the allow comment `a` silences `d`: it names the rule of `d`, and `d`
/// lies within the range to which `a` applies.
pub open spec fn silences(a: AllowComment, c: Code, d: Diagnostic) -> bool {
    &&& c.rule is Some
    &&& c.rule == d.rule
    &&& a.range.start <= diagnostic_range(d).start
    &&& diagnostic_range(d).end <= a.range.end
}

/// Whether some code of some comment of `acs` silences `d`.
pub open spec fn is_silenced(acs: Seq<AllowComment>, d: Diagnostic) -> bool {
    exists|a: int, c: int|
        0 <= a < acs.len() && 0 <= c < acs[a].codes@.len() && #[trigger] silences(
            acs[a],
            acs[a].codes@[c],
            d,
        )
}

/// The positions, in increasing order, of the first `n` diagnostics of `ds` that `acs` silence.
pub open spec fn silenced_positions(acs: Seq<AllowComment>, ds: Seq<Diagnostic>, n: int) -> Seq<usize>
    decreases n,
{
    if n <= 0 {
        Seq::empty()
    } else if is_silenced(acs, ds[n - 1]) {
        silenced_positions(acs, ds, n - 1).push((n - 1) as usize)
    } else {
        silenced_positions(acs, ds, n - 1)
    }
}

/// Whether an allow comment of `acs` silences some diagnostic of `ds` of the rule `r`.
pub open spec fn is_used(acs: Seq<AllowComment>, ds: Seq<Diagnostic>, r: Rule) -> bool {
    exists|i: int| 0 <= i < ds.len() && ds[i].rule == Some(r) && #[trigger] is_silenced(acs, ds[i])
}

fn silenced(acs: &Vec<AllowComment>, d: &Diagnostic) -> (b: bool)
    ensures
        b == is_silenced(acs@, *d),
{
    let range = match d.range() {
        Some(r) => r,
        None => TextRange { start: 0, end: 0 },
    };
    let mut a: usize = 0;
    while a < acs.len()
        invariant
            a <= acs@.len(),
            range == diagnostic_range(*d),
            forall|x: int, c: int|
                0 <= x < a && 0 <= c < acs@[x].codes@.len() ==> !#[trigger] silences(
                    acs@[x],
                    acs@[x].codes@[c],
                    *d,
                ),
        decreases acs@.len() - a,
    {
        let comment = &acs[a];
        let mut c: usize = 0;
        while c < comment.codes.len()
            invariant
                a < acs@.len(),
                c <= acs@[a as int].codes@.len(),
                *comment == acs@[a as int],
                range == diagnostic_range(*d),
                forall|k: int| 0 <= k < c ==> !#[trigger] silences(acs@[a as int], acs@[a as int].codes@[k], *d),
            decreases acs@[a as int].codes@.len() - c,
        {
            let code = &comment.codes[c];
            let same_rule = match (code.rule, d.rule) {
                (Some(x), Some(y)) => x == y,
                _ => false,
            };
            if same_rule && comment.range.contains_range(range) {
                assert(silences(acs@[a as int], acs@[a as int].codes@[c as int], *d));
                return true;
            }
            c = c + 1;
        }
        a = a + 1;
    }
    false
}

/// Returns the positions of the diagnostics of `ds` that allow comments of `acs` silence, in
/// increasing order, and adds the rules of the silenced diagnostics to `used`.
fn silenced_diagnostics(ds: &Vec<Diagnostic>, acs: &Vec<AllowComment>, used: &mut RuleSet) -> (ignored: Vec<usize>)
    requires
        forall|r: Rule| !old(used).has(r),
    ensures
        ignored@ == silenced_positions(acs@, ds@, ds@.len() as int),
        forall|r: Rule| final(used).has(r) <==> is_used(acs@, ds@, r),
{
    let mut ignored: Vec<usize> = Vec::new();
    let mut i: usize = 0;
    while i < ds.len()
        invariant
            i <= ds@.len(),
            ignored@ == silenced_positions(acs@, ds@, i as int),
            forall|r: Rule| used.has(r) <==> exists|j: int|
                0 <= j < i && ds@[j].rule == Some(r) && #[trigger] is_silenced(acs@, ds@[j]),
        decreases ds@.len() - i,
    {
        if silenced(acs, &ds[i]) {
            ignored.push(i);
            match ds[i].rule {
                Some(r) => {
                    used.insert(r);
                },
                None => {
                    proof {
                        let d = ds@[i as int];
                        assert(is_silenced(acs@, d));
                        let (a, c) = choose|a: int, c: int|
                            0 <= a < acs@.len() && 0 <= c < acs@[a].codes@.len() && #[trigger] silences(
                                acs@[a],
                                acs@[a].codes@[c],
                                d,
                            );
                        assert(false);
                    }
                },
            }
        }
        proof {
            assert forall|r: Rule| used.has(r) <==> exists|j: int|
                0 <= j < i + 1 && ds@[j].rule == Some(r) && #[trigger] is_silenced(acs@, ds@[j]) by {
                if used.has(r) && !(exists|j: int| 0 <= j < i && ds@[j].rule == Some(r) && #[trigger] is_silenced(acs@, ds@[j])) {
                    assert(ds@[i as int].rule == Some(r) && is_silenced(acs@, ds@[i as int]));
                }
            }
        }
        i = i + 1;
    }
    ignored
}

/// The kinds of problems with allow comments.
#[derive(Debug, Clone, Copy, PartialEq, Eq, Structural)]
pub enum AllowViolationKind {
    /// A code or name that has been redirected to another.
    RedirectedAllowComment,
    /// A code or name that stands for no rule.
    InvalidRuleCodeOrName,
    /// A rule allowed twice by the same comment.
    DuplicatedAllowComment,
    /// A rule that is allowed but not enabled.
    DisabledAllowComment,
    /// A rule that is allowed but silences nothing.
    UnusedAllowComment,
}

/// Where a redirected code now leads: the code or name it was redirected to, and the code and
/// name of that rule.
#[derive(Debug, Clone)]
pub struct Redirect {
    pub redirect: String,
    pub new_code: String,
    pub new_name: String,
}

/// A problem with a code of an allow comment, where it is, and the fix for it.
#[derive(Debug, Clone)]
pub struct AllowFinding {
    pub kind: AllowViolationKind,
    /// The code or name as written in the comment.
    pub rule: String,
    pub redirect: Option<Redirect>,
    pub loc: TextRange,
    pub fix: Fix,
}

/// The rules that report problems with allow comments.
#[derive(Debug, Clone, Copy)]
pub struct AllowCommentRules {
    pub redirected: Rule,
    pub invalid: Rule,
    pub duplicated: Rule,
    pub disabled: Rule,
    pub unused: Rule,
}

impl AllowCommentRules {
    /// The rule that reports problems of the kind `kind`.
    pub open spec fn rule_of(self, kind: AllowViolationKind) -> Rule {
        match kind {
            AllowViolationKind::RedirectedAllowComment => self.redirected,
            AllowViolationKind::InvalidRuleCodeOrName => self.invalid,
            AllowViolationKind::DuplicatedAllowComment => self.duplicated,
            AllowViolationKind::DisabledAllowComment => self.disabled,
            AllowViolationKind::UnusedAllowComment => self.unused,
        }
    }

    /// Returns the rule that reports problems of the kind `kind`.
    pub fn rule_for(&self, kind: AllowViolationKind) -> (r: Rule)
        ensures
            r == self.rule_of(kind),
    {
        match kind {
            AllowViolationKind::RedirectedAllowComment => self.redirected,
            AllowViolationKind::InvalidRuleCodeOrName => self.invalid,
            AllowViolationKind::DuplicatedAllowComment => self.duplicated,
            AllowViolationKind::DisabledAllowComment => self.disabled,
            AllowViolationKind::UnusedAllowComment => self.unused,
        }
    }
}

/// An edit as its range and the text of its content.
pub open spec fn edit_view(e: Edit) -> (TextRange, Option<Seq<char>>) {
    (
        e.range,
        match e.content {
            Some(c) => Some(c@),
            None => None,
        },
    )
}

/// A finding as its kind, code, redirect, location, and fix (applicability and edits).
pub open spec fn finding_view(f: AllowFinding) -> (
    AllowViolationKind,
    Seq<char>,
    Option<(Seq<char>, Seq<char>, Seq<char>)>,
    TextRange,
    Applicability,
    Seq<(TextRange, Option<Seq<char>>)>,
) {
    (
        f.kind,
        f.rule@,
        match f.redirect {
            Some(r) => Some((r.redirect@, r.new_code@, r.new_name@)),
            None => None,
        },
        f.loc,
        f.fix.applicability,
        f.fix.edits@.map_values(|e: Edit| edit_view(e)),
    )
}

/// Whether two codes are the same: text, rule and location.
pub open spec fn same_code(x: Code, y: Code) -> bool {
    x.code@ == y.code@ && x.rule == y.rule && x.loc == y.loc
}

/// The number of the first `n` codes of `codes` that are not the same as `c`.
pub open spec fn kept_count(codes: Seq<Code>, c: Code, n: int) -> nat
    decreases n,
{
    if n <= 0 {
        0
    } else if same_code(codes[n - 1], c) {
        kept_count(codes, c, n - 1)
    } else {
        kept_count(codes, c, n - 1) + 1
    }
}

/// The first `n` codes of `codes` that are not the same as `c`, joined with `", "`.
pub open spec fn kept_codes(codes: Seq<Code>, c: Code, n: int) -> Seq<char>
    decreases n,
{
    if n <= 0 {
        Seq::empty()
    } else if same_code(codes[n - 1], c) {
        kept_codes(codes, c, n - 1)
    } else if kept_count(codes, c, n - 1) == 0 {
        codes[n - 1].code@
    } else {
        kept_codes(codes, c, n - 1) + ", "@ + codes[n - 1].code@
    }
}

proof fn lemma_kept_none(codes: Seq<Code>, c: Code, n: int)
    requires
        kept_count(codes, c, n) == 0,
    ensures
        kept_codes(codes, c, n) == Seq::<char>::empty(),
    decreases n,
{
    if n > 0 {
        lemma_kept_none(codes, c, n - 1);
    }
}

/// The edit that removes the `k`-th code from the allow comment `a` of `src`: the comment with
/// the other codes, or the deletion of the comment when no other code is left.
pub open spec fn removal_edit(src: Seq<char>, index: LineIndex, a: AllowComment, k: int) -> (
    TextRange,
    Option<Seq<char>>,
) {
    let rest = kept_codes(a.codes@, a.codes@[k], a.codes@.len() as int);
    if rest.len() == 0 {
        (deletion_range(src, index, a.node), None)
    } else {
        (replacement_range(src, a.node), Some("! allow("@ + rest + ")"@))
    }
}

/// The texts `ts` joined with `", "`.
pub open spec fn comma_joined(ts: Seq<Seq<char>>) -> Seq<char>
    decreases ts.len(),
{
    if ts.len() == 0 {
        Seq::empty()
    } else if ts.len() == 1 {
        ts[0]
    } else {
        comma_joined(ts.drop_last()) + ", "@ + ts.last()
    }
}

/// The texts of the codes of `codes` other than the `k`-th, in order.
pub open spec fn other_code_texts(codes: Seq<Code>, k: int) -> Seq<Seq<char>> {
    codes.remove(k).map_values(|c: Code| c.code@)
}

spec fn texts_except(codes: Seq<Code>, k: int, n: int) -> Seq<Seq<char>>
    decreases n,
{
    if n <= 0 {
        Seq::empty()
    } else if n - 1 == k {
        texts_except(codes, k, n - 1)
    } else {
        texts_except(codes, k, n - 1).push(codes[n - 1].code@)
    }
}

proof fn lemma_texts_except(codes: Seq<Code>, k: int, n: int)
    requires
        0 <= k < codes.len(),
        0 <= n <= codes.len(),
    ensures
        texts_except(codes, k, n) == if n <= k {
            codes.take(n).map_values(|c: Code| c.code@)
        } else {
            codes.take(n).remove(k).map_values(|c: Code| c.code@)
        },
    decreases n,
{
    if n > 0 {
        lemma_texts_except(codes, k, n - 1);
        if n - 1 == k {
            assert(codes.take(n).remove(k) =~= codes.take(n - 1));
        } else if n <= k {
            assert(codes.take(n).map_values(|c: Code| c.code@) =~= codes.take(n - 1).map_values(|c: Code| c.code@).push(
                codes[n - 1].code@,
            ));
        } else {
            assert(codes.take(n).remove(k).map_values(|c: Code| c.code@) =~= codes.take(n - 1).remove(k).map_values(
                |c: Code| c.code@,
            ).push(codes[n - 1].code@));
        }
    } else {
        assert(codes.take(0).map_values(|c: Code| c.code@) =~= Seq::<Seq<char>>::empty());
    }
}

proof fn lemma_kept_is_others(codes: Seq<Code>, k: int, n: int)
    requires
        0 <= k < codes.len(),
        0 <= n <= codes.len(),
        forall|i: int, j: int| 0 <= i < codes.len() && 0 <= j < codes.len() && i != j ==> codes[i].loc != codes[j].loc,
    ensures
        kept_count(codes, codes[k], n) == texts_except(codes, k, n).len(),
        kept_codes(codes, codes[k], n) == comma_joined(texts_except(codes, k, n)),
    decreases n,
{
    if n > 0 {
        lemma_kept_is_others(codes, k, n - 1);
        let prev = texts_except(codes, k, n - 1);
        if n - 1 != k {
            assert(!same_code(codes[n - 1], codes[k]));
            let cur = prev.push(codes[n - 1].code@);
            assert(cur.drop_last() =~= prev);
            if prev.len() == 0 {
                assert(comma_joined(cur) == cur[0]);
            }
        }
    }
}

/// Removing the `k`-th code of an allow comment whose codes lie at distinct places keeps every
/// other code, in order, once each, and only those: the count of the others is one less than
/// the count of codes, and the comment is rewritten to list them (a code with the same text as
/// the removed one but at another place stays), or deleted when nothing is left to list.
pub proof fn lemma_removal_keeps_other_codes(src: Seq<char>, index: LineIndex, a: AllowComment, k: int)
    requires
        0 <= k < a.codes@.len(),
        forall|i: int, j: int|
            0 <= i < a.codes@.len() && 0 <= j < a.codes@.len() && i != j ==> a.codes@[i].loc != a.codes@[j].loc,
    ensures
        kept_count(a.codes@, a.codes@[k], a.codes@.len() as int) == a.codes@.len() - 1,
        other_code_texts(a.codes@, k).len() == a.codes@.len() - 1,
        kept_codes(a.codes@, a.codes@[k], a.codes@.len() as int) == comma_joined(other_code_texts(a.codes@, k)),
        removal_edit(src, index, a, k) == if comma_joined(other_code_texts(a.codes@, k)).len() == 0 {
            (deletion_range(src, index, a.node), None)
        } else {
            (replacement_range(src, a.node), Some("! allow("@ + comma_joined(other_code_texts(a.codes@, k)) + ")"@))
        },
{
    let codes = a.codes@;
    lemma_kept_is_others(codes, k, codes.len() as int);
    lemma_texts_except(codes, k, codes.len() as int);
    assert(codes.take(codes.len() as int) =~= codes);
}

/// The range of the allow comment `a` can be edited in `src`.
pub open spec fn editable(src: Seq<char>, index: LineIndex, a: AllowComment) -> bool {
    &&& a.node.start <= a.node.end <= index.len()
    &&& boundary(src, a.node.start as int)
    &&& boundary(src, a.node.end as int)
}

fn same_code_exec(x: &Code, y: &Code) -> (b: bool)
    ensures
        b == same_code(*x, *y),
{
    let same_rule = match (x.rule, y.rule) {
        (Some(a), Some(b)) => a == b,
        (None, None) => true,
        _ => false,
    };
    str_eq(x.code.as_str(), y.code.as_str()) && same_rule && x.loc.start == y.loc.start && x.loc.end
        == y.loc.end
}

/// Returns the edit that removes the `k`-th code from the allow comment `a` (see
/// [`removal_edit`]).
pub fn remove_code_from_allow_comment(src: &[char], index: &LineIndex, a: &AllowComment, k: usize) -> (e: Edit)
    requires
        k < a.codes@.len(),
        indexes(*index, src@),
        editable(src@, *index, *a),
    ensures
        edit_view(e) == removal_edit(src@, *index, *a, k as int),
{
    let target = &a.codes[k];
    let mut rest: Vec<char> = Vec::new();
    let mut count: usize = 0;
    let mut j: usize = 0;
    while j < a.codes.len()
        invariant
            j <= a.codes@.len(),
            k < a.codes@.len(),
            *target == a.codes@[k as int],
            count == kept_count(a.codes@, a.codes@[k as int], j as int),
            count <= j,
            rest@ == kept_codes(a.codes@, a.codes@[k as int], j as int),
        decreases a.codes@.len() - j,
    {
        let ghost before = rest@;
        if !same_code_exec(&a.codes[j], target) {
            if count > 0 {
                push_str(&mut rest, ", ");
            } else {
                proof {
                    lemma_kept_none(a.codes@, a.codes@[k as int], j as int);
                }
            }
            push_str(&mut rest, a.codes[j].code.as_str());
            count = count + 1;
            assert(rest@ =~= kept_codes(a.codes@, a.codes@[k as int], j + 1));
        }
        j = j + 1;
    }
    if rest.len() == 0 {
        edit_delete(src, index, a.node)
    } else {
        let mut content: Vec<char> = Vec::new();
        push_str(&mut content, "! allow(");
        crate::text::push_all(&mut content, rest.as_slice());
        push_str(&mut content, ")");
        let e = edit_replacement(src, a.node, string_of(content.as_slice()));
        e
    }
}

/// Whether a code before the `k`-th of `codes` stands for the rule `r`.
pub open spec fn allowed_before(codes: Seq<Code>, k: int, r: Rule) -> bool {
    exists|j: int| 0 <= j < k && #[trigger] codes[j].rule == Some(r)
}

/// The kind of problem with the `k`-th code of the allow comment `a`, if any: a code that stands
/// for no rule; a rule already allowed by the comment; a rule that is not enabled; a rule that
/// silences nothing.
pub open spec fn problem_of(
    table: RuleTable,
    acs: Seq<AllowComment>,
    ds: Seq<Diagnostic>,
    a: AllowComment,
    k: int,
) -> Option<AllowViolationKind> {
    match a.codes@[k].rule {
        None => Some(AllowViolationKind::InvalidRuleCodeOrName),
        Some(r) => if allowed_before(a.codes@, k, r) {
            Some(AllowViolationKind::DuplicatedAllowComment)
        } else if !table.is_enabled(r) {
            Some(AllowViolationKind::DisabledAllowComment)
        } else if !is_used(acs, ds, r) {
            Some(AllowViolationKind::UnusedAllowComment)
        } else {
            None
        },
    }
}

/// The findings for the `k`-th code of the allow comment `a`: that it was redirected, when the
/// rule for that is enabled; then its problem, when the rule for that is enabled, with the fix
/// that removes the code.
pub open spec fn code_findings(
    reg: Registry,
    table: RuleTable,
    rules: AllowCommentRules,
    acs: Seq<AllowComment>,
    ds: Seq<Diagnostic>,
    src: Seq<char>,
    index: LineIndex,
    a: AllowComment,
    k: int,
) -> Seq<
    (
        AllowViolationKind,
        Seq<char>,
        Option<(Seq<char>, Seq<char>, Seq<char>)>,
        TextRange,
        Applicability,
        Seq<(TextRange, Option<Seq<char>>)>,
    ),
> {
    let c = a.codes@[k];
    let redirected = match redirect_of(reg.redirects@, c.code@) {
        Some(t) => if table.is_enabled(rules.redirected) {
            let e = reg.rules@[code_position(reg.rules@, t).unwrap()];
            seq![
                (
                    AllowViolationKind::RedirectedAllowComment,
                    c.code@,
                    Some((t, e.code@, e.name@)),
                    c.loc,
                    Applicability::Safe,
                    seq![(c.loc, Some(e.name@))],
                ),
            ]
        } else {
            Seq::empty()
        },
        None => Seq::empty(),
    };
    let problem = match problem_of(table, acs, ds, a, k) {
        Some(kind) => if table.is_enabled(rules.rule_of(kind)) {
            seq![
                (
                    kind,
                    c.code@,
                    None,
                    c.loc,
                    Applicability::Safe,
                    seq![removal_edit(src, index, a, k)],
                ),
            ]
        } else {
            Seq::empty()
        },
        None => Seq::empty(),
    };
    redirected + problem
}

/// The findings for the first `n` codes of the allow comment `a`.
pub open spec fn comment_findings(
    reg: Registry,
    table: RuleTable,
    rules: AllowCommentRules,
    acs: Seq<AllowComment>,
    ds: Seq<Diagnostic>,
    src: Seq<char>,
    index: LineIndex,
    a: AllowComment,
    n: int,
) -> Seq<
    (
        AllowViolationKind,
        Seq<char>,
        Option<(Seq<char>, Seq<char>, Seq<char>)>,
        TextRange,
        Applicability,
        Seq<(TextRange, Option<Seq<char>>)>,
    ),
>
    decreases n,
{
    if n <= 0 {
        Seq::empty()
    } else {
        comment_findings(reg, table, rules, acs, ds, src, index, a, n - 1) + code_findings(
            reg,
            table,
            rules,
            acs,
            ds,
            src,
            index,
            a,
            n - 1,
        )
    }
}

/// The findings for the first `m` allow comments of `acs`.
pub open spec fn all_findings(
    reg: Registry,
    table: RuleTable,
    rules: AllowCommentRules,
    acs: Seq<AllowComment>,
    ds: Seq<Diagnostic>,
    src: Seq<char>,
    index: LineIndex,
    m: int,
) -> Seq<
    (
        AllowViolationKind,
        Seq<char>,
        Option<(Seq<char>, Seq<char>, Seq<char>)>,
        TextRange,
        Applicability,
        Seq<(TextRange, Option<Seq<char>>)>,
    ),
>
    decreases m,
{
    if m <= 0 {
        Seq::empty()
    } else {
        all_findings(reg, table, rules, acs, ds, src, index, m - 1) + comment_findings(
            reg,
            table,
            rules,
            acs,
            ds,
            src,
            index,
            acs[m - 1],
            acs[m - 1].codes@.len() as int,
        )
    }
}

/// Every redirect of `reg` leads to the code of a rule.
pub open spec fn redirects_resolve(reg: Registry) -> bool {
    forall|k: int| 0 <= k < reg.redirects@.len() ==> #[trigger] code_position(reg.rules@, reg.redirects@[k].1@) is Some
}

proof fn lemma_redirect_resolves(reds: Seq<(String, String)>, rules: Seq<RuleEntry>, code: Seq<char>)
    requires
        forall|k: int| 0 <= k < reds.len() ==> #[trigger] code_position(rules, reds[k].1@) is Some,
    ensures
        redirect_of(reds, code) matches Some(t) ==> code_position(rules, t) is Some,
    decreases reds.len(),
{
    if reds.len() > 0 && reds[0].0@ != code {
        assert forall|k: int| 0 <= k < reds.drop_first().len() implies #[trigger] code_position(rules, reds.drop_first()[k].1@) is Some by {
            assert(reds.drop_first()[k] == reds[k + 1]);
        }
        lemma_redirect_resolves(reds.drop_first(), rules, code);
    } else if reds.len() > 0 {
        assert(code_position(rules, reds[0].1@) is Some);
    }
}

proof fn lemma_code_position_bound(rules: Seq<RuleEntry>, key: Seq<char>)
    ensures
        code_position(rules, key) matches Some(p) ==> 0 <= p < rules.len() && rules[p].code@ == key,
    decreases rules.len(),
{
    if rules.len() > 0 && rules[0].code@ != key {
        lemma_code_position_bound(rules.drop_first(), key);
        if let Some(p) = code_position(rules.drop_first(), key) {
            assert(rules.drop_first()[p] == rules[p + 1]);
        }
    }
}

fn push_finding(findings: &mut Vec<AllowFinding>, f: AllowFinding)
    ensures
        final(findings)@.map_values(|x: AllowFinding| finding_view(x)) == old(findings)@.map_values(
            |x: AllowFinding| finding_view(x),
        ).push(finding_view(f)),
{
    findings.push(f);
    assert(findings@.map_values(|x: AllowFinding| finding_view(x)) =~= old(findings)@.map_values(
        |x: AllowFinding| finding_view(x),
    ).push(finding_view(f)));
}

fn safe_fix(edit: Edit) -> (f: Fix)
    ensures
        f.applicability == Applicability::Safe,
        f.edits@.map_values(|e: Edit| edit_view(e)) == seq![edit_view(edit)],
{
    let f = Fix::safe_edit(edit);
    assert(f.edits@.map_values(|e: Edit| edit_view(e)) =~= seq![edit_view(edit)]);
    f
}

/// Checks allow comments against the diagnostics of a file. Returns the positions, in
/// increasing order, of the diagnostics that the comments silence, and the findings on the
/// comments' codes, comment by comment and code by code (see [`code_findings`]).
#[verifier::rlimit(50)]
pub fn check_allow_comments(
    diagnostics: &Vec<Diagnostic>,
    allow_comments: &Vec<AllowComment>,
    table: &RuleTable,
    reg: &Registry,
    rules: AllowCommentRules,
    src: &[char],
    index: &LineIndex,
) -> (r: (Vec<usize>, Vec<AllowFinding>))
    requires
        redirects_resolve(*reg),
        indexes(*index, src@),
        forall|a: int| 0 <= a < allow_comments@.len() ==> editable(src@, *index, #[trigger] allow_comments@[a]),
    ensures
        r.0@ == silenced_positions(allow_comments@, diagnostics@, diagnostics@.len() as int),
        r.1@.map_values(|f: AllowFinding| finding_view(f)) == all_findings(
            *reg,
            *table,
            rules,
            allow_comments@,
            diagnostics@,
            src@,
            *index,
            allow_comments@.len() as int,
        ),
{
    let ghost acs = allow_comments@;
    let ghost ds = diagnostics@;
    let mut used = RuleSet::empty();
    let ignored = silenced_diagnostics(diagnostics, allow_comments, &mut used);
    let mut findings: Vec<AllowFinding> = Vec::new();
    let mut a: usize = 0;
    while a < allow_comments.len()
        invariant
            a <= acs.len(),
            acs == allow_comments@,
            ds == diagnostics@,
            redirects_resolve(*reg),
            indexes(*index, src@),
            forall|x: int| 0 <= x < acs.len() ==> editable(src@, *index, #[trigger] acs[x]),
            forall|r: Rule| used.has(r) <==> is_used(acs, ds, r),
            findings@.map_values(|f: AllowFinding| finding_view(f)) == all_findings(
                *reg,
                *table,
                rules,
                acs,
                ds,
                src@,
                *index,
                a as int,
            ),
        decreases acs.len() - a,
    {
        let comment = &allow_comments[a];
        assert(editable(src@, *index, acs[a as int]));
        let ghost start = findings@.map_values(|f: AllowFinding| finding_view(f));
        let mut seen = RuleSet::empty();
        let mut k: usize = 0;
        while k < comment.codes.len()
            invariant
                a < acs.len(),
                *comment == acs[a as int],
                k <= comment.codes@.len(),
                redirects_resolve(*reg),
                indexes(*index, src@),
                editable(src@, *index, *comment),
                forall|r: Rule| used.has(r) <==> is_used(acs, ds, r),
                forall|r: Rule| seen.has(r) <==> allowed_before(comment.codes@, k as int, r),
                findings@.map_values(|f: AllowFinding| finding_view(f)) == start + comment_findings(
                    *reg,
                    *table,
                    rules,
                    acs,
                    ds,
                    src@,
                    *index,
                    *comment,
                    k as int,
                ),
            decreases comment.codes@.len() - k,
        {
            let c = &comment.codes[k];
            let ghost before = findings@.map_values(|f: AllowFinding| finding_view(f));
            let ghost expected = code_findings(*reg, *table, rules, acs, ds, src@, *index, *comment, k as int);
            match reg.redirect_target(c.code.as_str()) {
                Some(t) => {
                    if table.enabled(rules.redirected) {
                        proof {
                            lemma_redirect_resolves(reg.redirects@, reg.rules@, c.code@);
                            lemma_code_position_bound(reg.rules@, t@);
                        }
                        match reg.from_code(t) {
                            Some(e) => {
                                let edit = Edit::range_replacement(e.name.clone(), c.loc);
                                let f = AllowFinding {
                                    kind: AllowViolationKind::RedirectedAllowComment,
                                    rule: c.code.clone(),
                                    redirect: Some(
                                        Redirect {
                                            redirect: t.to_owned(),
                                            new_code: e.code.clone(),
                                            new_name: e.name.clone(),
                                        },
                                    ),
                                    loc: c.loc,
                                    fix: safe_fix(edit),
                                };
                                push_finding(&mut findings, f);
                            },
                            None => {
                                assert(false);
                            },
                        }
                    }
                },
                None => {},
            }
            let ghost mid = findings@.map_values(|f: AllowFinding| finding_view(f));
            let kind = match c.rule {
                None => Some(AllowViolationKind::InvalidRuleCodeOrName),
                Some(r) => {
                    let duplicate = seen.contains(r);
                    seen.insert(r);
                    if duplicate {
                        Some(AllowViolationKind::DuplicatedAllowComment)
                    } else if !table.enabled(r) {
                        Some(AllowViolationKind::DisabledAllowComment)
                    } else if !used.contains(r) {
                        Some(AllowViolationKind::UnusedAllowComment)
                    } else {
                        None
                    }
                },
            };
            proof {
                assert(kind == problem_of(*table, acs, ds, *comment, k as int));
            }
            let edit = remove_code_from_allow_comment(src, index, comment, k);
            match kind {
                Some(kind) => {
                    if table.enabled(rules.rule_for(kind)) {
                        let f = AllowFinding {
                            kind,
                            rule: c.code.clone(),
                            redirect: None,
                            loc: c.loc,
                            fix: safe_fix(edit),
                        };
                        push_finding(&mut findings, f);
                    }
                },
                None => {},
            }
            proof {
                assert(findings@.map_values(|f: AllowFinding| finding_view(f)) =~= before + expected);
                assert forall|r: Rule| seen.has(r) <==> allowed_before(comment.codes@, k + 1, r) by {
                    if allowed_before(comment.codes@, k + 1, r) && !allowed_before(comment.codes@, k as int, r) {
                        let j = choose|j: int| 0 <= j < k + 1 && #[trigger] comment.codes@[j].rule == Some(r);
                        assert(j == k);
                    }
                    if seen.has(r) && !allowed_before(comment.codes@, k as int, r) {
                        assert(comment.codes@[k as int].rule == Some(r));
                    }
                }
            }
            k = k + 1;
        }
        a = a + 1;
    }
    (ignored, findings)
}

} // verus!
