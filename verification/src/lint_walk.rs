//! Checking one file: the walk over its syntax tree that reports syntax errors, runs the rules
//! of each node's kind and gathers allow comments, and what is kept of what it found.
use vstd::prelude::*;
use crate::allow_comments::{
    allow_list, allowed_range, code_pattern, is_code_of, regex_matches,
    all_findings, check_allow_comments, diagnostic_range, editable, finding_view, gather_allow_comments,
    redirects_resolve, silenced_positions, AllowComment, AllowCommentRules, AllowFinding, CommentNode, Registry,
};
use crate::check_path::{increasing_below, keep_violations, kept_violations, start_keys, unsilenced};
use crate::diagnostics::{create_lint_diagnostic, Applicability, Diagnostic, Fix, LintName};
use crate::diff::{bytes_text, slice_bytes};
use crate::lints::{
    is_dimension_qualifier, lacks_double_colon, magic_number_text, magic_numbers_in_size,
    missing_double_colon, missing_double_colon_fix_title, missing_double_colon_text, parse_i32,
    size_literals, SizeEntry,
};
use crate::order::sorted_by_points;
use crate::range::TextRange;
use crate::rules::{Rule, RuleSet, RuleTable};
use crate::source::SourceFile;
use crate::syntax::{range_in, SyntaxNode, SyntaxNodes};
use crate::text::{chars_of, str_eq, string_of, utf8_len};

verus! {

/// A rule as its violations name it: its identifier, its name and its short code.
#[derive(Debug, Clone)]
pub struct LintRule {
    pub rule: Rule,
    pub name: LintName,
    pub code: String,
}

/// The rules that a check of a file runs or refers to, and where their documentation lives.
#[derive(Debug, Clone)]
pub struct CheckRules {
    pub syntax_error: LintRule,
    pub missing_double_colon: LintRule,
    pub magic_number_in_array_size: LintRule,
    pub allow: AllowCommentRules,
    /// The rules that read the syntax tree.
    pub ast_rules: RuleSet,
    pub homepage: String,
}

/// The text of the node `n` of `text`.
pub open spec fn node_text(text: Seq<char>, n: SyntaxNode) -> Seq<char> {
    bytes_text(text, n.range.start as int, n.range.end as int)
}

/// A fix as plain values: its applicability and, for each edit, its range and the text it puts
/// there.
pub type FixView = (Applicability, Seq<(TextRange, Option<Seq<char>>)>);

/// The fix `f` as plain values.
pub open spec fn fix_view(f: Option<Fix>) -> Option<FixView> {
    match f {
        Some(f) => Some(
            (
                f.applicability,
                Seq::new(
                    f.edits@.len(),
                    |k: int|
                        (
                            f.edits@[k].range,
                            match f.edits@[k].content {
                                Some(c) => Some(c@),
                                None => None,
                            },
                        ),
                ),
            ),
        ),
        None => None,
    }
}

/// The rule, range, message and fix of a violation.
pub type ViolationKey = (Option<Rule>, TextRange, Seq<char>, Option<FixView>);

/// The rule, range, message and fix of a violation.
pub open spec fn violation_key(d: Diagnostic) -> ViolationKey {
    (d.rule, diagnostic_range(d), d.message@, fix_view(d.fix))
}

/// The rules, ranges and messages of the violations `ds`.
pub open spec fn violation_keys(ds: Seq<Diagnostic>) -> Seq<ViolationKey> {
    Seq::new(ds.len(), |i: int| violation_key(ds[i]))
}

/// The position of the first child of the node `i` from its `j`-th on that its parent holds in
/// the field `field`.
pub open spec fn child_in_field(t: SyntaxNodes, i: int, field: Seq<char>, j: int) -> Option<usize>
    decreases t.nodes@[i].children@.len() - j,
{
    let cs = t.nodes@[i].children@;
    if j < 0 || j >= cs.len() {
        None
    } else if t.nodes@[cs[j] as int].field matches Some(f) && f@ == field {
        Some(cs[j])
    } else {
        child_in_field(t, i, field, j + 1)
    }
}

/// Whether the declaration node `i` of `text` lacks `::` among its children and has a
/// declarator: the case the missing-double-colon rule reports.
pub open spec fn lacks_colons(t: SyntaxNodes, text: Seq<char>, i: int) -> bool {
    &&& forall|j: int|
        0 <= j < t.nodes@[i].children@.len() ==> node_text(text, t.nodes@[#[trigger] t.nodes@[i].children@[j] as int])
            != "::"@
    &&& child_in_field(t, i, "declarator"@, 0) is Some
}

/// The fix of a declaration node `i` that lacks `::`: the safe insertion of `:: ` where its
/// first declarator starts.
pub open spec fn colon_fix(t: SyntaxNodes, i: int) -> Option<FixView> {
    let s = t.nodes@[child_in_field(t, i, "declarator"@, 0).unwrap() as int].range.start;
    Some((Applicability::Safe, seq![(TextRange { start: s, end: s }, Some(":: "@))]))
}

/// The violations that the node `i` of `text` gives: a syntax error where the parser inserted a
/// missing node, a missing `::` in a declaration, and the magic numbers of an array size, each
/// when its rule is enabled.
pub open spec fn node_keys(t: SyntaxNodes, text: Seq<char>, table: RuleTable, rules: CheckRules, i: int) -> Seq<
    ViolationKey,
> {
    let n = t.nodes@[i];
    (if n.missing && table.is_enabled(rules.syntax_error.rule) {
        seq![(Some(rules.syntax_error.rule), n.range, "Syntax error"@, None)]
    } else {
        Seq::empty()
    }) + if n.kind@ == "variable_declaration"@ && table.is_enabled(rules.missing_double_colon.rule) && lacks_colons(
        t,
        text,
        i,
    ) {
        seq![(Some(rules.missing_double_colon.rule), n.range, crate::lints::missing_double_colon_message(), colon_fix(t, i))]
    } else {
        Seq::empty()
    } + if sizes_read(t, table, rules, i) {
        size_keys(t, text, rules.magic_number_in_array_size.rule, i)
    } else {
        Seq::empty()
    }
}

/// Whether the node `i` is one whose array size the magic-number rule reads.
pub open spec fn sizes_read(t: SyntaxNodes, table: RuleTable, rules: CheckRules, i: int) -> bool {
    &&& (t.nodes@[i].kind@ == "type_qualifier"@ || t.nodes@[i].kind@ == "sized_declarator"@)
    &&& table.is_enabled(rules.magic_number_in_array_size.rule)
}

/// Whether every number of the array size that the magic-number rule reads at the node `i` of
/// `text` is an `i32` (or the rule does not read one there).
pub open spec fn node_sizes_fit(t: SyntaxNodes, text: Seq<char>, table: RuleTable, rules: CheckRules, i: int) -> bool {
    sizes_read(t, table, rules, i) ==> match size_of_node(t, text, i) {
        Some(s) => {
            let lits = size_literal_texts(t, text, s as int, t.nodes@[s as int].children@.len() as int);
            forall|k: int| 0 <= k < lits.len() ==> crate::lints::parsed_i32(#[trigger] lits[k].0) is Some
        },
        None => true,
    }
}

/// Whether the array sizes that the magic-number rule reads among the first `n` nodes hold only
/// `i32` numbers.
pub open spec fn sizes_fit(t: SyntaxNodes, text: Seq<char>, table: RuleTable, rules: CheckRules, n: int) -> bool {
    forall|i: int| 0 <= i < n ==> #[trigger] node_sizes_fit(t, text, table, rules, i)
}

/// The position of the first named child of the node `i`, from its `j`-th on, of kind `kind`.
pub open spec fn first_named_kind(t: SyntaxNodes, i: int, kind: Seq<char>, j: int) -> Option<usize>
    decreases t.nodes@[i].children@.len() - j,
{
    let cs = t.nodes@[i].children@;
    if j < 0 || j >= cs.len() {
        None
    } else if t.nodes@[cs[j] as int].named && t.nodes@[cs[j] as int].kind@ == kind {
        Some(cs[j])
    } else {
        first_named_kind(t, i, kind, j + 1)
    }
}

/// The array size that the magic-number rule reads at the node `i` of `text`: the argument list
/// of a `dimension` type qualifier (its first child, in any case), or the size of a sized
/// declarator.
pub open spec fn size_of_node(t: SyntaxNodes, text: Seq<char>, i: int) -> Option<usize> {
    let n = t.nodes@[i];
    if n.kind@ == "type_qualifier"@ {
        if n.children@.len() == 0 {
            None
        } else if crate::ast::eq_ascii_case(node_text(text, t.nodes@[n.children@[0] as int]), "dimension"@) {
            first_named_kind(t, i, "argument_list"@, 0)
        } else {
            None
        }
    } else {
        first_named_kind(t, i, "size"@, 0)
    }
}

/// The number literals among the first `k` children of the node `c`, with their ranges.
pub open spec fn bound_literals(t: SyntaxNodes, text: Seq<char>, c: int, k: int) -> Seq<(Seq<char>, TextRange)>
    decreases k,
{
    if k <= 0 {
        Seq::empty()
    } else {
        let m = t.nodes@[t.nodes@[c].children@[k - 1] as int];
        bound_literals(t, text, c, k - 1) + if m.named && m.kind@ == "number_literal"@ {
            seq![(node_text(text, m), m.range)]
        } else {
            Seq::empty()
        }
    }
}

/// The number literals of an entry `c` of an array size: the entry itself when it is one, the
/// bounds that are numbers when it is an extent.
pub open spec fn entry_literals(t: SyntaxNodes, text: Seq<char>, c: int) -> Seq<(Seq<char>, TextRange)> {
    let n = t.nodes@[c];
    if n.named && n.kind@ == "number_literal"@ {
        seq![(node_text(text, n), n.range)]
    } else if n.named && n.kind@ == "extent_specifier"@ {
        bound_literals(t, text, c, n.children@.len() as int)
    } else {
        Seq::empty()
    }
}

/// The number literals of the first `k` entries of the array size `s`, in order.
pub open spec fn size_literal_texts(t: SyntaxNodes, text: Seq<char>, s: int, k: int) -> Seq<(Seq<char>, TextRange)>
    decreases k,
{
    if k <= 0 {
        Seq::empty()
    } else {
        size_literal_texts(t, text, s, k - 1) + entry_literals(t, text, t.nodes@[s].children@[k - 1] as int)
    }
}

/// The violations of `rule` that the number literals `lits` give: one at each literal whose value
/// is not 0 to 4.
pub open spec fn magic_keys(lits: Seq<(Seq<char>, TextRange)>, rule: Rule) -> Seq<ViolationKey>
    decreases lits.len(),
{
    if lits.len() == 0 {
        Seq::empty()
    } else {
        magic_keys(lits.drop_last(), rule) + if crate::lints::allowed_literal(
            crate::lints::parsed_i32(lits.last().0).unwrap() as int,
        ) {
            Seq::empty()
        } else {
            seq![(
                Some(rule),
                lits.last().1,
                crate::lints::magic_number_message(crate::lints::parsed_i32(lits.last().0).unwrap()),
                None,
            )]
        }
    }
}

/// Whether the literal `l` has a value outside 0 to 4.
pub open spec fn literal_outside_zero_to_four() -> spec_fn((Seq<char>, TextRange)) -> bool {
    |l: (Seq<char>, TextRange)| {
        let v = crate::lints::parsed_i32(l.0).unwrap();
        v < 0 || v > 4
    }
}

/// The violation of `rule` at the literal `l`: its range, and the message naming its value.
pub open spec fn literal_violation(rule: Rule) -> spec_fn((Seq<char>, TextRange)) -> ViolationKey {
    |l: (Seq<char>, TextRange)| (
        Some(rule),
        l.1,
        crate::lints::magic_number_message(crate::lints::parsed_i32(l.0).unwrap()),
        None,
    )
}

/// The magic-number rule reports, in order, one violation at each literal of an array size whose
/// value lies outside 0 to 4, and none at the others.
pub proof fn lemma_magic_keys_outside_zero_to_four(lits: Seq<(Seq<char>, TextRange)>, rule: Rule)
    ensures
        magic_keys(lits, rule) == lits.filter(literal_outside_zero_to_four()).map_values(literal_violation(rule)),
    decreases lits.len(),
{
    reveal(Seq::filter);
    if lits.len() > 0 {
        lemma_magic_keys_outside_zero_to_four(lits.drop_last(), rule);
        let f = lits.drop_last().filter(literal_outside_zero_to_four());
        if literal_outside_zero_to_four()(lits.last()) {
            assert(f.push(lits.last()).map_values(literal_violation(rule)) =~= f.map_values(literal_violation(rule)).push(
                literal_violation(rule)(lits.last()),
            ));
        }
    } else {
        assert(lits.filter(literal_outside_zero_to_four()) =~= Seq::<(Seq<char>, TextRange)>::empty());
    }
}

/// The texts and ranges of the literals `lits`.
pub open spec fn literal_views(lits: Seq<(String, TextRange)>) -> Seq<(Seq<char>, TextRange)> {
    Seq::new(lits.len(), |i: int| (lits[i].0@, lits[i].1))
}

/// The violations that the magic-number rule gives at the node `i` of `text`.
pub open spec fn size_keys(t: SyntaxNodes, text: Seq<char>, rule: Rule, i: int) -> Seq<ViolationKey> {
    match size_of_node(t, text, i) {
        Some(s) => magic_keys(size_literal_texts(t, text, s as int, t.nodes@[s as int].children@.len() as int), rule),
        None => Seq::empty(),
    }
}

fn node_string(file: &SourceFile, n: &SyntaxNode) -> (s: String)
    requires
        file.wf(),
        range_in(file.text@, n.range),
    ensures
        s@ == node_text(file.text@, *n),
{
    let v = slice_bytes(file.text.as_slice(), n.range.start, n.range.end);
    string_of(v.as_slice())
}

fn first_in_field(t: &SyntaxNodes, i: usize, field: &str) -> (r: Option<usize>)
    requires
        i < t.nodes@.len(),
        forall|j: int| 0 <= j < t.nodes@[i as int].children@.len() ==> #[trigger] t.nodes@[i as int].children@[j] < t.nodes@.len(),
    ensures
        r == child_in_field(*t, i as int, field@, 0),
        r matches Some(c) ==> c < t.nodes@.len(),
{
    let cs = &t.nodes[i].children;
    let mut j = cs.len();
    let mut found: Option<usize> = None;
    assert(child_in_field(*t, i as int, field@, j as int) is None);
    while j > 0
        invariant
            j <= cs@.len(),
            *cs == t.nodes@[i as int].children,
            i < t.nodes@.len(),
            found == child_in_field(*t, i as int, field@, j as int),
            found matches Some(c) ==> c < t.nodes@.len(),
            forall|k: int| 0 <= k < t.nodes@[i as int].children@.len() ==> #[trigger] t.nodes@[i as int].children@[k] < t.nodes@.len(),
        decreases j,
    {
        j = j - 1;
        let c = cs[j];
        let hit = match &t.nodes[c].field {
            Some(f) => str_eq(f.as_str(), field),
            None => false,
        };
        if hit {
            found = Some(c);
        }
        assert(found == child_in_field(*t, i as int, field@, j as int));
    }
    found
}

fn lint_diagnostic(
    rule: &LintRule,
    homepage: &str,
    body: String,
    suggestion: Option<String>,
    range: TextRange,
    fix: Option<crate::diagnostics::Fix>,
    file: &SourceFile,
) -> (d: Diagnostic)
    ensures
        d.rule == Some(rule.rule),
        diagnostic_range(d) == range,
        d.message == body,
        d.fix == fix,
{
    let d = create_lint_diagnostic(body, suggestion, range, fix, file.clone(), rule.rule, rule.name, rule.code.clone(), homepage);
    assert(crate::diagnostics::first_primary(d.annotations@) == Some(0int));
    d
}

fn declaration_lint(t: &SyntaxNodes, i: usize, file: &SourceFile, rule: &LintRule, homepage: &str) -> (r: Option<
    Diagnostic,
>)
    requires
        file.wf(),
        t.wf(file.text@),
        i < t.nodes@.len(),
    ensures
        r is Some <==> lacks_colons(*t, file.text@, i as int),
        r matches Some(d) ==> violation_key(d) == (
            Some(rule.rule),
            t.nodes@[i as int].range,
            crate::lints::missing_double_colon_message(),
            colon_fix(*t, i as int),
        ),
{
    let cs = &t.nodes[i].children;
    let mut texts: Vec<String> = Vec::new();
    let mut j: usize = 0;
    while j < cs.len()
        invariant
            j <= cs@.len(),
            *cs == t.nodes@[i as int].children,
            i < t.nodes@.len(),
            file.wf(),
            t.wf(file.text@),
            texts@.len() == j,
            forall|k: int| 0 <= k < j ==> (#[trigger] texts@[k])@ == node_text(file.text@, t.nodes@[cs@[k] as int]),
        decreases cs@.len() - j,
    {
        let c = cs[j];
        assert(c < t.nodes@.len());
        texts.push(node_string(file, &t.nodes[c]));
        j = j + 1;
    }
    let first = match first_in_field(t, i, "declarator") {
        Some(c) => Some(t.nodes[c].range.start),
        None => None,
    };
    proof {
        assert(lacks_double_colon(texts@) <==> forall|j: int|
            0 <= j < t.nodes@[i as int].children@.len() ==> node_text(file.text@, t.nodes@[#[trigger] t.nodes@[i as int].children@[j] as int])
                != "::"@) by {
            if lacks_double_colon(texts@) {
                assert forall|j: int| 0 <= j < t.nodes@[i as int].children@.len() implies node_text(
                    file.text@,
                    t.nodes@[#[trigger] t.nodes@[i as int].children@[j] as int],
                ) != "::"@ by {
                    assert(texts@[j]@ != "::"@);
                }
            }
        }
    }
    match missing_double_colon(&texts, first) {
        Some(fix) => {
            assert(fix_view(Some(fix)).unwrap().1 =~= colon_fix(*t, i as int).unwrap().1);
            Some(
            lint_diagnostic(
                rule,
                homepage,
                missing_double_colon_text().to_string(),
                Some(missing_double_colon_fix_title().to_string()),
                t.nodes[i].range,
                Some(fix),
                file,
            ),
        )
        },
        None => None,
    }
}

fn named_child_of_kind(t: &SyntaxNodes, i: usize, kind: &str) -> (r: Option<usize>)
    requires
        i < t.nodes@.len(),
        forall|j: int| 0 <= j < t.nodes@[i as int].children@.len() ==> #[trigger] t.nodes@[i as int].children@[j] < t.nodes@.len(),
    ensures
        r == first_named_kind(*t, i as int, kind@, 0),
        r matches Some(c) ==> c < t.nodes@.len(),
{
    let cs = &t.nodes[i].children;
    let mut j: usize = 0;
    while j < cs.len()
        invariant
            j <= cs@.len(),
            *cs == t.nodes@[i as int].children,
            i < t.nodes@.len(),
            forall|k: int| 0 <= k < t.nodes@[i as int].children@.len() ==> #[trigger] t.nodes@[i as int].children@[k] < t.nodes@.len(),
            first_named_kind(*t, i as int, kind@, 0) == first_named_kind(*t, i as int, kind@, j as int),
        decreases cs@.len() - j,
    {
        let c = cs[j];
        if t.nodes[c].named && str_eq(t.nodes[c].kind.as_str(), kind) {
            return Some(c);
        }
        j = j + 1;
    }
    None
}

/// The number literals of the size entry `e`.
pub open spec fn own_literals(e: SizeEntry) -> Seq<(String, TextRange)> {
    match e {
        SizeEntry::Number(t, r) => seq![(t, r)],
        SizeEntry::Extent(bounds) => bounds@,
        SizeEntry::Other => Seq::empty(),
    }
}

proof fn lemma_literals_push(entries: Seq<SizeEntry>, e: SizeEntry)
    ensures
        literal_views(size_literals(entries.push(e))) == literal_views(size_literals(entries)) + literal_views(
            own_literals(e),
        ),
{
    assert(entries.push(e).drop_last() =~= entries);
    assert(size_literals(entries.push(e)) == size_literals(entries) + own_literals(e));
    assert(literal_views(size_literals(entries) + own_literals(e)) =~= literal_views(size_literals(entries))
        + literal_views(own_literals(e)));
}

fn size_entries(t: &SyntaxNodes, size: usize, file: &SourceFile) -> (entries: Vec<SizeEntry>)
    requires
        file.wf(),
        t.wf(file.text@),
        size < t.nodes@.len(),
    ensures
        literal_views(size_literals(entries@)) == size_literal_texts(
            *t,
            file.text@,
            size as int,
            t.nodes@[size as int].children@.len() as int,
        ),
{
    let cs = &t.nodes[size].children;
    let mut entries: Vec<SizeEntry> = Vec::new();
    let mut j: usize = 0;
    assert(literal_views(size_literals(entries@)) =~= Seq::<(Seq<char>, TextRange)>::empty());
    while j < cs.len()
        invariant
            j <= cs@.len(),
            *cs == t.nodes@[size as int].children,
            size < t.nodes@.len(),
            file.wf(),
            t.wf(file.text@),
            literal_views(size_literals(entries@)) == size_literal_texts(*t, file.text@, size as int, j as int),
        decreases cs@.len() - j,
    {
        let c = cs[j];
        assert(c < t.nodes@.len());
        let n = &t.nodes[c];
        let ghost before = entries@;
        let ghost own = entry_literals(*t, file.text@, c as int);
        if n.named && str_eq(n.kind.as_str(), "number_literal") {
            let e = SizeEntry::Number(node_string(file, n), n.range);
            proof {
                lemma_literals_push(before, e);
                assert(literal_views(own_literals(e)) =~= own);
            }
            entries.push(e);
        } else if n.named && str_eq(n.kind.as_str(), "extent_specifier") {
            let mut bounds: Vec<(String, TextRange)> = Vec::new();
            let mut k: usize = 0;
            assert(literal_views(bounds@) =~= Seq::<(Seq<char>, TextRange)>::empty());
            while k < n.children.len()
                invariant
                    k <= n.children@.len(),
                    c < t.nodes@.len(),
                    *n == t.nodes@[c as int],
                    file.wf(),
                    t.wf(file.text@),
                    literal_views(bounds@) == bound_literals(*t, file.text@, c as int, k as int),
                decreases n.children@.len() - k,
            {
                let b = n.children[k];
                assert(b < t.nodes@.len());
                let m = &t.nodes[b];
                if m.named && str_eq(m.kind.as_str(), "number_literal") {
                    let lit = (node_string(file, m), m.range);
                    bounds.push(lit);
                }
                assert(literal_views(bounds@) =~= bound_literals(*t, file.text@, c as int, k + 1));
                k = k + 1;
            }
            let e = SizeEntry::Extent(bounds);
            proof {
                lemma_literals_push(before, e);
                assert(literal_views(own_literals(e)) =~= own);
            }
            entries.push(e);
        } else {
            proof {
                lemma_literals_push(before, SizeEntry::Other);
                assert(literal_views(own_literals(SizeEntry::Other)) =~= own);
            }
            entries.push(SizeEntry::Other);
        }
        assert(literal_views(size_literals(entries@)) =~= size_literal_texts(*t, file.text@, size as int, j + 1));
        j = j + 1;
    }
    entries
}

fn literals_fit(entries: &Vec<SizeEntry>) -> (b: bool)
    ensures
        b == forall|i: int|
            0 <= i < size_literals(entries@).len() ==> crate::lints::parsed_i32(#[trigger] size_literals(entries@)[i].0@) is Some,
{
    let ghost lits = size_literals(entries@);
    let mut i: usize = 0;
    while i < entries.len()
        invariant
            i <= entries@.len(),
            lits == size_literals(entries@),
            forall|k: int|
                0 <= k < size_literals(entries@.take(i as int)).len() ==> crate::lints::parsed_i32(
                    #[trigger] size_literals(entries@.take(i as int))[k].0@,
                ) is Some,
        decreases entries@.len() - i,
    {
        let ghost prefix = size_literals(entries@.take(i as int));
        assert(entries@.take(i + 1).drop_last() =~= entries@.take(i as int));
        let ghost own = match entries@[i as int] {
            SizeEntry::Number(t, rg) => seq![(t, rg)],
            SizeEntry::Extent(bounds) => bounds@,
            SizeEntry::Other => Seq::empty(),
        };
        assert(size_literals(entries@.take(i + 1)) == prefix + own);
        match &entries[i] {
            SizeEntry::Number(text, _) => {
                if parse_i32(text.as_str()).is_none() {
                    proof {
                        lemma_literals_prefix(entries@, i + 1);
                        assert(size_literals(entries@.take(i + 1))[prefix.len() as int] == own[0]);
                        assert(own[0].0 == *text);
                        assert(size_literals(entries@)[prefix.len() as int] == own[0]);
                        assert(crate::lints::parsed_i32(size_literals(entries@)[prefix.len() as int].0@) is None);
                    }
                    return false;
                }
            },
            SizeEntry::Extent(bounds) => {
                let mut k: usize = 0;
                while k < bounds.len()
                    invariant
                        k <= bounds@.len(),
                        own == bounds@,
                        i < entries@.len(),
                        prefix == size_literals(entries@.take(i as int)),
                        size_literals(entries@.take(i + 1)) == prefix + own,
                        forall|m: int| 0 <= m < k ==> crate::lints::parsed_i32(#[trigger] bounds@[m].0@) is Some,
                    decreases bounds@.len() - k,
                {
                    if parse_i32(bounds[k].0.as_str()).is_none() {
                        proof {
                            lemma_literals_prefix(entries@, i + 1);
                            assert(size_literals(entries@.take(i + 1))[prefix.len() + k] == own[k as int]);
                            assert(size_literals(entries@)[prefix.len() + k] == own[k as int]);
                            assert(crate::lints::parsed_i32(size_literals(entries@)[prefix.len() + k].0@) is None);
                        }
                        return false;
                    }
                    k = k + 1;
                }
            },
            SizeEntry::Other => {},
        }
        proof {
            assert forall|k: int|
                0 <= k < size_literals(entries@.take(i + 1)).len() implies crate::lints::parsed_i32(
                #[trigger] size_literals(entries@.take(i + 1))[k].0@,
            ) is Some by {
                if k >= prefix.len() {
                    assert(size_literals(entries@.take(i + 1))[k] == own[k - prefix.len()]);
                } else {
                    assert(size_literals(entries@.take(i + 1))[k] == prefix[k]);
                }
            }
        }
        i = i + 1;
    }
    assert(entries@.take(i as int) =~= entries@);
    true
}

proof fn lemma_literals_prefix(entries: Seq<SizeEntry>, n: int)
    requires
        0 <= n <= entries.len(),
    ensures
        size_literals(entries.take(n)).len() <= size_literals(entries).len(),
        forall|k: int|
            0 <= k < size_literals(entries.take(n)).len() ==> size_literals(entries)[k] == #[trigger] size_literals(
                entries.take(n),
            )[k],
    decreases entries.len() - n,
{
    if n < entries.len() {
        lemma_literals_prefix(entries, n + 1);
        assert(entries.take(n + 1).drop_last() =~= entries.take(n));
        assert forall|k: int| 0 <= k < size_literals(entries.take(n)).len() implies size_literals(entries)[k]
            == #[trigger] size_literals(entries.take(n))[k] by {
            assert(size_literals(entries.take(n + 1))[k] == size_literals(entries.take(n))[k]);
        }
    } else {
        assert(entries.take(n) =~= entries);
    }
}

/// The violations that the walk finds in the first `n` nodes, in order.
pub open spec fn walk_keys(t: SyntaxNodes, text: Seq<char>, table: RuleTable, rules: CheckRules, n: int) -> Seq<
    ViolationKey,
>
    decreases n,
{
    if n <= 0 {
        Seq::empty()
    } else {
        walk_keys(t, text, table, rules, n - 1) + node_keys(t, text, table, rules, n - 1)
    }
}

fn push_violation(vs: &mut Vec<Diagnostic>, d: Diagnostic)
    ensures
        final(vs)@ == old(vs)@.push(d),
        violation_keys(final(vs)@) == violation_keys(old(vs)@).push(violation_key(d)),
{
    vs.push(d);
    assert(violation_keys(vs@) =~= violation_keys(old(vs)@).push(violation_key(d)));
}

/// The violations of `rule` at the ranges of the magic numbers `ms`.
pub open spec fn range_keys(ms: Seq<(i32, TextRange)>, rule: Rule) -> Seq<ViolationKey> {
    Seq::new(ms.len(), |k: int| (Some(rule), ms[k].1, crate::lints::magic_number_message(ms[k].0), None))
}

proof fn lemma_magic_keys(lits: Seq<(String, TextRange)>, rule: Rule)
    ensures
        range_keys(crate::lints::magic_numbers(lits), rule) == magic_keys(literal_views(lits), rule),
    decreases lits.len(),
{
    if lits.len() > 0 {
        lemma_magic_keys(lits.drop_last(), rule);
        assert(literal_views(lits).drop_last() =~= literal_views(lits.drop_last()));
        assert(literal_views(lits).last() == (lits.last().0@, lits.last().1));
        let prev = crate::lints::magic_numbers(lits.drop_last());
        let v = crate::lints::parsed_i32(lits.last().0@).unwrap();
        if crate::lints::allowed_literal(v as int) {
            assert(crate::lints::magic_numbers(lits) =~= prev);
        } else {
            assert(crate::lints::magic_numbers(lits) =~= prev.push((v, lits.last().1)));
            assert(range_keys(prev.push((v, lits.last().1)), rule) =~= range_keys(prev, rule).push(
                (Some(rule), lits.last().1, crate::lints::magic_number_message(v), None),
            ));
        }
    } else {
        assert(range_keys(crate::lints::magic_numbers(lits), rule) =~= Seq::empty());
    }
}

/// Adds to `vs` the violations of the magic-number rule in the array size of the node `i` (see
/// [`size_keys`]). Returns `false`, adding nothing, when a number in that size is not an `i32`.
fn size_lint(vs: &mut Vec<Diagnostic>, t: &SyntaxNodes, i: usize, file: &SourceFile, rule: &LintRule, homepage: &str) -> (ok:
    bool)
    requires
        file.wf(),
        t.wf(file.text@),
        i < t.nodes@.len(),
    ensures
        ok ==> violation_keys(final(vs)@) == violation_keys(old(vs)@) + size_keys(*t, file.text@, rule.rule, i as int),
        ok <==> match size_of_node(*t, file.text@, i as int) {
            Some(s) => {
                let lits = size_literal_texts(*t, file.text@, s as int, t.nodes@[s as int].children@.len() as int);
                forall|k: int| 0 <= k < lits.len() ==> crate::lints::parsed_i32(#[trigger] lits[k].0) is Some
            },
            None => true,
        },
{
    let ghost start = violation_keys(vs@);
    let node = &t.nodes[i];
    let size = if str_eq(node.kind.as_str(), "type_qualifier") {
        if node.children.len() == 0 {
            assert(start + size_keys(*t, file.text@, rule.rule, i as int) =~= start);
            return true;
        }
        let first = node.children[0];
        assert(first < t.nodes@.len());
        let name = node_string(file, &t.nodes[first]);
        if !is_dimension_qualifier(name.as_str()) {
            proof {
                reveal_strlit("type_qualifier");
                assert(size_of_node(*t, file.text@, i as int) is None);
            }
            assert(start + size_keys(*t, file.text@, rule.rule, i as int) =~= start);
            return true;
        }
        proof {
            reveal_strlit("type_qualifier");
        }
        named_child_of_kind(t, i, "argument_list")
    } else {
        named_child_of_kind(t, i, "size")
    };
    assert(size == size_of_node(*t, file.text@, i as int));
    let size = match size {
        Some(s) => s,
        None => {
            assert(start + size_keys(*t, file.text@, rule.rule, i as int) =~= start);
            return true;
        },
    };
    let entries = size_entries(t, size, file);
    let fit = literals_fit(&entries);
    proof {
        let lits = size_literal_texts(*t, file.text@, size as int, t.nodes@[size as int].children@.len() as int);
        assert(literal_views(size_literals(entries@)) == lits);
        if fit {
            assert forall|k: int| 0 <= k < lits.len() implies crate::lints::parsed_i32(#[trigger] lits[k].0) is Some by {
                assert(lits[k].0 == size_literals(entries@)[k].0@);
            }
        } else {
            let k = choose|k: int|
                0 <= k < size_literals(entries@).len() && !(crate::lints::parsed_i32(#[trigger] size_literals(entries@)[k].0@) is Some);
            assert(lits[k].0 == size_literals(entries@)[k].0@);
        }
    }
    if !fit {
        return false;
    }
    let magic = magic_numbers_in_size(&entries);
    proof {
        lemma_magic_keys(size_literals(entries@), rule.rule);
    }
    let mut k: usize = 0;
    assert(range_keys(magic@.take(0), rule.rule) =~= Seq::empty());
    assert(start + Seq::<ViolationKey>::empty() =~= start);
    while k < magic.len()
        invariant
            k <= magic@.len(),
            violation_keys(vs@) == start + range_keys(magic@.take(k as int), rule.rule),
        decreases magic@.len() - k,
    {
        let (value, range) = magic[k];
        let d = lint_diagnostic(rule, homepage, magic_number_text(value), None, range, None, file);
        let ghost before = vs@;
        vs.push(d);
        assert(violation_keys(vs@) =~= violation_keys(before).push(violation_key(d)));
        assert(range_keys(magic@.take(k + 1), rule.rule) =~= range_keys(magic@.take(k as int), rule.rule).push(
            (Some(rule.rule), range, crate::lints::magic_number_message(value), None),
        ));
        k = k + 1;
    }
    assert(magic@.take(k as int) =~= magic@);
    true
}

proof fn lemma_node_text_len(text: Seq<char>, r: TextRange)
    requires
        range_in(text, r),
    ensures
        utf8_len(bytes_text(text, r.start as int, r.end as int)) == r.end - r.start,
{
    let p = crate::edits::pos_of(text, r.start as int);
    let q = crate::edits::pos_of(text, r.end as int);
    assert(crate::text::at_byte(text, p, r.start as int));
    assert(crate::text::at_byte(text, q, r.end as int));
    if q < p {
        crate::text::lemma_utf8_len_take_increasing(text, q, p);
    }
    crate::text::lemma_utf8_len_concat(text.take(p), text.subrange(p, q));
    assert(text.take(p) + text.subrange(p, q) =~= text.take(q));
}

/// The position, from the `j`-th on, at which `x` stands among `cs`.
pub open spec fn position_in(cs: Seq<usize>, x: usize, j: int) -> Option<int>
    decreases cs.len() - j,
{
    if j < 0 || j >= cs.len() {
        None
    } else if cs[j] == x {
        Some(j)
    } else {
        position_in(cs, x, j + 1)
    }
}

/// The first named node among `cs` from the `j`-th on.
pub open spec fn first_named_from(t: SyntaxNodes, cs: Seq<usize>, j: int) -> Option<usize>
    decreases cs.len() - j,
{
    if j < 0 || j >= cs.len() {
        None
    } else if t.nodes@[cs[j] as int].named {
        Some(cs[j])
    } else {
        first_named_from(t, cs, j + 1)
    }
}

/// The next named node beside the node `i`: the first named child of its parent after it.
pub open spec fn next_named_sibling(t: SyntaxNodes, i: int) -> Option<usize> {
    match t.nodes@[i].parent {
        Some(p) => match position_in(t.nodes@[p as int].children@, i as usize, 0) {
            Some(j) => first_named_from(t, t.nodes@[p as int].children@, j + 1),
            None => None,
        },
        None => None,
    }
}

/// The range of the next named node beside the node `i`, if there is one.
pub open spec fn next_sibling_range(t: SyntaxNodes, i: int) -> Option<TextRange> {
    match next_named_sibling(t, i) {
        Some(s) => Some(t.nodes@[s as int].range),
        None => None,
    }
}

fn sibling_range(t: &SyntaxNodes, i: usize, text: Ghost<Seq<char>>) -> (r: Option<TextRange>)
    requires
        t.wf(text@),
        i < t.nodes@.len(),
    ensures
        r == next_sibling_range(*t, i as int),
{
    let p = match t.nodes[i].parent {
        Some(p) => p,
        None => {
            return None;
        },
    };
    let cs = &t.nodes[p].children;
    let mut j: usize = 0;
    while j < cs.len() && cs[j] != i
        invariant
            j <= cs@.len(),
            p < t.nodes@.len(),
            *cs == t.nodes@[p as int].children,
            position_in(cs@, i, 0) == position_in(cs@, i, j as int),
        decreases cs@.len() - j,
    {
        j = j + 1;
    }
    if j == cs.len() {
        return None;
    }
    assert(position_in(cs@, i, j as int) == Some(j as int));
    let mut k = j + 1;
    while k < cs.len()
        invariant
            j < k <= cs@.len(),
            p < t.nodes@.len(),
            i < t.nodes@.len(),
            t.nodes@[i as int].parent == Some(p),
            position_in(cs@, i, 0) == Some(j as int),
            t.wf(text@),
            *cs == t.nodes@[p as int].children,
            first_named_from(*t, cs@, j + 1) == first_named_from(*t, cs@, k as int),
        decreases cs@.len() - k,
    {
        let c = cs[k];
        assert(c < t.nodes@.len());
        if t.nodes[c].named {
            return Some(t.nodes[c].range);
        }
        k = k + 1;
    }
    None
}

fn comment_of(t: &SyntaxNodes, i: usize, file: &SourceFile) -> (c: CommentNode)
    requires
        file.wf(),
        t.wf(file.text@),
        i < t.nodes@.len(),
    ensures
        c.kind@ == t.nodes@[i as int].kind@,
        c.range == t.nodes@[i as int].range,
        c.text@ == node_text(file.text@, t.nodes@[i as int]),
        utf8_len(c.text@) == c.range.end - c.range.start,
        c.next_named_sibling == next_sibling_range(*t, i as int),
{
    let n = &t.nodes[i];
    let next = sibling_range(t, i, Ghost(file.text@));
    proof {
        lemma_node_text_len(file.text@, n.range);
    }
    let kind = string_of(chars_of(n.kind.as_str()).as_slice());
    CommentNode { kind, text: node_string(file, n), range: n.range, next_named_sibling: next }
}

/// Whether the walk reads the node `i` of `text` as an allow comment: a comment, ending at
/// least eight bytes before the largest offset, whose text holds an allow list and which has a
/// named node after it.
pub open spec fn is_allow_node(t: SyntaxNodes, text: Seq<char>, i: int) -> bool {
    let n = t.nodes@[i];
    &&& n.kind@ == "comment"@
    &&& n.range.end <= u32::MAX - 8
    &&& allow_list(node_text(text, n)) is Some
    &&& next_named_sibling(t, i) is Some
}

/// The positions of the allow comments among the first `n` nodes, in order.
pub open spec fn allow_nodes(t: SyntaxNodes, text: Seq<char>, n: int) -> Seq<int>
    decreases n,
{
    if n <= 0 {
        Seq::empty()
    } else {
        allow_nodes(t, text, n - 1) + if is_allow_node(t, text, n - 1) {
            seq![n - 1]
        } else {
            Seq::empty()
        }
    }
}

/// Whether `ac` is what the allow comment at the node `i` of `text` reads as (see
/// [`gather_allow_comments`]): the comment's range, the lines of the next named node, and the
/// codes of its list.
pub open spec fn reads_as(t: SyntaxNodes, text: Seq<char>, index: crate::line_index::LineIndex, reg: Registry, i: int, ac: AllowComment) -> bool {
    let n = t.nodes@[i];
    let txt = node_text(text, n);
    let (a, b) = allow_list(txt).unwrap();
    let list = txt.subrange(a, b);
    &&& ac.node == n.range
    &&& ac.range == allowed_range(index, next_sibling_range(t, i).unwrap())
    &&& match regex_matches(code_pattern(), list) {
        Some(spans) => ac.codes@.len() == spans.len() && forall|k: int|
            0 <= k < spans.len() ==> is_code_of(reg, list, spans, n.range.start + 8, k, #[trigger] ac.codes@[k]),
        None => ac.codes@.len() == 0,
    }
}

/// Whether `acs` are what the allow comments among the first `n` nodes read as, in order.
pub open spec fn gathered(t: SyntaxNodes, text: Seq<char>, index: crate::line_index::LineIndex, reg: Registry, n: int, acs: Seq<AllowComment>) -> bool {
    &&& acs.len() == allow_nodes(t, text, n).len()
    &&& forall|k: int| 0 <= k < acs.len() ==> reads_as(t, text, index, reg, allow_nodes(t, text, n)[k], #[trigger] acs[k])
}

fn gather_step(t: &SyntaxNodes, i: usize, file: &SourceFile, reg: &Registry, acs: &mut Vec<AllowComment>)
    requires
        file.wf(),
        t.wf(file.text@),
        i < t.nodes@.len(),
        forall|a: int| 0 <= a < old(acs)@.len() ==> editable(file.text@, file.index, #[trigger] old(acs)@[a]),
        gathered(*t, file.text@, file.index, *reg, i as int, old(acs)@),
    ensures
        forall|a: int| 0 <= a < final(acs)@.len() ==> editable(file.text@, file.index, #[trigger] final(acs)@[a]),
        gathered(*t, file.text@, file.index, *reg, i + 1, final(acs)@),
{
    let node = &t.nodes[i];
    let ghost before_acs = acs@;
    proof {
        reveal_strlit("comment");
    }
    if str_eq(node.kind.as_str(), "comment") && node.range.end <= u32::MAX - 8 {
        let c = comment_of(t, i, file);
        match gather_allow_comments(&c, &file.index, reg) {
            Some(ac) => {
                acs.push(ac);
                proof {
                    assert(is_allow_node(*t, file.text@, i as int));
                    assert(reads_as(*t, file.text@, file.index, *reg, i as int, ac));
                }
            },
            None => {
                assert(!is_allow_node(*t, file.text@, i as int));
            },
        }
    }
    proof {
        let prev = allow_nodes(*t, file.text@, i as int);
        let next = allow_nodes(*t, file.text@, i + 1);
        if is_allow_node(*t, file.text@, i as int) {
            assert(next == prev.push(i as int));
            assert(acs@ == before_acs.push(acs@.last()));
            assert forall|k: int| 0 <= k < acs@.len() implies reads_as(
                *t,
                file.text@,
                file.index,
                *reg,
                next[k],
                #[trigger] acs@[k],
            ) by {
                if k < before_acs.len() {
                    assert(acs@[k] == before_acs[k]);
                    assert(next[k] == prev[k]);
                }
            }
        } else {
            assert(next =~= prev);
            assert(acs@ == before_acs);
        }
    }
}

/// Walks the syntax tree `t` of `file` in pre-order: reports a syntax error at each node that
/// the parser inserted for something missing, runs the missing-double-colon rule on
/// declarations and the magic-number rule on array sizes, each when enabled, and gathers the
/// allow comments. `None` when a number in an array size is not an `i32`.
#[verifier::rlimit(100)]
#[verifier::spinoff_prover]
pub fn walk_tree(t: &SyntaxNodes, file: &SourceFile, table: &RuleTable, reg: &Registry, rules: &CheckRules) -> (r:
    Option<(Vec<Diagnostic>, Vec<AllowComment>)>)
    requires
        file.wf(),
        t.wf(file.text@),
    ensures
        r is Some <==> sizes_fit(*t, file.text@, *table, *rules, t.nodes@.len() as int),
        r matches Some((ds, acs)) ==> {
            &&& violation_keys(ds@) == walk_keys(
                *t,
                file.text@,
                *table,
                *rules,
                t.nodes@.len() as int,
            )
            &&& forall|a: int| 0 <= a < acs@.len() ==> editable(file.text@, file.index, #[trigger] acs@[a])
            &&& gathered(*t, file.text@, file.index, *reg, t.nodes@.len() as int, acs@)
        },
{
    let magic = rules.magic_number_in_array_size.rule;
    let mut vs: Vec<Diagnostic> = Vec::new();
    let mut acs: Vec<AllowComment> = Vec::new();
    let mut i: usize = 0;
    while i < t.nodes.len()
        invariant
            i <= t.nodes@.len(),
            file.wf(),
            t.wf(file.text@),
            magic == rules.magic_number_in_array_size.rule,
            violation_keys(vs@) == walk_keys(*t, file.text@, *table, *rules, i as int),
            forall|a: int| 0 <= a < acs@.len() ==> editable(file.text@, file.index, #[trigger] acs@[a]),
            gathered(*t, file.text@, file.index, *reg, i as int, acs@),
            sizes_fit(*t, file.text@, *table, *rules, i as int),
        decreases t.nodes@.len() - i,
    {
        let node = &t.nodes[i];
        let ghost before = violation_keys(vs@);
        let ghost mut found: Seq<ViolationKey> = Seq::empty();
        if node.missing && table.enabled(rules.syntax_error.rule) {
            let d = lint_diagnostic(
                &rules.syntax_error,
                rules.homepage.as_str(),
                "Syntax error".to_string(),
                None,
                node.range,
                None,
                file,
            );
            push_violation(&mut vs, d);
            proof {
                found = seq![(Some(rules.syntax_error.rule), node.range, "Syntax error"@, None)];
            }
        }
        let ghost mid = found;
        if str_eq(node.kind.as_str(), "variable_declaration") && table.enabled(rules.missing_double_colon.rule) {
            match declaration_lint(t, i, file, &rules.missing_double_colon, rules.homepage.as_str()) {
                Some(d) => {
                    push_violation(&mut vs, d);
                    proof {
                        found = found + seq![(
                            Some(rules.missing_double_colon.rule),
                            node.range,
                            crate::lints::missing_double_colon_message(),
                            colon_fix(*t, i as int),
                        )];
                    }
                },
                None => {},
            }
        }
        proof {
            reveal_strlit("variable_declaration");
            assert(violation_keys(vs@) =~= before + found);
        }
        let is_size = str_eq(node.kind.as_str(), "type_qualifier") || str_eq(node.kind.as_str(), "sized_declarator");
        let ghost mid_keys = violation_keys(vs@);
        proof {
            reveal_strlit("type_qualifier");
            reveal_strlit("sized_declarator");
        }
        if is_size && table.enabled(magic) {
            if !size_lint(&mut vs, t, i, file, &rules.magic_number_in_array_size, rules.homepage.as_str()) {
                assert(!node_sizes_fit(*t, file.text@, *table, *rules, i as int));
                return None;
            }
        }
        assert(node_sizes_fit(*t, file.text@, *table, *rules, i as int));
        assert(sizes_fit(*t, file.text@, *table, *rules, i + 1));
        proof {
            reveal_strlit("type_qualifier");
            reveal_strlit("sized_declarator");
            let sizes = if sizes_read(*t, *table, *rules, i as int) {
                size_keys(*t, file.text@, magic, i as int)
            } else {
                Seq::empty()
            };
            assert(violation_keys(vs@) =~= mid_keys + sizes);
            assert(found + sizes =~= node_keys(*t, file.text@, *table, *rules, i as int));
            assert(violation_keys(vs@) =~= before + node_keys(*t, file.text@, *table, *rules, i as int));
        }
        gather_step(t, i, file, reg, &mut acs);
        i = i + 1;
    }
    Some((vs, acs))
}

/// Whether a check reads the allow comments of a file: when their silencing is applied and
/// there are violations, or when a rule on allow comments is enabled.
pub open spec fn reads_allow_comments(table: RuleTable, rules: AllowCommentRules, apply: bool, violations: nat) -> bool {
    (apply && violations > 0) || table.is_enabled(rules.redirected) || table.is_enabled(rules.invalid)
        || table.is_enabled(rules.duplicated) || table.is_enabled(rules.disabled) || table.is_enabled(rules.unused)
}

/// The positions of the violations `ds` that the allow comments `acs` silence, when they are
/// read.
pub open spec fn silenced_when(acs: Seq<AllowComment>, ds: Seq<Diagnostic>, read: bool) -> Seq<usize> {
    if read {
        silenced_positions(acs, ds, ds.len() as int)
    } else {
        Seq::empty()
    }
}

proof fn lemma_silenced_increasing(acs: Seq<AllowComment>, ds: Seq<Diagnostic>, n: int)
    requires
        0 <= n <= ds.len() <= usize::MAX,
    ensures
        increasing_below(silenced_positions(acs, ds, n), n),
    decreases n,
{
    if n > 0 {
        lemma_silenced_increasing(acs, ds, n - 1);
        let prev = silenced_positions(acs, ds, n - 1);
        let cur = silenced_positions(acs, ds, n);
        if crate::allow_comments::is_silenced(acs, ds[n - 1]) {
            assert(cur == prev.push((n - 1) as usize));
            assert forall|i: int, j: int| 0 <= i < j < cur.len() implies cur[i] < cur[j] by {
                if j < prev.len() {
                    assert(cur[i] == prev[i] && cur[j] == prev[j]);
                } else {
                    assert(cur[i] == prev[i]);
                    assert(prev[i] < n - 1);
                    assert(cur[j] == n - 1);
                }
            }
            assert forall|i: int| 0 <= i < cur.len() implies cur[i] < n by {
                if i < prev.len() {
                    assert(cur[i] == prev[i]);
                }
            }
        }
    }
}

/// The positions that allow comments silence increase and lie below the number of violations.
pub proof fn lemma_silenced_increasing_pub(acs: Seq<AllowComment>, ds: Seq<Diagnostic>)
    requires
        ds.len() <= usize::MAX,
    ensures
        increasing_below(silenced_positions(acs, ds, ds.len() as int), ds.len() as int),
{
    lemma_silenced_increasing(acs, ds, ds.len() as int);
}

/// What a check keeps of the violations `collected` that its walk found, given the allow
/// comments `acs` it gathered: see [`kept_violations`], with the positions that the comments
/// silence removed unless `ignore` holds, and `order` the order of what is left by start.
pub open spec fn checked(
    collected: Seq<Diagnostic>,
    acs: Seq<AllowComment>,
    order: Seq<usize>,
    has_error: bool,
    table: RuleTable,
    rules: CheckRules,
    ignore: bool,
) -> Seq<Diagnostic> {
    let read = reads_allow_comments(table, rules.allow, !ignore, collected.len());
    let silenced = silenced_when(acs, collected, read);
    kept_violations(collected, silenced, !ignore, has_error, rules.syntax_error.rule, rules.ast_rules, table, order)
}

/// Whether `order` is the stable order by start of the violations `collected` that are left
/// after those that the allow comments `acs` silence are removed (unless `ignore` holds).
pub open spec fn stable_order(
    collected: Seq<Diagnostic>,
    acs: Seq<AllowComment>,
    order: Seq<usize>,
    table: RuleTable,
    rules: CheckRules,
    ignore: bool,
) -> bool {
    let read = reads_allow_comments(table, rules.allow, !ignore, collected.len());
    sorted_by_points(order, start_keys(unsilenced(collected, silenced_when(acs, collected, read), !ignore)))
}

/// The problems found with the allow comments `acs` of `file` against the violations
/// `collected`, when the comments are read (see [`all_findings`]).
pub open spec fn allow_findings(
    collected: Seq<Diagnostic>,
    acs: Seq<AllowComment>,
    reg: Registry,
    table: RuleTable,
    rules: CheckRules,
    file: SourceFile,
    ignore: bool,
) -> Seq<
    (
        crate::allow_comments::AllowViolationKind,
        Seq<char>,
        Option<(Seq<char>, Seq<char>, Seq<char>)>,
        TextRange,
        crate::diagnostics::Applicability,
        Seq<(TextRange, Option<Seq<char>>)>,
    ),
> {
    if reads_allow_comments(table, rules.allow, !ignore, collected.len()) {
        all_findings(reg, table, rules.allow, acs, collected, file.text@, file.index, acs.len() as int)
    } else {
        Seq::empty()
    }
}

/// Whether the violations `ds` and the problems with allow comments `fs` are what a check of
/// `file`, whose syntax tree is `t`, gives: for the violations `collected` that the walk finds
/// (see [`walk_keys`]) and the allow comments `acs` it gathers (see [`gathered`]), what is kept
/// of them (see [`checked`]) in the stable order by start, and what is found on the comments
/// (see [`allow_findings`]).
pub open spec fn check_result(
    t: SyntaxNodes,
    file: SourceFile,
    table: RuleTable,
    reg: Registry,
    rules: CheckRules,
    ignore: bool,
    ds: Seq<Diagnostic>,
    fs: Seq<AllowFinding>,
) -> bool {
    exists|collected: Seq<Diagnostic>, acs: Seq<AllowComment>, order: Seq<usize>|
        {
            &&& violation_keys(collected) == walk_keys(t, file.text@, table, rules, t.nodes@.len() as int)
            &&& collected.len() <= usize::MAX
            &&& gathered(t, file.text@, file.index, reg, t.nodes@.len() as int, acs)
            &&& stable_order(collected, acs, order, table, rules, ignore)
            &&& ds == #[trigger] checked(collected, acs, order, t.has_error, table, rules, ignore)
            &&& fs.map_values(|f: AllowFinding| finding_view(f)) == allow_findings(
                collected,
                acs,
                reg,
                table,
                rules,
                file,
                ignore,
            )
        }
}

/// Checks the file `file` whose syntax tree is `t`: walks the tree (see [`walk_tree`]), reads
/// the allow comments when that is needed, removes the violations they silence unless
/// `ignore_allow_comments` holds, and keeps what can be trusted (see [`keep_violations`]).
/// Returns the violations kept and the problems found with the allow comments. `None` when a
/// number in an array size is not an `i32`.
pub fn check_path(
    t: &SyntaxNodes,
    file: &SourceFile,
    table: &RuleTable,
    reg: &Registry,
    rules: &CheckRules,
    ignore_allow_comments: bool,
) -> (r: Option<(Vec<Diagnostic>, Vec<AllowFinding>)>)
    requires
        file.wf(),
        t.wf(file.text@),
        table.wf(),
        redirects_resolve(*reg),
    ensures
        r is Some <==> sizes_fit(*t, file.text@, *table, *rules, t.nodes@.len() as int),
        r matches Some((ds, fs)) ==> check_result(*t, *file, *table, *reg, *rules, ignore_allow_comments, ds@, fs@),
{
    let (vs, acs) = match walk_tree(t, file, table, reg, rules) {
        Some(w) => w,
        None => {
            return None;
        },
    };
    let allow_rules = [
        rules.allow.redirected,
        rules.allow.invalid,
        rules.allow.duplicated,
        rules.allow.disabled,
        rules.allow.unused,
    ];
    let any_allow_rule = table.any_enabled(&allow_rules);
    proof {
        assert(any_allow_rule == (table.is_enabled(rules.allow.redirected) || table.is_enabled(rules.allow.invalid)
            || table.is_enabled(rules.allow.duplicated) || table.is_enabled(rules.allow.disabled)
            || table.is_enabled(rules.allow.unused))) by {
            if table.is_enabled(rules.allow.redirected) {
                assert(allow_rules@[0] == rules.allow.redirected);
            }
            if table.is_enabled(rules.allow.invalid) {
                assert(allow_rules@[1] == rules.allow.invalid);
            }
            if table.is_enabled(rules.allow.duplicated) {
                assert(allow_rules@[2] == rules.allow.duplicated);
            }
            if table.is_enabled(rules.allow.disabled) {
                assert(allow_rules@[3] == rules.allow.disabled);
            }
            if table.is_enabled(rules.allow.unused) {
                assert(allow_rules@[4] == rules.allow.unused);
            }
        }
    }
    let read = (!ignore_allow_comments && vs.len() > 0) || any_allow_rule;
    let (silenced, findings) = if read {
        check_allow_comments(&vs, &acs, table, reg, rules.allow, file.text.as_slice(), &file.index)
    } else {
        (Vec::new(), Vec::new())
    };
    let n_found = vs.len();
    proof {
        assert(vs@.len() == n_found);
        lemma_silenced_increasing(acs@, vs@, vs@.len() as int);
        if !read {
            assert(findings@.map_values(|f: AllowFinding| finding_view(f)) =~= Seq::empty());
            assert(silenced@ =~= Seq::<usize>::empty());
        }
    }
    let ghost collected = vs@;
    let ghost comments = acs@;
    let kept = keep_violations(
        vs,
        &silenced,
        !ignore_allow_comments,
        t.has_error,
        rules.syntax_error.rule,
        &rules.ast_rules,
        table,
    );
    proof {
        let remove = !ignore_allow_comments;
        let order = choose|order: Seq<usize>|
            #[trigger] sorted_by_points(order, start_keys(unsilenced(collected, silenced@, remove)))
                && kept@ == kept_violations(
                collected,
                silenced@,
                remove,
                t.has_error,
                rules.syntax_error.rule,
                rules.ast_rules,
                *table,
                order,
            );
        assert(silenced@ == silenced_when(comments, collected, read));
        assert(kept@ == checked(collected, comments, order, t.has_error, *table, *rules, ignore_allow_comments));
        assert(stable_order(collected, comments, order, *table, *rules, ignore_allow_comments));
        assert(findings@.map_values(|f: AllowFinding| finding_view(f)) == allow_findings(
            collected,
            comments,
            *reg,
            *table,
            *rules,
            *file,
            ignore_allow_comments,
        ));
    }
    Some((kept, findings))
}

} // verus!
