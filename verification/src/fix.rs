//! Applying the fixes of a file's violations: which fixes apply, in what order, and the text
//! they give.
use vstd::prelude::*;
use crate::diagnostics::{Applicability, Diagnostic, Edit, Fix};
use crate::diff::{bytes_text, slice_bytes};
use crate::edits::boundary;
use crate::order::{sorted_by_points, stable_order_by_point};
use crate::range::TextRange;
use crate::source::SourceFile;
use crate::allow_comments::{redirects_resolve, AllowFinding, Registry};
use crate::check_path::{fixes_settled, increasing_below, kept_violations, swap_removed, unsilenced, without_positions};
use crate::lint_walk::{
    check_path, check_result, checked, child_in_field, colon_fix, fix_view, lacks_colons, magic_keys, node_keys,
    reads_allow_comments, silenced_when, size_keys, sizes_fit, sizes_read, violation_key, violation_keys, walk_keys, CheckRules,
    FixView, ViolationKey,
};
use crate::rules::{Rule, RuleTable};
use crate::syntax::{depths_ok, fortran_nodes, parse_fortran, parsed_as, ranges_fit, SyntaxNodes};
use crate::text::{chars_of, push_all, string_of, utf8_len};
use crate::write::push_str;

verus! {

/// Whether the violation `d` has a fix that applies at the level `required`.
pub open spec fn applicable(d: Diagnostic, required: Applicability) -> bool {
    d.fix matches Some(f) && f.applicability.rank() >= required.rank()
}

/// The positions, in order, of the first `n` violations of `ds` whose fixes apply at `required`.
pub open spec fn candidates(ds: Seq<Diagnostic>, required: Applicability, n: int) -> Seq<usize>
    decreases n,
{
    if n <= 0 {
        Seq::empty()
    } else if applicable(ds[n - 1], required) {
        candidates(ds, required, n - 1).push((n - 1) as usize)
    } else {
        candidates(ds, required, n - 1)
    }
}

/// Where the fix `f` starts: the start of its first edit, or zero when it has none.
pub open spec fn fix_start(f: Fix) -> usize {
    if f.edits@.len() > 0 {
        f.edits@[0].range.start as usize
    } else {
        0
    }
}

/// The keys by which the candidate fixes `cs` of `ds` are ordered: where each starts.
pub open spec fn fix_keys(ds: Seq<Diagnostic>, cs: Seq<usize>) -> Seq<(usize, usize)> {
    Seq::new(cs.len(), |i: int| (fix_start(ds[cs[i] as int].fix.unwrap()), 0usize))
}

/// Whether the edits of the fix `f` lie within `text` at character boundaries, in order and
/// apart.
pub open spec fn fix_fits(text: Seq<char>, f: Fix) -> bool {
    let es = f.edits@;
    &&& forall|k: int|
        0 <= k < es.len() ==> (#[trigger] es[k]).range.start <= es[k].range.end <= utf8_len(text) && boundary(
            text,
            es[k].range.start as int,
        ) && boundary(text, es[k].range.end as int)
    &&& forall|k: int| 0 < k < es.len() ==> es[k - 1].range.end <= (#[trigger] es[k]).range.start
}

/// The text of `text` from byte `from` with the edits `es` from the `k`-th on applied, up to the
/// end of the last edit.
pub open spec fn edits_text(text: Seq<char>, es: Seq<Edit>, from: int, k: int) -> Seq<char>
    decreases es.len() - k,
{
    if k < 0 || k >= es.len() {
        Seq::empty()
    } else {
        bytes_text(text, from, es[k].range.start as int) + match es[k].content {
            Some(c) => c@,
            None => Seq::empty(),
        } + edits_text(text, es, es[k].range.end as int, k + 1)
    }
}

/// The text of `text` with the fixes of the violations of `ds` at the positions `ps` applied in
/// that order, from the `k`-th on, past byte `last` (none applied yet when `last` is negative),
/// and the positions of the violations whose fixes were applied. A fix is passed over when its
/// first edit starts no later than the last applied edit ends.
pub open spec fn fixes_applied(text: Seq<char>, ds: Seq<Diagnostic>, ps: Seq<usize>, k: int, last: int) -> (
    Seq<char>,
    Seq<usize>,
)
    decreases ps.len() - k,
{
    if k < 0 || k >= ps.len() {
        (bytes_text(text, if last < 0 {
            0
        } else {
            last
        }, utf8_len(text) as int), Seq::empty())
    } else {
        let es = ds[ps[k] as int].fix.unwrap().edits@;
        if es.len() > 0 && last >= es[0].range.start {
            fixes_applied(text, ds, ps, k + 1, last)
        } else {
            let from = if last < 0 {
                0
            } else {
                last
            };
            let next = if es.len() == 0 {
                last
            } else {
                es.last().range.end as int
            };
            let rest = fixes_applied(text, ds, ps, k + 1, next);
            (edits_text(text, es, from, 0) + rest.0, seq![ps[k]] + rest.1)
        }
    }
}

/// The candidates `cs` in the order `order`.
pub open spec fn in_order(cs: Seq<usize>, order: Seq<usize>) -> Seq<usize> {
    Seq::new(order.len(), |i: int| cs[order[i] as int])
}

proof fn lemma_candidates(ds: Seq<Diagnostic>, required: Applicability, n: int)
    requires
        0 <= n <= ds.len() <= usize::MAX,
    ensures
        forall|k: int|
            0 <= k < candidates(ds, required, n).len() ==> (#[trigger] candidates(ds, required, n)[k]) < n
                && applicable(ds[candidates(ds, required, n)[k] as int], required),
    decreases n,
{
    if n > 0 {
        lemma_candidates(ds, required, n - 1);
        let c = candidates(ds, required, n - 1);
        if applicable(ds[n - 1], required) {
            assert forall|k: int| 0 <= k < candidates(ds, required, n).len() implies (#[trigger] candidates(
                ds,
                required,
                n,
            )[k]) < n && applicable(ds[candidates(ds, required, n)[k] as int], required) by {
                if k < c.len() {
                    assert(candidates(ds, required, n)[k] == c[k]);
                }
            }
        }
    }
}

fn push_edits(out: &mut Vec<char>, text: &[char], es: &Vec<Edit>, from: u32) -> (end: u32)
    requires
        es@.len() > 0,
        from <= es@[0].range.start,
        boundary(text@, from as int),
        fix_fits(text@, Fix { applicability: Applicability::Safe, edits: *es }),
    ensures
        final(out)@ == old(out)@ + edits_text(text@, es@, from as int, 0),
        end == es@.last().range.end,
{
    let ghost start = old(out)@;
    let ghost total = edits_text(text@, es@, from as int, 0);
    let mut cur = from;
    let mut k: usize = 0;
    while k < es.len()
        invariant
            k <= es@.len(),
            es@.len() > 0,
            boundary(text@, cur as int),
            k == 0 ==> cur == from,
            k > 0 ==> cur == es@[k - 1].range.end,
            k < es@.len() ==> cur <= es@[k as int].range.start,
            fix_fits(text@, Fix { applicability: Applicability::Safe, edits: *es }),
            start + total == out@ + edits_text(text@, es@, cur as int, k as int),
        decreases es@.len() - k,
    {
        let e = &es[k];
        assert(e.range.start <= e.range.end);
        let head = slice_bytes(text, cur, e.range.start);
        push_all(out, head.as_slice());
        match &e.content {
            Some(c) => push_str(out, c.as_str()),
            None => {},
        }
        proof {
            assert(start + total =~= out@ + edits_text(text@, es@, e.range.end as int, k + 1));
            if k + 1 < es@.len() {
                assert(es@[k as int].range.end <= es@[k + 1].range.start);
            }
        }
        cur = e.range.end;
        k = k + 1;
    }
    assert(edits_text(text@, es@, cur as int, k as int) =~= Seq::<char>::empty());
    assert(out@ =~= start + total);
    cur
}

/// Returns the text of `file` with the fixes of the violations `ds` applied that apply at the
/// level `required`, taken in stable order of where they start, each passed over when it starts
/// no later than the last applied one ends (see [`fixes_applied`]); and the positions in `ds` of
/// the violations whose fixes were applied. `None` exactly when no fix applies.
#[verifier::spinoff_prover]
#[verifier::rlimit(60)]
pub fn fix_file(file: &SourceFile, ds: &Vec<Diagnostic>, required: Applicability) -> (r: Option<(Vec<char>, Vec<usize>)>)
    requires
        file.wf(),
        forall|i: int| 0 <= i < ds@.len() && applicable(ds@[i], required) ==> fix_fits(file.text@, #[trigger] ds@[i].fix.unwrap()),
    ensures
        r is Some <==> candidates(ds@, required, ds@.len() as int).len() > 0,
        r matches Some((t, used)) ==> {
            let cs = candidates(ds@, required, ds@.len() as int);
            exists|order: Seq<usize>|
                #[trigger] sorted_by_points(order, fix_keys(ds@, cs)) && (t@, used@) == fixes_applied(
                    file.text@,
                    ds@,
                    in_order(cs, order),
                    0,
                    -1,
                )
        },
        r matches Some((t, used)) ==> forall|j: int| 0 <= j < used@.len() ==> #[trigger] used@[j] < ds@.len(),
{
    let ghost text = file.text@;
    let mut cs: Vec<usize> = Vec::new();
    let mut keys: Vec<(usize, usize)> = Vec::new();
    let mut i: usize = 0;
    while i < ds.len()
        invariant
            i <= ds@.len(),
            cs@ == candidates(ds@, required, i as int),
            keys@ == fix_keys(ds@, cs@),
            forall|k: int| 0 <= k < cs@.len() ==> #[trigger] cs@[k] < i,
        decreases ds@.len() - i,
    {
        let ghost before = cs@;
        match &ds[i].fix {
            Some(f) => {
                if f.applicability.at_least(required) {
                    let start = if f.edits.len() > 0 {
                        f.edits[0].range.start as usize
                    } else {
                        0
                    };
                    cs.push(i);
                    keys.push((start, 0));
                    assert(keys@ =~= fix_keys(ds@, cs@));
                }
            },
            None => {},
        }
        i = i + 1;
    }
    if cs.len() == 0 {
        return None;
    }
    let order = stable_order_by_point(&keys);
    let ghost ps = in_order(cs@, order@);
    let mut positions: Vec<usize> = Vec::new();
    let mut k: usize = 0;
    while k < order.len()
        invariant
            k <= order@.len(),
            crate::order::is_permutation(order@, cs@.len()),
            positions@ =~= in_order(cs@, order@).take(k as int),
        decreases order@.len() - k,
    {
        positions.push(cs[order[k]]);
        k = k + 1;
    }
    assert(positions@ =~= ps);
    proof {
        lemma_candidates(ds@, required, ds@.len() as int);
        assert forall|j: int| 0 <= j < ps.len() implies #[trigger] ps[j] < ds@.len() && applicable(ds@[ps[j] as int], required) by {
            assert(order@[j] < cs@.len());
            assert(ps[j] == cs@[order@[j] as int]);
        }
    }
    let ghost total = fixes_applied(text, ds@, ps, 0, -1);
    let mut out: Vec<char> = Vec::new();
    let mut used: Vec<usize> = Vec::new();
    let mut last: Option<u32> = None;
    let len = file.index.len_exec();
    let mut k: usize = 0;
    while k < positions.len()
        invariant
            k <= ps.len(),
            positions@ == ps,
            file.wf(),
            text == file.text@,
            len == utf8_len(text),
            forall|j: int| 0 <= j < ps.len() ==> #[trigger] ps[j] < ds@.len() && applicable(ds@[ps[j] as int], required),
            forall|i: int| 0 <= i < ds@.len() && applicable(ds@[i], required) ==> fix_fits(text, #[trigger] ds@[i].fix.unwrap()),
            last matches Some(l) ==> l <= len && boundary(text, l as int),
            forall|j: int| 0 <= j < used@.len() ==> #[trigger] used@[j] < ds@.len(),
            out@ + fixes_applied(text, ds@, ps, k as int, match last {
                Some(l) => l as int,
                None => -1,
            }).0 == total.0,
            used@ + fixes_applied(text, ds@, ps, k as int, match last {
                Some(l) => l as int,
                None => -1,
            }).1 == total.1,
        decreases ps.len() - k,
    {
        let p = positions[k];
        let f = match &ds[p].fix {
            Some(f) => f,
            None => {
                proof {
                    assert(false);
                }
                return None;
            },
        };
        let ghost lastint = match last {
            Some(l) => l as int,
            None => -1,
        };
        let skip = f.edits.len() > 0 && match last {
            Some(l) => l >= f.edits[0].range.start,
            None => false,
        };
        if !skip {
            let from = match last {
                Some(l) => l,
                None => 0,
            };
            proof {
                crate::source::lemma_end_boundary(*file);
                if last is None {
                    assert(crate::text::at_byte(text, 0, 0));
                }
            }
            let ghost before_out = out@;
            if f.edits.len() > 0 {
                let end = push_edits(&mut out, file.text.as_slice(), &f.edits, from);
                last = Some(end);
            } else {
                assert(edits_text(text, f.edits@, from as int, 0) =~= Seq::<char>::empty());
            }
            used.push(p);
            proof {
                let rest = fixes_applied(text, ds@, ps, k + 1, match last {
                    Some(l) => l as int,
                    None => -1,
                });
                assert(fixes_applied(text, ds@, ps, k as int, lastint) == (
                    edits_text(text, f.edits@, from as int, 0) + rest.0,
                    seq![p] + rest.1,
                ));
                assert(out@ + rest.0 =~= total.0);
                assert(used@ + rest.1 =~= total.1);
            }
        }
        k = k + 1;
    }
    proof {
        crate::source::lemma_end_boundary(*file);
    }
    let from = match last {
        Some(l) => l,
        None => {
            assert(crate::text::at_byte(text, 0, 0));
            0
        },
    };
    let tail = slice_bytes(file.text.as_slice(), from, len);
    push_all(&mut out, tail.as_slice());
    assert(out@ =~= total.0);
    assert(used@ =~= total.1);
    assert(sorted_by_points(order@, fix_keys(ds@, cs@)));
    Some((out, used))
}


/// Whether the edits `es` (as plain values) lie within `text` at character boundaries, in
/// order and apart.
pub open spec fn edit_views_fit(text: Seq<char>, es: Seq<(TextRange, Option<Seq<char>>)>) -> bool {
    &&& forall|k: int|
        0 <= k < es.len() ==> (#[trigger] es[k]).0.start <= es[k].0.end <= utf8_len(text) && boundary(
            text,
            es[k].0.start as int,
        ) && boundary(text, es[k].0.end as int)
    &&& forall|k: int| 0 < k < es.len() ==> es[k - 1].0.end <= (#[trigger] es[k]).0.start
}

/// Whether the fix of the violation key `k`, if any, lies within `text`.
pub open spec fn key_fits(text: Seq<char>, k: ViolationKey) -> bool {
    k.3 matches Some(fv) ==> edit_views_fit(text, fv.1)
}

/// Whether every fix of `ds` lies within `text`.
pub open spec fn all_fixes_fit(text: Seq<char>, ds: Seq<Diagnostic>) -> bool {
    forall|k: int| 0 <= k < ds.len() ==> ((#[trigger] ds[k]).fix matches Some(f) ==> fix_fits(text, f))
}

proof fn lemma_key_fits(text: Seq<char>, d: Diagnostic)
    requires
        key_fits(text, violation_key(d)),
    ensures
        d.fix matches Some(f) ==> fix_fits(text, f),
{
    if let Some(f) = d.fix {
        let es = fix_view(d.fix).unwrap().1;
        assert forall|k: int| 0 <= k < f.edits@.len() implies (#[trigger] f.edits@[k]).range == es[k].0 by {}
        assert forall|k: int| 0 < k < f.edits@.len() implies f.edits@[k - 1].range.end <= (#[trigger] f.edits@[k]).range.start by {
            assert(es[k - 1].0 == f.edits@[k - 1].range);
            assert(es[k].0 == f.edits@[k].range);
        }
    }
}

proof fn lemma_magic_keys_unfixed(lits: Seq<(Seq<char>, TextRange)>, rule: Rule)
    ensures
        forall|j: int| 0 <= j < magic_keys(lits, rule).len() ==> (#[trigger] magic_keys(lits, rule)[j]).3 is None,
    decreases lits.len(),
{
    if lits.len() > 0 {
        lemma_magic_keys_unfixed(lits.drop_last(), rule);
        let prev = magic_keys(lits.drop_last(), rule);
        assert forall|j: int| 0 <= j < magic_keys(lits, rule).len() implies (#[trigger] magic_keys(lits, rule)[j]).3 is None by {
            if j < prev.len() {
                assert(magic_keys(lits, rule)[j] == prev[j]);
            }
        }
    }
}

proof fn lemma_child_in_field_bound(t: SyntaxNodes, text: Seq<char>, i: int, field: Seq<char>, j: int)
    requires
        t.wf(text),
        0 <= i < t.nodes@.len(),
        j >= 0,
    ensures
        child_in_field(t, i, field, j) matches Some(c) ==> c < t.nodes@.len(),
    decreases t.nodes@[i].children@.len() - j,
{
    if j < t.nodes@[i].children@.len() {
        lemma_child_in_field_bound(t, text, i, field, j + 1);
    }
}

proof fn lemma_node_keys_fit(t: SyntaxNodes, text: Seq<char>, table: RuleTable, rules: CheckRules, i: int)
    requires
        t.wf(text),
        0 <= i < t.nodes@.len(),
    ensures
        forall|j: int| 0 <= j < node_keys(t, text, table, rules, i).len() ==> key_fits(text, #[trigger] node_keys(t, text, table, rules, i)[j]),
{
    let n = t.nodes@[i];
    let a: Seq<ViolationKey> = if n.missing && table.is_enabled(rules.syntax_error.rule) {
        seq![(Some(rules.syntax_error.rule), n.range, "Syntax error"@, None)]
    } else {
        Seq::empty()
    };
    let colon = n.kind@ == "variable_declaration"@ && table.is_enabled(rules.missing_double_colon.rule) && lacks_colons(t, text, i);
    let b: Seq<ViolationKey> = if colon {
        seq![(Some(rules.missing_double_colon.rule), n.range, crate::lints::missing_double_colon_message(), colon_fix(t, i))]
    } else {
        Seq::empty()
    };
    let c: Seq<ViolationKey> = if sizes_read(t, table, rules, i) {
        size_keys(t, text, rules.magic_number_in_array_size.rule, i)
    } else {
        Seq::empty()
    };
    assert(node_keys(t, text, table, rules, i) == a + b + c);
    if colon {
        lemma_child_in_field_bound(t, text, i, "declarator"@, 0);
        let ch = child_in_field(t, i, "declarator"@, 0).unwrap();
        assert(crate::syntax::range_in(text, t.nodes@[ch as int].range));
        assert(key_fits(text, b[0]));
    }
    if sizes_read(t, table, rules, i) {
        match crate::lint_walk::size_of_node(t, text, i) {
            Some(s) => lemma_magic_keys_unfixed(
                crate::lint_walk::size_literal_texts(t, text, s as int, t.nodes@[s as int].children@.len() as int),
                rules.magic_number_in_array_size.rule,
            ),
            None => {},
        }
    }
    assert forall|j: int| 0 <= j < node_keys(t, text, table, rules, i).len() implies key_fits(
        text,
        #[trigger] node_keys(t, text, table, rules, i)[j],
    ) by {
        if j < a.len() {
            assert((a + b + c)[j] == a[j]);
        } else if j < a.len() + b.len() {
            assert((a + b + c)[j] == b[j - a.len()]);
        } else {
            assert((a + b + c)[j] == c[j - a.len() - b.len()]);
        }
    }
}

proof fn lemma_walk_keys_fit(t: SyntaxNodes, text: Seq<char>, table: RuleTable, rules: CheckRules, n: int)
    requires
        t.wf(text),
        n <= t.nodes@.len(),
    ensures
        forall|j: int| 0 <= j < walk_keys(t, text, table, rules, n).len() ==> key_fits(text, #[trigger] walk_keys(t, text, table, rules, n)[j]),
    decreases n,
{
    if n > 0 {
        lemma_walk_keys_fit(t, text, table, rules, n - 1);
        lemma_node_keys_fit(t, text, table, rules, n - 1);
        let prev = walk_keys(t, text, table, rules, n - 1);
        let own = node_keys(t, text, table, rules, n - 1);
        assert forall|j: int| 0 <= j < walk_keys(t, text, table, rules, n).len() implies key_fits(
            text,
            #[trigger] walk_keys(t, text, table, rules, n)[j],
        ) by {
            if j < prev.len() {
                assert((prev + own)[j] == prev[j]);
            } else {
                assert((prev + own)[j] == own[j - prev.len()]);
            }
        }
    }
}

proof fn lemma_without_positions_fit(text: Seq<char>, ds: Seq<Diagnostic>, ps: Seq<usize>)
    requires
        all_fixes_fit(text, ds),
        increasing_below(ps, ds.len() as int),
    ensures
        all_fixes_fit(text, without_positions(ds, ps)),
    decreases ps.len(),
{
    if ps.len() > 0 {
        let l = ps.last() as int;
        let ds2 = swap_removed(ds, l);
        assert forall|k: int| 0 <= k < ds2.len() implies ((#[trigger] ds2[k]).fix matches Some(f) ==> fix_fits(text, f)) by {
            if k == l {
                assert(ds2[k] == ds[ds.len() - 1]);
            } else {
                assert(ds2[k] == ds[k]);
            }
        }
        assert forall|i: int| 0 <= i < ps.drop_last().len() implies ps.drop_last()[i] < ds2.len() by {
            assert(ps[i] < ps[ps.len() - 1]);
        }
        lemma_without_positions_fit(text, ds2, ps.drop_last());
    }
}

/// Every fix that a check offers lies within the file's text at character boundaries, its
/// edits in order and apart: the fixes of the violations that [`check_result`] describes.
pub proof fn lemma_checked_fixes_fit(
    t: SyntaxNodes,
    file: SourceFile,
    table: RuleTable,
    reg: Registry,
    rules: CheckRules,
    ignore: bool,
    ds: Seq<Diagnostic>,
    fs: Seq<AllowFinding>,
)
    requires
        t.wf(file.text@),
        check_result(t, file, table, reg, rules, ignore, ds, fs),
    ensures
        all_fixes_fit(file.text@, ds),
{
    let text = file.text@;
    let (collected, acs, order) = choose|collected: Seq<Diagnostic>, acs: Seq<crate::allow_comments::AllowComment>, order: Seq<usize>|
        {
            &&& violation_keys(collected) == walk_keys(t, file.text@, table, rules, t.nodes@.len() as int)
            &&& collected.len() <= usize::MAX
            &&& crate::lint_walk::gathered(t, file.text@, file.index, reg, t.nodes@.len() as int, acs)
            &&& crate::lint_walk::stable_order(collected, acs, order, table, rules, ignore)
            &&& ds == #[trigger] checked(collected, acs, order, t.has_error, table, rules, ignore)
            &&& fs.map_values(|f: AllowFinding| crate::allow_comments::finding_view(f)) == crate::lint_walk::allow_findings(
                collected,
                acs,
                reg,
                table,
                rules,
                file,
                ignore,
            )
        };
    lemma_walk_keys_fit(t, text, table, rules, t.nodes@.len() as int);
    assert forall|k: int| 0 <= k < collected.len() implies ((#[trigger] collected[k]).fix matches Some(f) ==> fix_fits(text, f)) by {
        assert(violation_keys(collected)[k] == violation_key(collected[k]));
        lemma_key_fits(text, collected[k]);
    }
    let read = reads_allow_comments(table, rules.allow, !ignore, collected.len());
    let silenced = silenced_when(acs, collected, read);
    if read {
        crate::lint_walk::lemma_silenced_increasing_pub(acs, collected);
    }
    let left = unsilenced(collected, silenced, !ignore);
    if !ignore {
        lemma_without_positions_fit(text, collected, silenced);
    }
    assert(all_fixes_fit(text, left));
    if !t.has_error {
        let kept = kept_violations(collected, silenced, !ignore, t.has_error, rules.syntax_error.rule, rules.ast_rules, table, order);
        assert(kept == fixes_settled(left, false, table));
        assert forall|k: int| 0 <= k < kept.len() implies ((#[trigger] kept[k]).fix matches Some(f) ==> fix_fits(text, f)) by {
            assert(left[k].fix matches Some(f) ==> fix_fits(text, f));
        }
    }
}

/// The rules of the violations of `ds` at the positions `used`.
pub open spec fn rules_of(ds: Seq<Diagnostic>, used: Seq<usize>) -> Seq<Option<Rule>> {
    Seq::new(used.len(), |i: int| ds[used[i] as int].rule)
}

/// The number of rounds of checking and fixing after which fixing gives up.
pub const MAX_ITERATIONS: usize = 100;

/// Whether `file` is a well-formed file named `name` with the text `text`, and `t` the syntax
/// tree of that text.
pub open spec fn round_input(file: SourceFile, t: SyntaxNodes, name: Seq<char>, text: Seq<char>) -> bool {
    &&& file.wf()
    &&& file.name@ == name
    &&& file.text@ == text
    &&& parsed_as(text, t)
}

/// Whether `r` is what the rounds of parsing, checking and fixing give from round `iteration`
/// on, for the file `name` whose text is now `text` and the rules of the fixes applied so far
/// `applied`. Each round parses the text (an error when there is no tree), checks it (an error
/// when a number in an array size is not an `i32`), fails on a syntax error (on the first
/// round, as the file's own; later, as one a fix brought in), and applies the fixes that apply
/// at `required` (see [`fixes_applied`]; they lie within the text, see
/// [`lemma_checked_fixes_fit`]). The rounds end with the violations of the last check,
/// its text and the rules of all applied fixes when no fix applies, or after
/// [`MAX_ITERATIONS`] rounds of fixes.
#[verifier::opaque]
pub open spec fn fix_rounds(
    name: Seq<char>,
    text: Seq<char>,
    table: RuleTable,
    reg: Registry,
    rules: CheckRules,
    required: Applicability,
    ignore: bool,
    iteration: int,
    applied: Seq<Option<Rule>>,
    r: Result<(Seq<Diagnostic>, Seq<char>, Seq<Option<Rule>>), Seq<char>>,
) -> bool
    decreases 100 - iteration,
{
    if !(fortran_nodes(text) matches Some((rs, e)) && depths_ok(rs) && ranges_fit(text, rs)) {
        r == Err::<(Seq<Diagnostic>, Seq<char>, Seq<Option<Rule>>), Seq<char>>("Failed to parse"@)
    } else {
        exists|file: SourceFile, t: SyntaxNodes|
            #[trigger] round_input(file, t, name, text) && if !sizes_fit(t, text, table, rules, t.nodes@.len() as int) {
                r == Err::<(Seq<Diagnostic>, Seq<char>, Seq<Option<Rule>>), Seq<char>>(
                    "A number in an array size is not an i32"@,
                )
            } else if t.has_error {
                r == Err::<(Seq<Diagnostic>, Seq<char>, Seq<Option<Rule>>), Seq<char>>(
                    if iteration <= 0 {
                        "File contains syntax errors, no fixes will be applied"@
                    } else {
                        "Fix introduced a syntax error"@
                    },
                )
            } else {
                exists|ds: Seq<Diagnostic>, fs: Seq<AllowFinding>|
                    #[trigger] check_result(t, file, table, reg, rules, ignore, ds, fs) && if candidates(
                        ds,
                        required,
                        ds.len() as int,
                    ).len() == 0 || iteration >= 100 {
                        r == Ok::<(Seq<Diagnostic>, Seq<char>, Seq<Option<Rule>>), Seq<char>>((ds, text, applied))
                    } else {
                        exists|order: Seq<usize>|
                            #[trigger] sorted_by_points(order, fix_keys(ds, candidates(ds, required, ds.len() as int)))
                                && {
                                let fixed = fixes_applied(
                                    text,
                                    ds,
                                    in_order(candidates(ds, required, ds.len() as int), order),
                                    0,
                                    -1,
                                );
                                if utf8_len(fixed.0) > u32::MAX {
                                    r == Err::<(Seq<Diagnostic>, Seq<char>, Seq<Option<Rule>>), Seq<char>>(
                                        "The fixed text is too large"@,
                                    )
                                } else {
                                    fix_rounds(
                                        name,
                                        fixed.0,
                                        table,
                                        reg,
                                        rules,
                                        required,
                                        ignore,
                                        iteration + 1,
                                        applied + rules_of(ds, fixed.1),
                                        r,
                                    )
                                }
                            }
                    }
            }
    }
}

/// What the rounds of fixing return, as plain values.
pub open spec fn fixer_view(r: Result<(Vec<Diagnostic>, Vec<char>, Vec<Option<Rule>>), String>) -> Result<
    (Seq<Diagnostic>, Seq<char>, Seq<Option<Rule>>),
    Seq<char>,
> {
    match r {
        Ok((ds, t, a)) => Ok((ds@, t@, a@)),
        Err(e) => Err(e@),
    }
}

fn message(s: &str) -> (r: String)
    ensures
        r@ == s@,
{
    string_of(chars_of(s).as_slice())
}

/// What one round of fixing ends in: the result of all rounds, or the fixed text and the rules
/// of the fixes applied so far, for the next round.
enum Round {
    Done(Result<(Vec<Diagnostic>, Vec<char>, Vec<Option<Rule>>), String>),
    Next(Vec<char>, Vec<Option<Rule>>),
}

#[verifier::rlimit(50)]
fn fix_round(
    cur: &SourceFile,
    table: &RuleTable,
    reg: &Registry,
    rules: &CheckRules,
    required: Applicability,
    ignore_allow_comments: bool,
    iteration: usize,
    applied: Vec<Option<Rule>>,
) -> (o: Round)
    requires
        cur.wf(),
        table.wf(),
        redirects_resolve(*reg),
        iteration <= MAX_ITERATIONS,
    ensures
        o matches Round::Done(r) ==> fix_rounds(
            cur.name@,
            cur.text@,
            *table,
            *reg,
            *rules,
            required,
            ignore_allow_comments,
            iteration as int,
            applied@,
            fixer_view(r),
        ),
        o matches Round::Next(t2, a2) ==> {
            &&& iteration < MAX_ITERATIONS
            &&& utf8_len(t2@) <= u32::MAX
            &&& forall|res: Result<(Seq<Diagnostic>, Seq<char>, Seq<Option<Rule>>), Seq<char>>|
                #[trigger] fix_rounds(cur.name@, t2@, *table, *reg, *rules, required, ignore_allow_comments, iteration + 1, a2@, res)
                    ==> fix_rounds(cur.name@, cur.text@, *table, *reg, *rules, required, ignore_allow_comments, iteration as int, applied@, res)
        },
{
    reveal(fix_rounds);
    let ghost name = cur.name@;
    let ghost it = iteration as int;
    let ghost text = cur.text@;
    let ghost before = applied@;
    let t = match parse_fortran(cur) {
        Some(t) => t,
        None => {
            let r: Result<(Vec<Diagnostic>, Vec<char>, Vec<Option<Rule>>), String> = Err(message("Failed to parse"));
            proof {
                reveal_strlit("Failed to parse");
            }
            return Round::Done(r);
        },
    };
    assert(round_input(*cur, t, name, text));
    let (ds, fs) = match check_path(&t, cur, table, reg, rules, ignore_allow_comments) {
        Some(found) => found,
        None => {
            let r: Result<(Vec<Diagnostic>, Vec<char>, Vec<Option<Rule>>), String> = Err(
                message("A number in an array size is not an i32"),
            );
            proof {
                reveal_strlit("A number in an array size is not an i32");
            }
            return Round::Done(r);
        },
    };
    if t.has_error {
        let r: Result<(Vec<Diagnostic>, Vec<char>, Vec<Option<Rule>>), String> = if iteration == 0 {
            Err(message("File contains syntax errors, no fixes will be applied"))
        } else {
            Err(message("Fix introduced a syntax error"))
        };
        proof {
            reveal_strlit("File contains syntax errors, no fixes will be applied");
            reveal_strlit("Fix introduced a syntax error");
        }
        return Round::Done(r);
    }
    assert(check_result(t, *cur, *table, *reg, *rules, ignore_allow_comments, ds@, fs@));
    proof {
        lemma_checked_fixes_fit(t, *cur, *table, *reg, *rules, ignore_allow_comments, ds@, fs@);
        assert forall|i: int| 0 <= i < ds@.len() && applicable(ds@[i], required) implies fix_fits(
            text,
            #[trigger] ds@[i].fix.unwrap(),
        ) by {
            assert(ds@[i].fix matches Some(f) ==> fix_fits(text, f));
        }
    }
    let ghost cs = candidates(ds@, required, ds@.len() as int);
    let fixed = if iteration >= MAX_ITERATIONS {
        None
    } else {
        fix_file(cur, &ds, required)
    };
    match fixed {
        None => {
            let text_now = string_of(cur.text.as_slice());
            let chars_now = chars_of(text_now.as_str());
            Round::Done(Ok((ds, chars_now, applied)))
        },
        Some((t2, used)) => {
            let ghost order = choose|order: Seq<usize>|
                #[trigger] sorted_by_points(order, fix_keys(ds@, cs)) && (t2@, used@) == fixes_applied(
                    text,
                    ds@,
                    in_order(cs, order),
                    0,
                    -1,
                );
            if !crate::text::utf8_len_fits_u32(t2.as_slice()) {
                let r: Result<(Vec<Diagnostic>, Vec<char>, Vec<Option<Rule>>), String> = Err(
                    message("The fixed text is too large"),
                );
                proof {
                    reveal_strlit("The fixed text is too large");
                }
                return Round::Done(r);
            }
            let mut a2 = applied;
            let mut k: usize = 0;
            while k < used.len()
                invariant
                    k <= used@.len(),
                    forall|j: int| 0 <= j < used@.len() ==> #[trigger] used@[j] < ds@.len(),
                    a2@ == before + rules_of(ds@, used@).take(k as int),
                decreases used@.len() - k,
            {
                a2.push(ds[used[k]].rule);
                assert(a2@ =~= before + rules_of(ds@, used@).take(k + 1));
                k = k + 1;
            }
            assert(rules_of(ds@, used@).take(k as int) =~= rules_of(ds@, used@));
            proof {
                assert(sorted_by_points(order, fix_keys(ds@, cs)));
            }
            Round::Next(t2, a2)
        },
    }
}

/// Checks `file` and applies the fixes of its violations that apply at `required`, round after
/// round, until no fix applies or [`MAX_ITERATIONS`] rounds of fixes have been made (see
/// [`fix_rounds`]). Returns the violations of the last check, the fixed text and the rule of
/// each applied fix, in the order they were applied.
pub fn check_and_fix_file(
    file: &SourceFile,
    table: &RuleTable,
    reg: &Registry,
    rules: &CheckRules,
    required: Applicability,
    ignore_allow_comments: bool,
) -> (r: Result<(Vec<Diagnostic>, Vec<char>, Vec<Option<Rule>>), String>)
    requires
        file.wf(),
        table.wf(),
        redirects_resolve(*reg),
    ensures
        fix_rounds(file.name@, file.text@, *table, *reg, *rules, required, ignore_allow_comments, 0, seq![], fixer_view(r)),
{
    let ghost name = file.name@;
    let ghost text0 = file.text@;
    proof {
        crate::source::lemma_end_boundary(*file);
    }
    let name_copy = string_of(chars_of(file.name.as_str()).as_slice());
    let first = string_of(file.text.as_slice());
    let mut cur = SourceFile::new(name_copy, first.as_str());
    let mut applied: Vec<Option<Rule>> = Vec::new();
    let mut iteration: usize = 0;
    loop
        invariant
            cur.wf(),
            cur.name@ == name,
            name == file.name@,
            text0 == file.text@,
            table.wf(),
            redirects_resolve(*reg),
            iteration <= MAX_ITERATIONS,
            forall|res: Result<(Seq<Diagnostic>, Seq<char>, Seq<Option<Rule>>), Seq<char>>|
                #[trigger] fix_rounds(name, cur.text@, *table, *reg, *rules, required, ignore_allow_comments, iteration as int, applied@, res)
                    ==> fix_rounds(name, text0, *table, *reg, *rules, required, ignore_allow_comments, 0, seq![], res),
        decreases MAX_ITERATIONS - iteration,
    {
        let ghost before = applied@;
        match fix_round(&cur, table, reg, rules, required, ignore_allow_comments, iteration, applied) {
            Round::Done(r) => {
                assert(fix_rounds(name, cur.text@, *table, *reg, *rules, required, ignore_allow_comments, iteration as int, before, fixer_view(r)));
                return r;
            },
            Round::Next(t2, a2) => {
                let name_next = string_of(chars_of(cur.name.as_str()).as_slice());
                let next = string_of(t2.as_slice());
                cur = SourceFile::new(name_next, next.as_str());
                applied = a2;
                iteration = iteration + 1;
            },
        }
    }
}

/// How many entries of `s` are the rule `r`.
pub open spec fn count_of(s: Seq<Option<Rule>>, r: Rule) -> nat
    decreases s.len(),
{
    if s.len() == 0 {
        0
    } else {
        count_of(s.drop_last(), r) + if s.last() == Some(r) {
            1nat
        } else {
            0nat
        }
    }
}

proof fn lemma_count_bound(s: Seq<Option<Rule>>, r: Rule)
    ensures
        count_of(s, r) <= s.len(),
    decreases s.len(),
{
    if s.len() > 0 {
        lemma_count_bound(s.drop_last(), r);
    }
}

/// Counts the fixes applied per rule: each rule that occurs in `applied` once, with the number
/// of times it occurs, in the order of first occurrence.
pub fn fix_table(applied: &Vec<Option<Rule>>) -> (m: Vec<(Rule, usize)>)
    ensures
        forall|i: int, j: int| 0 <= i < j < m@.len() ==> m@[i].0 != m@[j].0,
        forall|i: int| 0 <= i < m@.len() ==> #[trigger] m@[i].1 == count_of(applied@, m@[i].0) && m@[i].1 > 0,
        forall|r: Rule| count_of(applied@, r) > 0 ==> exists|i: int| 0 <= i < m@.len() && (#[trigger] m@[i]).0 == r,
{
    let mut m: Vec<(Rule, usize)> = Vec::new();
    let mut k: usize = 0;
    while k < applied.len()
        invariant
            k <= applied@.len(),
            forall|i: int, j: int| 0 <= i < j < m@.len() ==> m@[i].0 != m@[j].0,
            forall|i: int| 0 <= i < m@.len() ==> #[trigger] m@[i].1 == count_of(applied@.take(k as int), m@[i].0) && m@[i].1 > 0,
            forall|r: Rule| count_of(applied@.take(k as int), r) > 0 ==> exists|i: int| 0 <= i < m@.len() && (#[trigger] m@[i]).0 == r,
        decreases applied@.len() - k,
    {
        let ghost s = applied@.take(k + 1);
        assert(s.drop_last() =~= applied@.take(k as int));
        let ghost old_m = m@;
        let ghost mut pos: int = -1;
        match applied[k] {
            None => {},
            Some(rule) => {
                let mut i: usize = 0;
                while i < m.len() && m[i].0 != rule
                    invariant
                        i <= m@.len(),
                        forall|j: int| 0 <= j < i ==> m@[j].0 != rule,
                    decreases m@.len() - i,
                {
                    i = i + 1;
                }
                proof {
                    lemma_count_bound(applied@.take(k as int), rule);
                }
                if i < m.len() {
                    let c = m[i].1;
                    m.set(i, (rule, c + 1));
                } else {
                    m.push((rule, 1));
                }
                proof {
                    pos = i as int;
                }
                assert(m@[pos].0 == rule);
            },
        }
        proof {
            assert forall|r: Rule| count_of(s, r) > 0 implies exists|i: int| 0 <= i < m@.len() && (#[trigger] m@[i]).0 == r by {
                assert(count_of(s, r) == count_of(applied@.take(k as int), r) + if s.last() == Some(r) {
                    1nat
                } else {
                    0nat
                });
                if s.last() == Some(r) {
                    assert(s.last() == applied@[k as int]);
                    assert(m@[pos].0 == r);
                } else {
                    assert(count_of(applied@.take(k as int), r) > 0);
                    let i0 = choose|i: int| 0 <= i < old_m.len() && (#[trigger] old_m[i]).0 == r;
                    assert(m@[i0].0 == r);
                }
            }
        }
        k = k + 1;
    }
    assert(applied@.take(k as int) =~= applied@);
    m
}

} // verus!
