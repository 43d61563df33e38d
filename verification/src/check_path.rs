//! What a check of one file keeps of its violations: those that allow comments do not silence,
//! those that can be trusted when the file has syntax errors, and the fixes that may be applied.
use vstd::prelude::*;
use crate::allow_comments::diagnostic_range;
use crate::diagnostics::Diagnostic;
use crate::order::{sorted_by_points, stable_order_by_point};
use crate::rules::{Rule, RuleSet, RuleTable};

verus! {

/// `ds` with the element at `i` replaced by the last one, and the last one dropped.
pub open spec fn swap_removed(ds: Seq<Diagnostic>, i: int) -> Seq<Diagnostic> {
    ds.update(i, ds.last()).drop_last()
}

/// `ds` with the elements at the positions `ps` swap-removed, the last position first.
pub open spec fn without_positions(ds: Seq<Diagnostic>, ps: Seq<usize>) -> Seq<Diagnostic>
    decreases ps.len(),
{
    if ps.len() == 0 {
        ds
    } else {
        without_positions(swap_removed(ds, ps.last() as int), ps.drop_last())
    }
}

/// Whether the positions `ps` increase and lie below `n`.
pub open spec fn increasing_below(ps: Seq<usize>, n: int) -> bool {
    &&& forall|i: int, j: int| 0 <= i < j < ps.len() ==> ps[i] < ps[j]
    &&& forall|i: int| 0 <= i < ps.len() ==> ps[i] < n
}

/// The key by which violations are ordered when a file has syntax errors: the start of their
/// range.
pub open spec fn start_key(d: Diagnostic) -> (usize, usize) {
    (diagnostic_range(d).start as usize, 0)
}

/// The keys of `ds`.
pub open spec fn start_keys(ds: Seq<Diagnostic>) -> Seq<(usize, usize)> {
    Seq::new(ds.len(), |i: int| start_key(ds[i]))
}

/// The elements of `ds` in the order `order`.
pub open spec fn permuted(ds: Seq<Diagnostic>, order: Seq<usize>) -> Seq<Diagnostic> {
    Seq::new(order.len(), |i: int| ds[order[i] as int])
}

/// The first position of `ds` whose rule is `rule`.
pub open spec fn first_of_rule(ds: Seq<Diagnostic>, rule: Rule) -> Option<int>
    decreases ds.len(),
{
    if ds.len() == 0 {
        None
    } else {
        match first_of_rule(ds.drop_last(), rule) {
            Some(p) => Some(p),
            None => if ds.last().rule == Some(rule) {
                Some(ds.len() - 1)
            } else {
                None
            },
        }
    }
}

/// Whether the violation `d` comes from a rule that reads the syntax tree.
pub open spec fn from_ast_rule(d: Diagnostic, ast_rules: RuleSet) -> bool {
    d.rule matches Some(r) && ast_rules.has(r)
}

/// The first `n` elements of `ds` that are at positions up to `p` or do not come from a rule
/// that reads the syntax tree.
pub open spec fn trusted_prefix(ds: Seq<Diagnostic>, p: int, ast_rules: RuleSet, n: int) -> Seq<Diagnostic>
    decreases n,
{
    if n <= 0 {
        Seq::empty()
    } else {
        trusted_prefix(ds, p, ast_rules, n - 1) + if n - 1 <= p || !from_ast_rule(ds[n - 1], ast_rules) {
            seq![ds[n - 1]]
        } else {
            Seq::empty()
        }
    }
}

/// The violations `ds` (ordered by start) that can be trusted when a file has syntax errors:
/// all up to the first syntax error, and after it those of rules that do not read the syntax
/// tree; all of them when there is no syntax error among them.
pub open spec fn trusted(ds: Seq<Diagnostic>, syntax_error: Rule, ast_rules: RuleSet) -> Seq<Diagnostic> {
    match first_of_rule(ds, syntax_error) {
        Some(p) => trusted_prefix(ds, p, ast_rules, ds.len() as int),
        None => ds,
    }
}

/// `d` without its fix.
pub open spec fn fix_dropped(d: Diagnostic) -> Diagnostic {
    Diagnostic { fix: None, ..d }
}

/// `d` without its fix unless its rule is one whose violations are fixed.
pub open spec fn fix_settled(d: Diagnostic, table: RuleTable) -> Diagnostic {
    if d.rule matches Some(r) && table.is_fixed(r) {
        d
    } else {
        fix_dropped(d)
    }
}

/// `ds` without fixes when `drop_all` holds, and in any case without the fixes of rules whose
/// violations are not fixed.
pub open spec fn fixes_settled(ds: Seq<Diagnostic>, drop_all: bool, table: RuleTable) -> Seq<Diagnostic> {
    Seq::new(
        ds.len(),
        |i: int|
            if drop_all {
                fix_dropped(ds[i])
            } else {
                fix_settled(ds[i], table)
            },
    )
}

/// `ds` without the positions `silenced` when `remove_silenced` holds.
pub open spec fn unsilenced(ds: Seq<Diagnostic>, silenced: Seq<usize>, remove_silenced: bool) -> Seq<Diagnostic> {
    if remove_silenced {
        without_positions(ds, silenced)
    } else {
        ds
    }
}

/// What a check keeps of the violations `ds`, the positions `silenced` removed first when
/// `remove_silenced` holds: when the file has a syntax error and the syntax-error rule is
/// enabled, the trusted violations in the stable order `order` by start; with the fixes settled
/// (all dropped when the file has a syntax error).
pub open spec fn kept_violations(
    ds: Seq<Diagnostic>,
    silenced: Seq<usize>,
    remove_silenced: bool,
    has_error: bool,
    syntax_error: Rule,
    ast_rules: RuleSet,
    table: RuleTable,
    order: Seq<usize>,
) -> Seq<Diagnostic> {
    let left = unsilenced(ds, silenced, remove_silenced);
    let ordered = if has_error && table.is_enabled(syntax_error) {
        trusted(permuted(left, order), syntax_error, ast_rules)
    } else {
        left
    };
    fixes_settled(ordered, has_error, table)
}

proof fn lemma_increasing_gap(ps: Seq<usize>, j: int, l: int)
    requires
        forall|a: int, b: int| 0 <= a < b < ps.len() ==> ps[a] < ps[b],
        0 <= j <= l < ps.len(),
    ensures
        ps[j] + (l - j) <= ps[l],
    decreases l - j,
{
    if j < l {
        lemma_increasing_gap(ps, j + 1, l);
    }
}

fn remove_positions(ds: &mut Vec<Diagnostic>, ps: &Vec<usize>)
    requires
        increasing_below(ps@, old(ds)@.len() as int),
    ensures
        final(ds)@ == without_positions(old(ds)@, ps@),
{
    let ghost orig = old(ds)@;
    let mut k = ps.len();
    proof {
        assert(ps@.take(k as int) =~= ps@);
        assert forall|j: int| 0 <= j < k implies ps@[j] + (k - j) <= ds@.len() by {
            lemma_increasing_gap(ps@, j, k - 1);
        }
    }
    while k > 0
        invariant
            k <= ps@.len(),
            increasing_below(ps@, orig.len() as int),
            without_positions(orig, ps@) == without_positions(ds@, ps@.take(k as int)),
            forall|j: int| 0 <= j < k ==> ps@[j] + (k - j) <= ds@.len(),
        decreases k,
    {
        let p = ps[k - 1];
        let ghost cur = ds@;
        ds.swap_remove(p);
        proof {
            assert(ps@.take(k as int).drop_last() =~= ps@.take(k - 1));
            assert(ds@ == swap_removed(cur, p as int));
        }
        k = k - 1;
    }
    assert(ps@.take(0) =~= Seq::<usize>::empty());
}

proof fn lemma_first_of_rule(ds: Seq<Diagnostic>, rule: Rule)
    ensures
        first_of_rule(ds, rule) matches Some(p) ==> 0 <= p < ds.len() && ds[p].rule == Some(rule) && forall|
            i: int,
        | 0 <= i < p ==> ds[i].rule != Some(rule),
        first_of_rule(ds, rule) is None ==> forall|i: int| 0 <= i < ds.len() ==> ds[i].rule != Some(rule),
    decreases ds.len(),
{
    if ds.len() > 0 {
        lemma_first_of_rule(ds.drop_last(), rule);
        assert forall|i: int| 0 <= i < ds.len() - 1 implies ds.drop_last()[i] == ds[i] by {}
    }
}

fn take_front(v: &mut Vec<Diagnostic>) -> (d: Diagnostic)
    requires
        old(v)@.len() > 0,
    ensures
        d == old(v)@[0],
        final(v)@ == old(v)@.drop_first(),
{
    let d = v.remove(0);
    assert(v@ =~= old(v)@.drop_first());
    d
}

fn keep_trusted(ds: Vec<Diagnostic>, syntax_error: Rule, ast_rules: &RuleSet) -> (r: Vec<Diagnostic>)
    ensures
        r@ == trusted(ds@, syntax_error, *ast_rules),
{
    let ghost all = ds@;
    let mut first: Option<usize> = None;
    let mut i: usize = 0;
    while i < ds.len()
        invariant
            i <= all.len(),
            all == ds@,
            first matches Some(p) ==> first_of_rule(all.take(i as int), syntax_error) == Some(p as int),
            first is None ==> first_of_rule(all.take(i as int), syntax_error) is None,
        decreases all.len() - i,
    {
        proof {
            assert(all.take(i + 1).drop_last() =~= all.take(i as int));
            lemma_first_of_rule(all.take(i as int), syntax_error);
        }
        if first.is_none() && ds[i].rule == Some(syntax_error) {
            first = Some(i);
        }
        i = i + 1;
    }
    assert(all.take(i as int) =~= all);
    match first {
        None => ds,
        Some(p) => {
            let total = ds.len();
            let mut rest = ds;
            let mut out: Vec<Diagnostic> = Vec::new();
            let mut k: usize = 0;
            while k < total
                invariant
                    k <= all.len(),
                    total == all.len(),
                    rest@ == all.skip(k as int),
                    out@ == trusted_prefix(all, p as int, *ast_rules, k as int),
                decreases all.len() - k,
            {
                let d = take_front(&mut rest);
                assert(d == all[k as int]);
                let keep = match d.rule {
                    Some(r) => k <= p || !ast_rules.contains(r),
                    None => true,
                };
                if keep {
                    out.push(d);
                }
                assert(rest@ =~= all.skip(k + 1));
                k = k + 1;
            }
            out
        },
    }
}

fn settle_fixes(ds: Vec<Diagnostic>, drop_all: bool, table: &RuleTable) -> (r: Vec<Diagnostic>)
    requires
        table.wf(),
    ensures
        r@ == fixes_settled(ds@, drop_all, *table),
{
    let ghost all = ds@;
    let total = ds.len();
    let mut rest = ds;
    let mut out: Vec<Diagnostic> = Vec::new();
    let mut k: usize = 0;
    while k < total
        invariant
            k <= all.len(),
            total == all.len(),
            table.wf(),
            rest@ == all.skip(k as int),
            out@ =~= fixes_settled(all, drop_all, *table).take(k as int),
        decreases all.len() - k,
    {
        let mut d = take_front(&mut rest);
        assert(d == all[k as int]);
        let keep = !drop_all && match d.rule {
            Some(r) => table.should_fix(r),
            None => false,
        };
        if !keep {
            d.fix = None;
        }
        proof {
            assert(d == fixes_settled(all, drop_all, *table)[k as int]);
        }
        out.push(d);
        assert(rest@ =~= all.skip(k + 1));
        k = k + 1;
    }
    out
}

/// Returns what a check keeps of the violations `ds` (see [`kept_violations`]): the positions
/// `silenced` (those that allow comments silence, in increasing order) are swap-removed, the
/// last first, when `remove_silenced` holds; when the file has a syntax error and the rule
/// `syntax_error` is enabled, the violations are stably sorted by start and only those up to
/// the first syntax error, and after it those of rules outside `ast_rules`, are kept; when the
/// file has a syntax error every fix is dropped, and otherwise those of rules whose violations
/// are not fixed.
pub fn keep_violations(
    ds: Vec<Diagnostic>,
    silenced: &Vec<usize>,
    remove_silenced: bool,
    has_error: bool,
    syntax_error: Rule,
    ast_rules: &RuleSet,
    table: &RuleTable,
) -> (r: Vec<Diagnostic>)
    requires
        table.wf(),
        remove_silenced ==> increasing_below(silenced@, ds@.len() as int),
    ensures
        exists|order: Seq<usize>|
            #[trigger] sorted_by_points(order, start_keys(unsilenced(ds@, silenced@, remove_silenced)))
                && r@ == kept_violations(
                ds@,
                silenced@,
                remove_silenced,
                has_error,
                syntax_error,
                *ast_rules,
                *table,
                order,
            ),
{
    let mut left = ds;
    if remove_silenced {
        remove_positions(&mut left, silenced);
    }
    let ghost left_view = left@;
    let mut keys: Vec<(usize, usize)> = Vec::new();
    let mut i: usize = 0;
    while i < left.len()
        invariant
            i <= left@.len(),
            keys@ =~= start_keys(left@).take(i as int),
        decreases left@.len() - i,
    {
        let start = match left[i].range() {
            Some(r) => r.start as usize,
            None => 0,
        };
        keys.push((start, 0));
        i = i + 1;
    }
    assert(keys@ =~= start_keys(left@));
    assert(left_view == unsilenced(ds@, silenced@, remove_silenced));
    let order = stable_order_by_point(&keys);
    let ordered = if has_error && table.enabled(syntax_error) {
        let mut sorted: Vec<Diagnostic> = Vec::new();
        let mut rest = left;
        let ghost positions = order@;
        // Collect the violations in the order, moving each out of its slot.
        let mut k: usize = 0;
        let mut slots: Vec<Option<Diagnostic>> = Vec::new();
        while rest.len() > 0
            invariant
                slots@.len() + rest@.len() == left_view.len(),
                forall|j: int| 0 <= j < slots@.len() ==> slots@[j] == Some(left_view[j]),
                rest@ == left_view.skip(slots@.len() as int),
            decreases rest@.len(),
        {
            let ghost n = slots@.len();
            let d = take_front(&mut rest);
            slots.push(Some(d));
            assert(rest@ =~= left_view.skip((n + 1) as int));
        }
        while k < order.len()
            invariant
                k <= order@.len(),
                positions == order@,
                sorted_by_points(positions, start_keys(left_view)),
                slots@.len() == left_view.len(),
                forall|j: int| 0 <= j < slots@.len() ==> (#[trigger] slots@[j] is Some ==> slots@[j] == Some(left_view[j])),
                forall|j: int| k <= j < positions.len() ==> (#[trigger] slots@[positions[j] as int]) is Some,
                sorted@ =~= permuted(left_view, positions).take(k as int),
            decreases order@.len() - k,
        {
            let p = order[k];
            let mut slot: Option<Diagnostic> = None;
            slots.set_and_swap(p, &mut slot);
            proof {
                assert forall|j: int| k + 1 <= j < positions.len() implies (#[trigger] slots@[positions[j] as int]) is Some by {
                    assert(positions[j] != positions[k as int]);
                }
            }
            match slot {
                Some(d) => sorted.push(d),
                None => {
                    proof {
                        assert(false);
                    }
                },
            }
            k = k + 1;
        }
        assert(permuted(left_view, positions).take(k as int) =~= permuted(left_view, positions));
        keep_trusted(sorted, syntax_error, ast_rules)
    } else {
        left
    };
    let r = settle_fixes(ordered, has_error, table);
    assert(sorted_by_points(order@, start_keys(unsilenced(ds@, silenced@, remove_silenced))));
    r
}

} // verus!
