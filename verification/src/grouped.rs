//! Rendering diagnostics grouped by file: each file's name, then one aligned line per
//! diagnostic with its line, column, code and message.
use vstd::prelude::*;
use crate::diagnostics::{first_primary, id_name, Applicability, Diagnostic};
use crate::order::{sorted_by_keys, stable_order_by_key};
use crate::render::{diagnostic_text, num, push_concise, relative_path, relativize_path, renderable, span_ok};
use crate::source::{line_column, line_column_of, LineColumn};
use crate::text::{chars_of, push_all, string_of};
use crate::write::{decimal, push_decimal, push_str, spaces};

verus! {

/// Whether `d` has a primary annotation, whose file is the one it is grouped under.
pub open spec fn has_primary(d: Diagnostic) -> bool {
    first_primary(d.annotations@) is Some
}

/// The name of the file of the primary annotation of `d`.
pub open spec fn file_name(d: Diagnostic) -> Seq<char> {
    d.annotations@[first_primary(d.annotations@).unwrap()].span.file.name@
}

/// Where the range of the primary annotation of `d` starts; line one, column one without a
/// range.
pub open spec fn start_of(d: Diagnostic) -> LineColumn {
    let span = d.annotations@[first_primary(d.annotations@).unwrap()].span;
    match span.range {
        Some(r) => line_column_of(span.file, r.start as int),
        None => LineColumn { line: 1, column: 1 },
    }
}

/// The number of leading diagnostics of `ds` in the file `name`.
pub open spec fn run_len(ds: Seq<Diagnostic>, name: Seq<char>) -> nat
    decreases ds.len(),
{
    if ds.len() > 0 && file_name(ds[0]) == name {
        1 + run_len(ds.drop_first(), name)
    } else {
        0
    }
}

/// The leading run of a file in `ds` lies within `ds`, holds only that file, and ends where
/// another file starts.
pub proof fn lemma_run_len_bound(ds: Seq<Diagnostic>, name: Seq<char>)
    ensures
        run_len(ds, name) <= ds.len(),
        forall|i: int| 0 <= i < run_len(ds, name) ==> file_name(#[trigger] ds[i]) == name,
        run_len(ds, name) < ds.len() ==> file_name(ds[run_len(ds, name) as int]) != name,
    decreases ds.len(),
{
    if ds.len() > 0 && file_name(ds[0]) == name {
        lemma_run_len_bound(ds.drop_first(), name);
        assert forall|i: int| 0 <= i < run_len(ds, name) implies file_name(#[trigger] ds[i]) == name by {
            if i > 0 {
                assert(ds[i] == ds.drop_first()[i - 1]);
            }
        }
    }
}

/// The largest of the lines (with `col` set, the columns) where the diagnostics `ds` start, and
/// one when there is none.
pub open spec fn max_start(ds: Seq<Diagnostic>, col: bool) -> usize
    decreases ds.len(),
{
    if ds.len() == 0 {
        1
    } else {
        let rest = max_start(ds.drop_last(), col);
        let v = if col {
            start_of(ds.last()).column
        } else {
            start_of(ds.last()).line
        };
        if v > rest {
            v
        } else {
            rest
        }
    }
}

/// The number of digits of `n`.
pub open spec fn digits(n: usize) -> nat {
    decimal(n as nat).len()
}

/// The code and message of `d`: with the fix mark `[*] ` when fix statuses are shown and its fix
/// applies at `required`.
pub open spec fn code_and_body(d: Diagnostic, show_fix_status: bool, required: Applicability) -> Seq<char> {
    if show_fix_status && match d.fix {
        Some(f) => f.applicability.rank() >= required.rank(),
        None => false,
    } {
        (match d.secondary_code {
            Some(c) => c.0@ + " "@,
            None => Seq::empty(),
        }) + "[*] "@ + diagnostic_text(d)
    } else {
        match d.secondary_code {
            Some(c) => c.0@ + " "@ + diagnostic_text(d),
            None => id_name(d.id) + ": "@ + diagnostic_text(d),
        }
    }
}

/// The line of `d` in its group, with rows padded to `row_w` digits and columns to `col_w`.
pub open spec fn grouped_line(d: Diagnostic, row_w: nat, col_w: nat, show_fix_status: bool, required: Applicability) -> Seq<char> {
    let s = start_of(d);
    "  "@ + spaces((row_w - digits(s.line)) as nat) + num(s.line) + ":"@ + num(s.column) + spaces(
        (col_w - digits(s.column)) as nat,
    ) + " "@ + code_and_body(d, show_fix_status, required) + "\n"@
}

/// The lines of the group `g`.
pub open spec fn group_lines(g: Seq<Diagnostic>, row_w: nat, col_w: nat, show_fix_status: bool, required: Applicability) -> Seq<char>
    decreases g.len(),
{
    if g.len() == 0 {
        Seq::empty()
    } else {
        group_lines(g.drop_last(), row_w, col_w, show_fix_status, required) + grouped_line(
            g.last(),
            row_w,
            col_w,
            show_fix_status,
            required,
        )
    }
}

/// The text of the diagnostics `ds`, in which those of one file come together: for each run of
/// one file, its path relative to `cwd` and `:`, its lines aligned on the widest line and
/// column numbers of the run, and an empty line.
pub open spec fn grouped_text(ds: Seq<Diagnostic>, cwd: Seq<char>, show_fix_status: bool, required: Applicability) -> Seq<char>
    decreases ds.len(),
{
    if ds.len() == 0 {
        Seq::empty()
    } else {
        let n = run_len(ds, file_name(ds[0]));
        proof {
            lemma_run_len_bound(ds, file_name(ds[0]));
        }
        if n == 0 {
            Seq::empty()
        } else {
            let g = ds.take(n as int);
            relative_path(file_name(ds[0]), cwd) + ":\n"@ + group_lines(
                g,
                digits(max_start(g, false)),
                digits(max_start(g, true)),
                show_fix_status,
                required,
            ) + "\n"@ + grouped_text(ds.skip(n as int), cwd, show_fix_status, required)
        }
    }
}

/// `ds` in the order `order`.
pub open spec fn in_order(ds: Seq<Diagnostic>, order: Seq<usize>) -> Seq<Diagnostic> {
    order.map_values(|i: usize| ds[i as int])
}

fn name_and_start(d: &Diagnostic) -> (r: (Vec<char>, LineColumn))
    requires
        renderable(*d),
        has_primary(*d),
    ensures
        r.0@ == file_name(*d),
        r.1 == start_of(*d),
{
    let a = d.primary_annotation().unwrap();
    proof {
        crate::diagnostics::lemma_first_primary_is_primary(d.annotations@);
        let i = first_primary(d.annotations@).unwrap();
        assert(span_ok(d.annotations@[i].span.file, d.annotations@[i].span.range));
    }
    let start = match a.span.range {
        Some(r) => line_column(&a.span.file, r.start),
        None => LineColumn::start(),
    };
    (chars_of(a.span.file.name()), start)
}

fn push_padding(out: &mut Vec<char>, n: usize)
    ensures
        final(out)@ == old(out)@ + spaces(n as nat),
{
    let mut k: usize = 0;
    while k < n
        invariant
            k <= n,
            out@ == old(out)@ + spaces(k as nat),
        decreases n - k,
    {
        out.push(' ');
        assert(spaces((k + 1) as nat) =~= spaces(k as nat).push(' '));
        k = k + 1;
    }
}

fn push_code_and_body(out: &mut Vec<char>, d: &Diagnostic, show_fix_status: bool, required: Applicability)
    ensures
        final(out)@ == old(out)@ + code_and_body(*d, show_fix_status, required),
{
    if show_fix_status && d.has_applicable_fix(required) {
        match &d.secondary_code {
            Some(c) => {
                push_str(out, c.as_str());
                push_str(out, " ");
            },
            None => {},
        }
        push_str(out, "[*] ");
        push_concise(out, d);
    } else {
        match &d.secondary_code {
            Some(c) => {
                push_str(out, c.as_str());
                push_str(out, " ");
            },
            None => {
                push_str(out, d.id.as_str());
                push_str(out, ": ");
            },
        }
        push_concise(out, d);
    }
}

#[verifier::spinoff_prover]
fn push_grouped_line(
    out: &mut Vec<char>,
    d: &Diagnostic,
    start: LineColumn,
    row_w: usize,
    col_w: usize,
    show_fix_status: bool,
    required: Applicability,
)
    requires
        start == start_of(*d),
        digits(start.line) <= row_w,
        digits(start.column) <= col_w,
    ensures
        final(out)@ == old(out)@ + grouped_line(*d, row_w as nat, col_w as nat, show_fix_status, required),
{
    let ghost before = old(out)@;
    push_str(out, "  ");
    push_padding(out, row_w - crate::write::num_digits(start.line));
    push_decimal(out, start.line);
    push_str(out, ":");
    push_decimal(out, start.column);
    push_padding(out, col_w - crate::write::num_digits(start.column));
    push_str(out, " ");
    push_code_and_body(out, d, show_fix_status, required);
    push_str(out, "\n");
}

proof fn lemma_digits_monotone(a: nat, b: nat)
    requires
        a <= b,
    ensures
        decimal(a).len() <= decimal(b).len(),
    decreases b,
{
    if b >= 10 && a >= 10 {
        lemma_digits_monotone(a / 10, b / 10);
    } else if b >= 10 {
        crate::write::lemma_decimal_len(b);
        crate::write::lemma_decimal_len(a);
    }
}

/// A run of `m` diagnostics of the file `name` that the next one does not continue is the
/// leading run of that file.
pub proof fn lemma_run_len_exact(ds: Seq<Diagnostic>, name: Seq<char>, m: int)
    requires
        0 <= m <= ds.len(),
        forall|i: int| 0 <= i < m ==> file_name(#[trigger] ds[i]) == name,
        m == ds.len() || file_name(ds[m]) != name,
    ensures
        run_len(ds, name) == m,
    decreases m,
{
    if m > 0 {
        assert forall|i: int| 0 <= i < m - 1 implies file_name(#[trigger] ds.drop_first()[i]) == name by {
            assert(ds.drop_first()[i] == ds[i + 1]);
        }
        if m < ds.len() {
            assert(ds.drop_first()[m - 1] == ds[m]);
        }
        lemma_run_len_exact(ds.drop_first(), name, m - 1);
    } else if ds.len() > 0 {
        assert(file_name(ds[0]) != name);
    }
}

proof fn lemma_max_start_bound(g: Seq<Diagnostic>, col: bool)
    ensures
        forall|i: int|
            0 <= i < g.len() ==> (if col {
                start_of(#[trigger] g[i]).column
            } else {
                start_of(g[i]).line
            }) <= max_start(g, col),
    decreases g.len(),
{
    if g.len() > 0 {
        lemma_max_start_bound(g.drop_last(), col);
        assert forall|i: int|
            0 <= i < g.len() implies (if col {
                start_of(#[trigger] g[i]).column
            } else {
                start_of(g[i]).line
            }) <= max_start(g, col) by {
            if i < g.len() - 1 {
                assert(g[i] == g.drop_last()[i]);
            }
        }
    }
}

fn same_chars(a: &[char], b: &[char]) -> (r: bool)
    ensures
        r == (a@ == b@),
{
    if a.len() != b.len() {
        return false;
    }
    let mut i: usize = 0;
    while i < a.len()
        invariant
            i <= a@.len(),
            a@.len() == b@.len(),
            forall|j: int| 0 <= j < i ==> a@[j] == b@[j],
        decreases a@.len() - i,
    {
        if a[i] != b[i] {
            return false;
        }
        i = i + 1;
    }
    assert(a@ =~= b@);
    true
}

/// Returns the text of `ds` grouped by file (see [`grouped_text`]): the diagnostics in the
/// stable order of their files' names, with paths relative to `cwd`.
#[verifier::spinoff_prover]
#[verifier::rlimit(50)]
pub fn render_grouped(ds: &Vec<Diagnostic>, cwd: &str, show_fix_status: bool, required: Applicability) -> (s: String)
    requires
        forall|i: int| 0 <= i < ds@.len() ==> renderable(#[trigger] ds@[i]) && has_primary(ds@[i]),
    ensures
        exists|order: Seq<usize>|
            sorted_by_keys(order, ds@.map_values(|d: Diagnostic| file_name(d))) && s@ == grouped_text(
                in_order(ds@, order),
                cwd@,
                show_fix_status,
                required,
            ),
{
    let mut names: Vec<Vec<char>> = Vec::new();
    let mut starts: Vec<LineColumn> = Vec::new();
    let mut i: usize = 0;
    while i < ds.len()
        invariant
            i <= ds@.len(),
            forall|m: int| 0 <= m < ds@.len() ==> renderable(#[trigger] ds@[m]) && has_primary(ds@[m]),
            names@.len() == i,
            starts@.len() == i,
            forall|m: int| 0 <= m < i ==> (#[trigger] names@[m])@ == file_name(ds@[m]),
            forall|m: int| 0 <= m < i ==> starts@[m] == start_of(#[trigger] ds@[m]),
        decreases ds@.len() - i,
    {
        assert(renderable(ds@[i as int]) && has_primary(ds@[i as int]));
        let (name, start) = name_and_start(&ds[i]);
        names.push(name);
        starts.push(start);
        i = i + 1;
    }
    let order = stable_order_by_key(&names);
    let ghost keys = ds@.map_values(|d: Diagnostic| file_name(d));
    assert(names@.map_values(|k: Vec<char>| k@) =~= keys);
    let ghost sd = in_order(ds@, order@);
    let n = order.len();
    let mut out: Vec<char> = Vec::new();
    let mut k: usize = 0;
    assert(sd.skip(0) =~= sd);
    while k < n
        invariant
            k <= n,
            n == order@.len(),
            n == ds@.len(),
            names@.len() == n,
            starts@.len() == n,
            crate::order::is_permutation(order@, n as nat),
            sd == in_order(ds@, order@),
            forall|m: int| 0 <= m < n ==> (#[trigger] names@[m])@ == file_name(ds@[m]),
            forall|m: int| 0 <= m < n ==> starts@[m] == start_of(#[trigger] ds@[m]),
            out@ + grouped_text(sd.skip(k as int), cwd@, show_fix_status, required) == grouped_text(
                sd,
                cwd@,
                show_fix_status,
                required,
            ),
        decreases n - k,
    {
        let first = order[k];
        let mut e = k + 1;
        while e < n && same_chars(names[order[e]].as_slice(), names[first].as_slice())
            invariant
                k < e <= n,
                n == order@.len(),
                names@.len() == n,
                first == order@[k as int],
                crate::order::is_permutation(order@, n as nat),
                forall|j: int| k <= j < e ==> (#[trigger] names@[order@[j] as int])@ == names@[first as int]@,
            decreases n - e,
        {
            e = e + 1;
        }
        let ghost rest = sd.skip(k as int);
        let ghost name = file_name(sd[k as int]);
        proof {
            assert(sd[k as int] == ds@[first as int]);
            assert forall|j: int| 0 <= j < e - k implies file_name(#[trigger] rest[j]) == name by {
                assert(rest[j] == sd[k + j]);
                assert(sd[k + j] == ds@[order@[k + j] as int]);
                assert(names@[order@[k + j] as int]@ == names@[first as int]@);
            }
            if e < n {
                assert(rest[e - k] == sd[e as int]);
                assert(sd[e as int] == ds@[order@[e as int] as int]);
            }
            lemma_run_len_exact(rest, name, e - k);
        }
        let ghost g = rest.take(e - k);
        let mut max_line: usize = 1;
        let mut max_col: usize = 1;
        let mut j = k;
        while j < e
            invariant
                k <= j <= e <= n,
                n == order@.len(),
                n == ds@.len(),
                starts@.len() == n,
                crate::order::is_permutation(order@, n as nat),
                sd == in_order(ds@, order@),
                g == sd.skip(k as int).take(e - k),
                forall|m: int| 0 <= m < n ==> starts@[m] == start_of(#[trigger] ds@[m]),
                max_line == max_start(g.take(j - k), false),
                max_col == max_start(g.take(j - k), true),
            decreases e - j,
        {
            let st = starts[order[j]];
            proof {
                assert(g.take(j + 1 - k).drop_last() =~= g.take(j - k));
                assert(g.take(j + 1 - k).last() == sd[j as int]);
                assert(sd[j as int] == ds@[order@[j as int] as int]);
            }
            if st.line > max_line {
                max_line = st.line;
            }
            if st.column > max_col {
                max_col = st.column;
            }
            j = j + 1;
        }
        assert(g.take(e - k) =~= g);
        let row_w = crate::write::num_digits(max_line);
        let col_w = crate::write::num_digits(max_col);
        let ghost before = out@;
        let path = relativize_path(string_of(names[first].as_slice()).as_str(), cwd);
        push_all(&mut out, path.as_slice());
        push_str(&mut out, ":\n");
        let ghost head = out@;
        proof {
            lemma_max_start_bound(g, false);
            lemma_max_start_bound(g, true);
        }
        let mut j = k;
        assert(g.take(0) =~= Seq::<Diagnostic>::empty());
        while j < e
            invariant
                k <= j <= e <= n,
                n == order@.len(),
                n == ds@.len(),
                starts@.len() == n,
                crate::order::is_permutation(order@, n as nat),
                sd == in_order(ds@, order@),
                g == sd.skip(k as int).take(e - k),
                forall|m: int| 0 <= m < n ==> starts@[m] == start_of(#[trigger] ds@[m]),
                row_w == digits(max_start(g, false)),
                col_w == digits(max_start(g, true)),
                forall|m: int| 0 <= m < g.len() ==> start_of(#[trigger] g[m]).line <= max_start(g, false),
                forall|m: int| 0 <= m < g.len() ==> start_of(#[trigger] g[m]).column <= max_start(g, true),
                out@ == head + group_lines(g.take(j - k), row_w as nat, col_w as nat, show_fix_status, required),
            decreases e - j,
        {
            let d = &ds[order[j]];
            proof {
                assert(g[j - k] == sd[j as int]);
                assert(sd[j as int] == ds@[order@[j as int] as int]);
                let st = start_of(g[j - k]);
                lemma_digits_monotone(st.line as nat, max_start(g, false) as nat);
                lemma_digits_monotone(st.column as nat, max_start(g, true) as nat);
                assert(g.take(j + 1 - k).drop_last() =~= g.take(j - k));
                assert(g.take(j + 1 - k).last() == g[j - k]);
            }
            push_grouped_line(&mut out, d, starts[order[j]], row_w, col_w, show_fix_status, required);
            j = j + 1;
        }
        assert(g.take(e - k) =~= g);
        push_str(&mut out, "\n");
        proof {
            assert(rest.skip(e - k) =~= sd.skip(e as int));
            assert(names@[first as int]@ == name);
            assert(rest[0] == sd[k as int]);
            assert(grouped_text(rest, cwd@, show_fix_status, required) == relative_path(name, cwd@) + ":\n"@
                + group_lines(g, row_w as nat, col_w as nat, show_fix_status, required) + "\n"@ + grouped_text(
                rest.skip(e - k),
                cwd@,
                show_fix_status,
                required,
            ));
            assert(out@ =~= before + relative_path(name, cwd@) + ":\n"@ + group_lines(
                g,
                row_w as nat,
                col_w as nat,
                show_fix_status,
                required,
            ) + "\n"@);
        }
        k = e;
    }
    proof {
        assert(sd.skip(n as int) =~= Seq::<Diagnostic>::empty());
    }
    string_of(out.as_slice())
}

} // verus!
