//! The diagnostics of a check as the suites and cases of a JUnit report: one suite per file,
//! one failing case per diagnostic.
use vstd::prelude::*;
use crate::diagnostics::{id_name, Diagnostic};
use crate::grouped::{file_name, has_primary, in_order, lemma_run_len_bound, run_len, start_of};
use crate::order::{sorted_by_keys, stable_order_by_key};
use crate::render::{diagnostic_text, num, push_concise, renderable, span_ok};
use crate::source::{line_column, LineColumn};
use crate::text::{chars_of, push_all, string_of};
use crate::write::{push_decimal, push_str};

verus! {

/// A failing test case: its name, message and description, and where its diagnostic starts.
#[derive(Debug, Clone)]
pub struct JunitCase {
    pub name: String,
    pub message: String,
    pub description: String,
    pub line: usize,
    pub column: usize,
}

/// The test suite of one file: the file's name and a case per diagnostic.
#[derive(Debug, Clone)]
pub struct JunitSuite {
    pub name: String,
    pub cases: Vec<JunitCase>,
}

/// A JUnit report: a single passing case when nothing was found, else the suites.
#[derive(Debug, Clone)]
pub enum JunitReport {
    NoErrors,
    Suites(Vec<JunitSuite>),
}

/// The case of the diagnostic `d`: named after its code (or identifier), with its concise
/// message, and a description of where it starts.
pub open spec fn is_case_of(c: JunitCase, d: Diagnostic) -> bool {
    let s = start_of(d);
    &&& c.name@ == "org.plasmafair.fortitude."@ + match d.secondary_code {
        Some(code) => code.0@,
        None => id_name(d.id),
    }
    &&& c.message@ == diagnostic_text(d)
    &&& c.description@ == "line "@ + num(s.line) + ", col "@ + num(s.column) + ", "@ + diagnostic_text(d)
    &&& c.line == s.line
    &&& c.column == s.column
}

/// Whether `suites` are those of the diagnostics `ds`: one per run of a file, in order, named
/// after the file, with a case per diagnostic of the run.
pub open spec fn are_suites_of(suites: Seq<JunitSuite>, ds: Seq<Diagnostic>) -> bool
    decreases ds.len(),
{
    if ds.len() == 0 {
        suites.len() == 0
    } else {
        let n = run_len(ds, file_name(ds[0]));
        proof {
            lemma_run_len_bound(ds, file_name(ds[0]));
        }
        if n == 0 {
            false
        } else {
        &&& suites.len() > 0
        &&& suites[0].name@ == file_name(ds[0])
        &&& suites[0].cases@.len() == n
        &&& forall|k: int| 0 <= k < n ==> is_case_of(#[trigger] suites[0].cases@[k], ds[k])
        &&& are_suites_of(suites.drop_first(), ds.skip(n as int))
        }
    }
}

#[verifier::spinoff_prover]
fn case_of(d: &Diagnostic, start: LineColumn) -> (c: JunitCase)
    requires
        start == start_of(*d),
    ensures
        is_case_of(c, *d),
{
    let mut name: Vec<char> = Vec::new();
    push_str(&mut name, "org.plasmafair.fortitude.");
    match &d.secondary_code {
        Some(code) => push_str(&mut name, code.as_str()),
        None => push_str(&mut name, d.name()),
    }
    let mut message: Vec<char> = Vec::new();
    push_concise(&mut message, d);
    let mut description: Vec<char> = Vec::new();
    push_str(&mut description, "line ");
    push_decimal(&mut description, start.line);
    push_str(&mut description, ", col ");
    push_decimal(&mut description, start.column);
    push_str(&mut description, ", ");
    push_all(&mut description, message.as_slice());
    JunitCase {
        name: string_of(name.as_slice()),
        message: string_of(message.as_slice()),
        description: string_of(description.as_slice()),
        line: start.line,
        column: start.column,
    }
}

fn name_and_start(d: &Diagnostic) -> (r: (Vec<char>, LineColumn))
    requires
        renderable(*d),
        has_primary(*d),
    ensures
        r.0@ == file_name(*d),
        r.1 == start_of(*d),
{
    let a = d.primary_annotation().unwrap();
    proof {
        crate::diagnostics::lemma_first_primary_is_primary(d.annotations@);
        let i = crate::diagnostics::first_primary(d.annotations@).unwrap();
        assert(span_ok(d.annotations@[i].span.file, d.annotations@[i].span.range));
    }
    let start = match a.span.range {
        Some(r) => line_column(&a.span.file, r.start),
        None => LineColumn::start(),
    };
    (chars_of(a.span.file.name()), start)
}

proof fn lemma_suites_step(suites: Seq<JunitSuite>, s: JunitSuite, ds: Seq<Diagnostic>, n: int)
    requires
        ds.len() > 0,
        n == run_len(ds, file_name(ds[0])),
        n > 0,
        s.name@ == file_name(ds[0]),
        s.cases@.len() == n,
        forall|k: int| 0 <= k < n ==> is_case_of(#[trigger] s.cases@[k], ds[k]),
        are_suites_of(suites, ds.skip(n)),
    ensures
        are_suites_of(seq![s] + suites, ds),
{
    assert((seq![s] + suites).drop_first() =~= suites);
}

/// Returns the JUnit report of `ds`: no errors when there is no diagnostic, else one suite per
/// file in the stable order of the files' names (see [`are_suites_of`]).
#[verifier::spinoff_prover]
#[verifier::rlimit(100)]
pub fn junit_report(ds: &Vec<Diagnostic>) -> (r: JunitReport)
    requires
        forall|i: int| 0 <= i < ds@.len() ==> renderable(#[trigger] ds@[i]) && has_primary(ds@[i]),
    ensures
        ds@.len() == 0 <==> r is NoErrors,
        r matches JunitReport::Suites(suites) ==> exists|order: Seq<usize>|
            sorted_by_keys(order, ds@.map_values(|d: Diagnostic| file_name(d))) && are_suites_of(
                suites@,
                in_order(ds@, order),
            ),
{
    if ds.len() == 0 {
        return JunitReport::NoErrors;
    }
    let mut names: Vec<Vec<char>> = Vec::new();
    let mut starts: Vec<LineColumn> = Vec::new();
    let mut i: usize = 0;
    while i < ds.len()
        invariant
            i <= ds@.len(),
            forall|m: int| 0 <= m < ds@.len() ==> renderable(#[trigger] ds@[m]) && has_primary(ds@[m]),
            names@.len() == i,
            starts@.len() == i,
            forall|m: int| 0 <= m < i ==> (#[trigger] names@[m])@ == file_name(ds@[m]),
            forall|m: int| 0 <= m < i ==> starts@[m] == start_of(#[trigger] ds@[m]),
        decreases ds@.len() - i,
    {
        assert(renderable(ds@[i as int]) && has_primary(ds@[i as int]));
        let (name, start) = name_and_start(&ds[i]);
        names.push(name);
        starts.push(start);
        i = i + 1;
    }
    let order = stable_order_by_key(&names);
    let ghost keys = ds@.map_values(|d: Diagnostic| file_name(d));
    assert(names@.map_values(|k: Vec<char>| k@) =~= keys);
    let ghost sd = in_order(ds@, order@);
    let n = order.len();
    // The suites are built from the last run to the first.
    let mut bounds: Vec<(usize, usize)> = Vec::new();
    let mut k: usize = 0;
    while k < n
        invariant
            k <= n,
            n == order@.len(),
            n == ds@.len(),
            names@.len() == n,
            crate::order::is_permutation(order@, n as nat),
            sd == in_order(ds@, order@),
            forall|m: int| 0 <= m < n ==> (#[trigger] names@[m])@ == file_name(ds@[m]),
            forall|b: int| 0 <= b < bounds@.len() ==> (#[trigger] bounds@[b]).0 < bounds@[b].1 <= k,
            bounds@.len() > 0 ==> bounds@.last().1 == k,
            bounds@.len() == 0 ==> k == 0,
            forall|b: int| 0 < b < bounds@.len() ==> (#[trigger] bounds@[b]).0 == bounds@[b - 1].1,
            bounds@.len() > 0 ==> bounds@[0].0 == 0,
            forall|b: int|
                0 <= b < bounds@.len() ==> run_len(sd.skip((#[trigger] bounds@[b]).0 as int), file_name(sd[bounds@[b].0 as int]))
                    == bounds@[b].1 - bounds@[b].0,
        decreases n - k,
    {
        let first = order[k];
        let mut e = k + 1;
        while e < n && same_name(names[order[e]].as_slice(), names[first].as_slice())
            invariant
                k < e <= n,
                n == order@.len(),
                names@.len() == n,
                first == order@[k as int],
                crate::order::is_permutation(order@, n as nat),
                forall|j: int| k <= j < e ==> (#[trigger] names@[order@[j] as int])@ == names@[first as int]@,
            decreases n - e,
        {
            e = e + 1;
        }
        proof {
            let rest = sd.skip(k as int);
            let name = file_name(sd[k as int]);
            assert(sd[k as int] == ds@[first as int]);
            assert forall|j: int| 0 <= j < e - k implies file_name(#[trigger] rest[j]) == name by {
                assert(rest[j] == sd[k + j]);
                assert(sd[k + j] == ds@[order@[k + j] as int]);
                assert(names@[order@[k + j] as int]@ == names@[first as int]@);
            }
            if e < n {
                assert(rest[e - k] == sd[e as int]);
                assert(sd[e as int] == ds@[order@[e as int] as int]);
            }
            crate::grouped::lemma_run_len_exact(rest, name, e - k);
        }
        bounds.push((k, e));
        k = e;
    }
    let mut suites: Vec<JunitSuite> = Vec::new();
    let mut b = bounds.len();
    assert(sd.skip(n as int) =~= Seq::<Diagnostic>::empty());
    while b > 0
        invariant
            b <= bounds@.len(),
            n == order@.len(),
            n == ds@.len(),
            names@.len() == n,
            starts@.len() == n,
            crate::order::is_permutation(order@, n as nat),
            sd == in_order(ds@, order@),
            forall|m: int| 0 <= m < n ==> (#[trigger] names@[m])@ == file_name(ds@[m]),
            forall|m: int| 0 <= m < n ==> starts@[m] == start_of(#[trigger] ds@[m]),
            forall|c: int| 0 <= c < bounds@.len() ==> (#[trigger] bounds@[c]).0 < bounds@[c].1 <= n,
            bounds@.len() > 0 ==> bounds@.last().1 == n,
            forall|c: int| 0 < c < bounds@.len() ==> (#[trigger] bounds@[c]).0 == bounds@[c - 1].1,
            bounds@.len() > 0 ==> bounds@[0].0 == 0,
            forall|c: int|
                0 <= c < bounds@.len() ==> run_len(sd.skip((#[trigger] bounds@[c]).0 as int), file_name(sd[bounds@[c].0 as int]))
                    == bounds@[c].1 - bounds@[c].0,
            are_suites_of(suites@, sd.skip(if b < bounds@.len() { bounds@[b as int].0 as int } else { n as int })),
        decreases b,
    {
        let (s, e) = bounds[b - 1];
        let ghost rest = sd.skip(s as int);
        let mut cases: Vec<JunitCase> = Vec::new();
        let mut j = s;
        while j < e
            invariant
                s <= j <= e <= n,
                n == order@.len(),
                n == ds@.len(),
                starts@.len() == n,
                crate::order::is_permutation(order@, n as nat),
                sd == in_order(ds@, order@),
                rest == sd.skip(s as int),
                forall|m: int| 0 <= m < n ==> starts@[m] == start_of(#[trigger] ds@[m]),
                cases@.len() == j - s,
                forall|m: int| 0 <= m < j - s ==> is_case_of(#[trigger] cases@[m], rest[m]),
            decreases e - j,
        {
            assert(rest[j - s] == sd[j as int]);
            assert(sd[j as int] == ds@[order@[j as int] as int]);
            cases.push(case_of(&ds[order[j]], starts[order[j]]));
            j = j + 1;
        }
        let suite = JunitSuite { name: string_of(names[order[s]].as_slice()), cases };
        proof {
            assert(sd[s as int] == ds@[order@[s as int] as int]);
            assert(rest[0] == sd[s as int]);
            if b < bounds@.len() {
                assert(bounds@[b as int].0 == e);
            }
            assert(rest.skip(e - s) =~= sd.skip(e as int));
            lemma_suites_step(suites@, suite, rest, e - s);
        }
        let mut rest_suites = suites;
        suites = Vec::new();
        suites.push(suite);
        suites.append(&mut rest_suites);
        b = b - 1;
    }
    proof {
        assert(sd.skip(0) =~= sd);
    }
    JunitReport::Suites(suites)
}

fn same_name(a: &[char], b: &[char]) -> (r: bool)
    ensures
        r == (a@ == b@),
{
    if a.len() != b.len() {
        return false;
    }
    let mut i: usize = 0;
    while i < a.len()
        invariant
            i <= a@.len(),
            a@.len() == b@.len(),
            forall|j: int| 0 <= j < i ==> a@[j] == b@[j],
        decreases a@.len() - i,
    {
        if a[i] != b[i] {
            return false;
        }
        i = i + 1;
    }
    assert(a@ =~= b@);
    true
}

} // verus!
