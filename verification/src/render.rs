//! Rendering diagnostics as the workflow commands and lines that CI services read: Azure
//! Pipelines logging commands, GitHub Actions annotations, and Pylint lines.
use vstd::prelude::*;
use crate::diagnostics::{
    concise_of, first_primary, id_name, secondary_positions, Annotation, Diagnostic, Severity,
    SubDiagnostic, SubDiagnosticSeverity,
};
use crate::source::{line_column, line_column_of, locatable, LineColumn, SourceFile};
use crate::text::{chars_of, push_all, string_of};
use crate::write::{decimal, push_decimal, push_str};

verus! {

/// Whether a span can be rendered: its file is well formed, and its range, if any, can be
/// located in it.
pub open spec fn span_ok(file: SourceFile, range: Option<crate::range::TextRange>) -> bool {
    &&& file.wf()
    &&& file.text@.len() < usize::MAX
    &&& match range {
        Some(r) => locatable(file, r.start as int) && locatable(file, r.end as int),
        None => true,
    }
}

/// Whether every annotation of `anns` can be rendered.
pub open spec fn annotations_ok(anns: Seq<Annotation>) -> bool {
    forall|i: int| 0 <= i < anns.len() ==> span_ok(#[trigger] anns[i].span.file, anns[i].span.range)
}

/// Whether every annotation of `d` and of its sub-diagnostics can be rendered.
pub open spec fn renderable(d: Diagnostic) -> bool {
    &&& annotations_ok(d.annotations@)
    &&& forall|j: int| 0 <= j < d.subs@.len() ==> annotations_ok(#[trigger] d.subs@[j].annotations@)
}

/// Whether every diagnostic of `ds` can be rendered.
pub open spec fn all_renderable(ds: Seq<Diagnostic>) -> bool {
    forall|i: int| 0 <= i < ds.len() ==> renderable(#[trigger] ds[i])
}

fn locatable_exec(file: &SourceFile, offset: u32) -> (b: bool)
    ensures
        b ==> locatable(*file, offset as int),
{
    if offset > file.index.len_exec() {
        return false;
    }
    match crate::text::char_pos_of_byte(file.text.as_slice(), offset as usize) {
        Some(p) => {
            assert(crate::text::at_byte(file.text@, p as int, offset as int));
            true
        },
        None => false,
    }
}

fn annotations_ok_exec(anns: &Vec<Annotation>) -> (b: bool)
    ensures
        b ==> annotations_ok(anns@),
{
    let mut i: usize = 0;
    while i < anns.len()
        invariant
            i <= anns@.len(),
            forall|k: int| 0 <= k < i ==> span_ok(#[trigger] anns@[k].span.file, anns@[k].span.range),
        decreases anns@.len() - i,
    {
        let span = &anns[i].span;
        if !span.file.check_wf() || span.file.text.len() == usize::MAX {
            return false;
        }
        match span.range {
            Some(r) => {
                if !locatable_exec(&span.file, r.start) || !locatable_exec(&span.file, r.end) {
                    return false;
                }
            },
            None => {},
        }
        i = i + 1;
    }
    true
}

/// Returns whether every diagnostic of `ds` can be rendered: when it holds,
/// [`all_renderable`] does.
pub fn all_renderable_exec(ds: &Vec<Diagnostic>) -> (b: bool)
    ensures
        b ==> all_renderable(ds@),
{
    let mut i: usize = 0;
    while i < ds.len()
        invariant
            i <= ds@.len(),
            forall|k: int| 0 <= k < i ==> renderable(#[trigger] ds@[k]),
        decreases ds@.len() - i,
    {
        let d = &ds[i];
        if !annotations_ok_exec(&d.annotations) {
            return false;
        }
        let mut j: usize = 0;
        while j < d.subs.len()
            invariant
                j <= d.subs@.len(),
                forall|k: int| 0 <= k < j ==> annotations_ok(#[trigger] d.subs@[k].annotations@),
            decreases d.subs@.len() - j,
        {
            if !annotations_ok_exec(&d.subs[j].annotations) {
                return false;
            }
            j = j + 1;
        }
        i = i + 1;
    }
    true
}

/// The concise message of a diagnostic with main message `main`, custom concise message
/// `custom` and annotations `anns`: `"{main}: {annotation}"` when the primary annotation has a
/// message, the custom message when there is one, and the main message otherwise.
pub open spec fn concise_message_text(
    main: Seq<char>,
    custom: Option<String>,
    anns: Seq<Annotation>,
) -> Seq<char> {
    let (kind, m, a) = concise_of(main, custom, anns);
    if kind == 1 {
        m + ": "@ + a
    } else {
        m
    }
}

/// The concise message of `d`.
pub open spec fn diagnostic_text(d: Diagnostic) -> Seq<char> {
    concise_message_text(d.message@, d.custom_concise_message, d.annotations@)
}

pub(crate) fn push_concise(out: &mut Vec<char>, d: &Diagnostic)
    ensures
        final(out)@ == old(out)@ + diagnostic_text(*d),
{
    let m = d.concise_message();
    let s = m.to_str();
    push_str(out, s.as_str());
}

fn push_sub_concise(out: &mut Vec<char>, sub: &SubDiagnostic)
    ensures
        final(out)@ == old(out)@ + concise_message_text(sub.message@, None, sub.annotations@),
{
    let main = sub.message.as_str();
    let mut annotation: Vec<char> = Vec::new();
    let mut i: usize = 0;
    while i < sub.annotations.len() && !sub.annotations[i].is_primary
        invariant
            i <= sub.annotations@.len(),
            forall|j: int| 0 <= j < i ==> !sub.annotations@[j].is_primary,
        decreases sub.annotations@.len() - i,
    {
        i = i + 1;
    }
    proof {
        if i < sub.annotations@.len() {
            crate::diagnostics::lemma_first_primary_pub(sub.annotations@, i as int);
        } else {
            assert(!(exists|k: int| 0 <= k < sub.annotations@.len() && sub.annotations@[k].is_primary));
        }
    }
    if i < sub.annotations.len() {
        match &sub.annotations[i].message {
            Some(m) => {
                annotation = chars_of(m.as_str());
            },
            None => {},
        }
    }
    push_str(out, main);
    if annotation.len() > 0 {
        push_str(out, ": ");
        push_all(out, annotation.as_slice());
    }
}

/// The path of `name` relative to the directory `cwd`: what follows `cwd` and a `/`, or `name`
/// itself when it is not below `cwd`.
pub open spec fn relative_path(name: Seq<char>, cwd: Seq<char>) -> Seq<char> {
    let prefix = if cwd.len() > 0 && cwd.last() == '/' {
        cwd
    } else {
        cwd.push('/')
    };
    if cwd.len() > 0 && name == cwd {
        Seq::empty()
    } else if cwd.len() > 0 && prefix.len() <= name.len() && name.take(prefix.len() as int) == prefix {
        name.skip(prefix.len() as int)
    } else {
        name
    }
}

/// Returns the path of `name` relative to the directory `cwd` (see [`relative_path`]).
pub fn relativize_path(name: &str, cwd: &str) -> (s: Vec<char>)
    ensures
        s@ == relative_path(name@, cwd@),
{
    let n = chars_of(name);
    let mut prefix = chars_of(cwd);
    let empty = prefix.len() == 0;
    if empty {
        return n;
    }
    if crate::text::str_eq(name, cwd) {
        return Vec::new();
    }
    if prefix[prefix.len() - 1] != '/' {
        prefix.push('/');
    }
    if crate::text::has_prefix(n.as_slice(), prefix.as_slice()) {
        crate::text::tail_from(n.as_slice(), prefix.len())
    } else {
        n
    }
}

/// The decimal text of `n`.
pub open spec fn num(n: usize) -> Seq<char> {
    decimal(n as nat)
}

/// The location of a span, as its start and end line and column; line one, column one for a
/// span without a range.
pub open spec fn span_locations(file: SourceFile, range: Option<crate::range::TextRange>) -> (
    LineColumn,
    LineColumn,
) {
    match range {
        Some(r) => (line_column_of(file, r.start as int), line_column_of(file, r.end as int)),
        None => (LineColumn { line: 1, column: 1 }, LineColumn { line: 1, column: 1 }),
    }
}

pub(crate) fn locations(file: &SourceFile, range: Option<crate::range::TextRange>) -> (l: (LineColumn, LineColumn))
    requires
        span_ok(*file, range),
    ensures
        l == span_locations(*file, range),
{
    match range {
        Some(r) => (line_column(file, r.start), line_column(file, r.end)),
        None => (LineColumn::start(), LineColumn::start()),
    }
}

/// The Azure Pipelines name of a severity.
pub open spec fn azure_severity(s: Severity) -> Seq<char> {
    match s {
        Severity::Info => "debug"@,
        Severity::Warning => "warning"@,
        Severity::Error => "error"@,
        Severity::Fatal => "error"@,
    }
}

/// The code of `d` shown to CI services: its secondary code, or the name of its identifier.
pub open spec fn shown_code(d: Diagnostic) -> Seq<char> {
    match d.secondary_code {
        Some(c) => c.0@,
        None => id_name(d.id),
    }
}

/// The Azure Pipelines logging command for `d`.
pub open spec fn azure_line(d: Diagnostic) -> Seq<char> {
    "##vso[task.logissue type="@ + azure_severity(d.severity) + ";"@ + azure_location(d) + "code="@
        + shown_code(d) + ";]"@ + diagnostic_text(d) + "\n"@
}

/// The concatenation of `line` applied to each of `ds`.
pub open spec fn lines_of(ds: Seq<Diagnostic>, line: spec_fn(Diagnostic) -> Seq<char>) -> Seq<char>
    decreases ds.len(),
{
    if ds.len() == 0 {
        Seq::empty()
    } else {
        lines_of(ds.drop_last(), line) + line(ds.last())
    }
}

/// The location part of the Azure Pipelines logging command for `d`.
pub open spec fn azure_location(d: Diagnostic) -> Seq<char> {
    match first_primary(d.annotations@) {
        Some(i) => {
            let span = d.annotations@[i].span;
            "sourcepath="@ + span.file.name@ + ";"@ + match span.range {
                Some(r) => {
                    let lc = line_column_of(span.file, r.start as int);
                    "linenumber="@ + num(lc.line) + ";columnnumber="@ + num(lc.column) + ";"@
                },
                None => Seq::empty(),
            }
        },
        None => Seq::empty(),
    }
}

fn push_azure_location(out: &mut Vec<char>, d: &Diagnostic)
    requires
        renderable(*d),
    ensures
        final(out)@ == old(out)@ + azure_location(*d),
{
    match d.primary_annotation() {
        Some(a) => {
            proof {
                crate::diagnostics::lemma_first_primary_is_primary(d.annotations@);
                let i = first_primary(d.annotations@).unwrap();
                assert(span_ok(d.annotations@[i].span.file, d.annotations@[i].span.range));
            }
            push_str(out, "sourcepath=");
            push_str(out, a.span.file.name());
            push_str(out, ";");
            match a.span.range {
                Some(r) => {
                    let lc = line_column(&a.span.file, r.start);
                    push_str(out, "linenumber=");
                    push_decimal(out, lc.line);
                    push_str(out, ";columnnumber=");
                    push_decimal(out, lc.column);
                    push_str(out, ";");
                },
                None => {},
            }
        },
        None => {},
    }
}

#[verifier::spinoff_prover]
#[verifier::rlimit(100)]
fn push_azure_line(out: &mut Vec<char>, d: &Diagnostic)
    requires
        renderable(*d),
    ensures
        final(out)@ == old(out)@ + azure_line(*d),
{
    push_str(out, "##vso[task.logissue type=");
    match d.severity {
        Severity::Info => push_str(out, "debug"),
        Severity::Warning => push_str(out, "warning"),
        Severity::Error => push_str(out, "error"),
        Severity::Fatal => push_str(out, "error"),
    }
    push_str(out, ";");
    push_azure_location(out, d);
    push_str(out, "code=");
    push_str(out, d.secondary_code_or_id());
    push_str(out, ";]");
    push_concise(out, d);
    push_str(out, "\n");
}

/// Renders `ds` as Azure Pipelines logging commands, one line each.
pub fn render_azure(ds: &Vec<Diagnostic>) -> (s: String)
    requires
        all_renderable(ds@),
    ensures
        s@ == lines_of(ds@, |d: Diagnostic| azure_line(d)),
{
    let mut out: Vec<char> = Vec::new();
    let mut i: usize = 0;
    while i < ds.len()
        invariant
            i <= ds@.len(),
            all_renderable(ds@),
            out@ == lines_of(ds@.take(i as int), |d: Diagnostic| azure_line(d)),
        decreases ds@.len() - i,
    {
        assert(renderable(ds@[i as int]));
        push_azure_line(&mut out, &ds[i]);
        assert(ds@.take(i + 1).drop_last() =~= ds@.take(i as int));
        i = i + 1;
    }
    assert(ds@.take(i as int) =~= ds@);
    string_of(out.as_slice())
}

/// The Pylint line for `d`: path relative to `cwd`, line, code, and message.
pub open spec fn pylint_line(d: Diagnostic, cwd: Seq<char>) -> Seq<char> {
    let (path, row) = match first_primary(d.annotations@) {
        Some(i) => {
            let span = d.annotations@[i].span;
            (
                relative_path(span.file.name@, cwd),
                match span.range {
                    Some(r) => line_column_of(span.file, r.start as int).line,
                    None => 1usize,
                },
            )
        },
        None => (Seq::empty(), 1usize),
    };
    path + ":"@ + num(row) + ": ["@ + shown_code(d) + "] "@ + diagnostic_text(d) + "\n"@
}

fn push_pylint_line(out: &mut Vec<char>, d: &Diagnostic, cwd: &str)
    requires
        renderable(*d),
    ensures
        final(out)@ == old(out)@ + pylint_line(*d, cwd@),
{
    let (path, row): (Vec<char>, usize) = match d.primary_annotation() {
        Some(a) => {
            proof {
                crate::diagnostics::lemma_first_primary_is_primary(d.annotations@);
                let i = first_primary(d.annotations@).unwrap();
                assert(span_ok(d.annotations@[i].span.file, d.annotations@[i].span.range));
            }
            let path = relativize_path(a.span.file.name(), cwd);
            let row = match a.span.range {
                Some(r) => line_column(&a.span.file, r.start).line,
                None => 1,
            };
            (path, row)
        },
        None => (Vec::new(), 1),
    };
    push_all(out, path.as_slice());
    push_str(out, ":");
    push_decimal(out, row);
    push_str(out, ": [");
    push_str(out, d.secondary_code_or_id());
    push_str(out, "] ");
    push_concise(out, d);
    push_str(out, "\n");
}

/// Renders `ds` as Pylint lines (`{path}:{row}: [{code}] {message}`), with paths relative to
/// `cwd`.
pub fn render_pylint(ds: &Vec<Diagnostic>, cwd: &str) -> (s: String)
    requires
        all_renderable(ds@),
    ensures
        s@ == lines_of(ds@, |d: Diagnostic| pylint_line(d, cwd@)),
{
    let mut out: Vec<char> = Vec::new();
    let mut i: usize = 0;
    while i < ds.len()
        invariant
            i <= ds@.len(),
            all_renderable(ds@),
            out@ == lines_of(ds@.take(i as int), |d: Diagnostic| pylint_line(d, cwd@)),
        decreases ds@.len() - i,
    {
        assert(renderable(ds@[i as int]));
        push_pylint_line(&mut out, &ds[i], cwd);
        assert(ds@.take(i + 1).drop_last() =~= ds@.take(i as int));
        i = i + 1;
    }
    assert(ds@.take(i as int) =~= ds@);
    string_of(out.as_slice())
}

/// The GitHub Actions name of a severity.
pub open spec fn github_severity(s: Severity) -> Seq<char> {
    match s {
        Severity::Info => "notice"@,
        Severity::Warning => "warning"@,
        Severity::Error => "error"@,
        Severity::Fatal => "error"@,
    }
}

/// The name under which a sub-diagnostic's severity is shown in GitHub annotations.
pub open spec fn sub_severity_text(s: SubDiagnosticSeverity) -> Seq<char> {
    match s {
        SubDiagnosticSeverity::Help => "help"@,
        SubDiagnosticSeverity::Info => "info"@,
        SubDiagnosticSeverity::Warning => "warning"@,
        SubDiagnosticSeverity::Error => "error"@,
        SubDiagnosticSeverity::Fatal => "error"@,
    }
}

/// Whether an annotation is shown as a note: it has a message and a range.
pub open spec fn annotation_shown(a: Annotation) -> bool {
    a.message is Some && a.span.range is Some
}

/// The note of a shown annotation: where it starts, relative to `cwd`, and its message.
pub open spec fn annotation_note(a: Annotation, cwd: Seq<char>) -> Seq<char> {
    let lc = line_column_of(a.span.file, a.span.range.unwrap().start as int);
    "  "@ + relative_path(a.span.file.name@, cwd) + ":"@ + num(lc.line) + ":"@ + num(lc.column)
        + ":"@ + " "@ + a.message.unwrap()@
}

/// The notes of the annotations of `anns` at `positions` that are shown, each after `sep`.
pub open spec fn annotation_notes(
    anns: Seq<Annotation>,
    positions: Seq<usize>,
    sep: Seq<char>,
    cwd: Seq<char>,
) -> Seq<char>
    decreases positions.len(),
{
    if positions.len() == 0 {
        Seq::empty()
    } else {
        let a = anns[positions.last() as int];
        annotation_notes(anns, positions.drop_last(), sep, cwd) + if annotation_shown(a) {
            sep + annotation_note(a, cwd)
        } else {
            Seq::empty()
        }
    }
}

/// The text of a sub-diagnostic in a GitHub annotation: where its primary annotation starts
/// (when it has one with a range), its severity and message, then the notes of its other
/// annotations.
pub open spec fn sub_text(sub: SubDiagnostic, cwd: Seq<char>) -> Seq<char> {
    sub_head(sub, cwd) + annotation_notes(sub.annotations@, secondary_positions(sub.annotations@), "%0A  "@, cwd)
}

/// The first part of the text of a sub-diagnostic: where it is, its severity, and its message.
pub open spec fn sub_head(sub: SubDiagnostic, cwd: Seq<char>) -> Seq<char> {
    let message = concise_message_text(sub.message@, None, sub.annotations@);
    let head = match first_primary(sub.annotations@) {
        Some(i) => {
            let span = sub.annotations@[i].span;
            match span.range {
                Some(r) => {
                    let lc = line_column_of(span.file, r.start as int);
                    "%0A  "@ + relative_path(span.file.name@, cwd) + ":"@ + num(lc.line) + ":"@ + num(
                        lc.column,
                    ) + ": "@ + sub_severity_text(sub.severity) + ": "@ + message
                },
                None => "%0A  "@ + sub_severity_text(sub.severity) + ": "@ + message,
            }
        },
        None => "%0A  "@ + sub_severity_text(sub.severity) + ": "@ + message,
    };
    head
}

/// The texts of the sub-diagnostics `subs`.
pub open spec fn subs_text(subs: Seq<SubDiagnostic>, cwd: Seq<char>) -> Seq<char>
    decreases subs.len(),
{
    if subs.len() == 0 {
        Seq::empty()
    } else {
        subs_text(subs.drop_last(), cwd) + sub_text(subs.last(), cwd)
    }
}

/// The location part of the GitHub annotation of `d`.
pub open spec fn github_location(d: Diagnostic, cwd: Seq<char>) -> Seq<char> {
    match first_primary(d.annotations@) {
        Some(i) => {
            let span = d.annotations@[i].span;
            let (s, e) = span_locations(span.file, span.range);
            ",file="@ + span.file.name@ + if s.line == e.line {
                ",line="@ + num(s.line) + ",col="@ + num(s.column) + ",endLine="@ + num(e.line)
                    + ",endColumn="@ + num(e.column) + "::"@
            } else {
                ",line="@ + num(s.line) + ",endLine="@ + num(e.line) + "::"@
            } + relative_path(span.file.name@, cwd) + ":"@ + num(s.line) + ":"@ + num(s.column)
                + ": "@
        },
        None => "::"@,
    }
}

/// The GitHub Actions annotation for `d`, with paths relative to `cwd`.
pub open spec fn github_line(d: Diagnostic, cwd: Seq<char>) -> Seq<char> {
    github_head(d, cwd) + annotation_notes(
        d.annotations@,
        secondary_positions(d.annotations@),
        "%0A"@,
        cwd,
    ) + subs_text(d.subs@, cwd) + "\n"@
}

/// The first part of the GitHub annotation for `d`: severity, title, location, code and
/// message.
pub open spec fn github_head(d: Diagnostic, cwd: Seq<char>) -> Seq<char> {
    let code = match d.secondary_code {
        Some(c) => c.0@,
        None => id_name(d.id) + ":"@,
    };
    "::"@ + github_severity(d.severity) + " title=fortitude ("@ + shown_code(d) + ")"@
        + github_location(d, cwd) + code + " "@ + diagnostic_text(d)
}

pub(crate) fn push_location(out: &mut Vec<char>, file: &SourceFile, offset: u32, cwd: &str)
    requires
        file.wf(),
        locatable(*file, offset as int),
        file.text@.len() < usize::MAX,
    ensures
        final(out)@ == old(out)@ + relative_path(file.name@, cwd@) + ":"@ + num(
            line_column_of(*file, offset as int).line,
        ) + ":"@ + num(line_column_of(*file, offset as int).column),
{
    let lc = line_column(file, offset);
    let path = relativize_path(file.name(), cwd);
    push_all(out, path.as_slice());
    push_str(out, ":");
    push_decimal(out, lc.line);
    push_str(out, ":");
    push_decimal(out, lc.column);
}

fn push_annotation_notes(
    out: &mut Vec<char>,
    anns: &Vec<Annotation>,
    positions: &Vec<usize>,
    sep: &str,
    cwd: &str,
)
    requires
        annotations_ok(anns@),
        forall|k: int| 0 <= k < positions@.len() ==> #[trigger] positions@[k] < anns@.len(),
    ensures
        final(out)@ == old(out)@ + annotation_notes(anns@, positions@, sep@, cwd@),
{
    let ghost start = old(out)@;
    let mut k: usize = 0;
    while k < positions.len()
        invariant
            k <= positions@.len(),
            annotations_ok(anns@),
            forall|t: int| 0 <= t < positions@.len() ==> #[trigger] positions@[t] < anns@.len(),
            out@ == start + annotation_notes(anns@, positions@.take(k as int), sep@, cwd@),
        decreases positions@.len() - k,
    {
        assert(positions@[k as int] < anns@.len());
        let a = &anns[positions[k]];
        assert(span_ok(anns@[positions@[k as int] as int].span.file, anns@[positions@[k as int] as int].span.range));
        let ghost before = out@;
        match (&a.message, a.span.range) {
            (Some(m), Some(r)) => {
                push_str(out, sep);
                push_str(out, "  ");
                push_location(out, &a.span.file, r.start, cwd);
                push_str(out, ":");
                push_str(out, " ");
                push_str(out, m.as_str());
            },
            _ => {},
        }
        proof {
            assert(positions@.take(k + 1).drop_last() =~= positions@.take(k as int));
            assert(out@ =~= start + annotation_notes(anns@, positions@.take(k + 1), sep@, cwd@));
        }
        k = k + 1;
    }
    assert(positions@.take(k as int) =~= positions@);
}

proof fn lemma_secondary_positions_bound(anns: Seq<Annotation>)
    ensures
        forall|k: int|
            0 <= k < secondary_positions(anns).len() ==> #[trigger] secondary_positions(anns)[k] < anns.len(),
{
    crate::diagnostics::lemma_first_primary_is_primary(anns);
    let all = Seq::new(anns.len(), |i: int| i as usize);
    assert forall|k: int| 0 <= k < secondary_positions(anns).len() implies #[trigger] secondary_positions(anns)[k] < anns.len() by {
        match first_primary(anns) {
            Some(p) => {
                if k < p {
                    assert(secondary_positions(anns)[k] == all[k]);
                } else {
                    assert(secondary_positions(anns)[k] == all[k + 1]);
                }
            },
            None => {
                assert(secondary_positions(anns)[k] == all[k]);
            },
        }
    }
}

#[verifier::spinoff_prover]
#[verifier::rlimit(100)]
fn push_sub_head(out: &mut Vec<char>, sub: &SubDiagnostic, cwd: &str)
    requires
        annotations_ok(sub.annotations@),
    ensures
        final(out)@ == old(out)@ + sub_head(*sub, cwd@),
{
    let mut primary: usize = 0;
    while primary < sub.annotations.len() && !sub.annotations[primary].is_primary
        invariant
            primary <= sub.annotations@.len(),
            forall|j: int| 0 <= j < primary ==> !sub.annotations@[j].is_primary,
        decreases sub.annotations@.len() - primary,
    {
        primary = primary + 1;
    }
    proof {
        if primary < sub.annotations@.len() {
            crate::diagnostics::lemma_first_primary_pub(sub.annotations@, primary as int);
            assert(span_ok(sub.annotations@[primary as int].span.file, sub.annotations@[primary as int].span.range));
        } else {
            assert(!(exists|k: int| 0 <= k < sub.annotations@.len() && sub.annotations@[k].is_primary));
        }
    }
    let mut located = false;
    if primary < sub.annotations.len() {
        let a = &sub.annotations[primary];
        match a.span.range {
            Some(r) => {
                push_str(out, "%0A  ");
                push_location(out, &a.span.file, r.start, cwd);
                push_str(out, ": ");
                located = true;
            },
            None => {},
        }
    }
    if !located {
        push_str(out, "%0A  ");
    }
    match sub.severity {
        SubDiagnosticSeverity::Help => push_str(out, "help"),
        SubDiagnosticSeverity::Info => push_str(out, "info"),
        SubDiagnosticSeverity::Warning => push_str(out, "warning"),
        SubDiagnosticSeverity::Error => push_str(out, "error"),
        SubDiagnosticSeverity::Fatal => push_str(out, "error"),
    }
    push_str(out, ": ");
    push_sub_concise(out, sub);
}

fn push_sub_text(out: &mut Vec<char>, sub: &SubDiagnostic, cwd: &str)
    requires
        annotations_ok(sub.annotations@),
    ensures
        final(out)@ == old(out)@ + sub_text(*sub, cwd@),
{
    push_sub_head(out, sub, cwd);
    let positions = crate::diagnostics::secondary_annotation_positions(&sub.annotations);
    proof {
        lemma_secondary_positions_bound(sub.annotations@);
    }
    push_annotation_notes(out, &sub.annotations, &positions, "%0A  ", cwd);
}

#[verifier::spinoff_prover]
#[verifier::rlimit(100)]
fn push_github_location(out: &mut Vec<char>, d: &Diagnostic, cwd: &str)
    requires
        renderable(*d),
    ensures
        final(out)@ == old(out)@ + github_location(*d, cwd@),
{
    match d.primary_annotation() {
        Some(a) => {
            proof {
                crate::diagnostics::lemma_first_primary_is_primary(d.annotations@);
                let i = first_primary(d.annotations@).unwrap();
                assert(span_ok(d.annotations@[i].span.file, d.annotations@[i].span.range));
            }
            push_str(out, ",file=");
            push_str(out, a.span.file.name());
            let (s, e) = locations(&a.span.file, a.span.range);
            if s.line == e.line {
                push_str(out, ",line=");
                push_decimal(out, s.line);
                push_str(out, ",col=");
                push_decimal(out, s.column);
                push_str(out, ",endLine=");
                push_decimal(out, e.line);
                push_str(out, ",endColumn=");
                push_decimal(out, e.column);
                push_str(out, "::");
            } else {
                push_str(out, ",line=");
                push_decimal(out, s.line);
                push_str(out, ",endLine=");
                push_decimal(out, e.line);
                push_str(out, "::");
            }
            let path = relativize_path(a.span.file.name(), cwd);
            push_all(out, path.as_slice());
            push_str(out, ":");
            push_decimal(out, s.line);
            push_str(out, ":");
            push_decimal(out, s.column);
            push_str(out, ": ");
        },
        None => {
            push_str(out, "::");
        },
    }
}

#[verifier::spinoff_prover]
#[verifier::rlimit(100)]
fn push_github_head(out: &mut Vec<char>, d: &Diagnostic, cwd: &str)
    requires
        renderable(*d),
    ensures
        final(out)@ == old(out)@ + github_head(*d, cwd@),
{
    push_str(out, "::");
    match d.severity {
        Severity::Info => push_str(out, "notice"),
        Severity::Warning => push_str(out, "warning"),
        Severity::Error => push_str(out, "error"),
        Severity::Fatal => push_str(out, "error"),
    }
    push_str(out, " title=fortitude (");
    push_str(out, d.secondary_code_or_id());
    push_str(out, ")");
    let ghost mid = out@;
    push_github_location(out, d, cwd);
    let ghost after_location = out@;
    match &d.secondary_code {
        Some(c) => push_str(out, c.as_str()),
        None => {
            push_str(out, d.name());
            push_str(out, ":");
        },
    }
    push_str(out, " ");
    push_concise(out, d);
    assert(out@ =~= old(out)@ + github_head(*d, cwd@));
}

fn push_subs(out: &mut Vec<char>, d: &Diagnostic, cwd: &str)
    requires
        renderable(*d),
    ensures
        final(out)@ == old(out)@ + subs_text(d.subs@, cwd@),
{
    let ghost before_subs = old(out)@;
    let mut j: usize = 0;
    assert(d.subs@.take(0) =~= Seq::<SubDiagnostic>::empty());
    while j < d.subs.len()
        invariant
            j <= d.subs@.len(),
            renderable(*d),
            out@ == before_subs + subs_text(d.subs@.take(j as int), cwd@),
        decreases d.subs@.len() - j,
    {
        assert(annotations_ok(d.subs@[j as int].annotations@));
        push_sub_text(out, &d.subs[j], cwd);
        assert(d.subs@.take(j + 1).drop_last() =~= d.subs@.take(j as int));
        j = j + 1;
    }
    assert(d.subs@.take(j as int) =~= d.subs@);
}

fn push_github_line(out: &mut Vec<char>, d: &Diagnostic, cwd: &str)
    requires
        renderable(*d),
    ensures
        final(out)@ == old(out)@ + github_line(*d, cwd@),
{
    push_github_head(out, d, cwd);
    let positions = d.secondary_annotations();
    proof {
        lemma_secondary_positions_bound(d.annotations@);
    }
    push_annotation_notes(out, &d.annotations, &positions, "%0A", cwd);
    push_subs(out, d, cwd);
    push_str(out, "\n");
}

/// Renders `ds` as GitHub Actions workflow commands, one line each, with paths relative to
/// `cwd`.
pub fn render_github(ds: &Vec<Diagnostic>, cwd: &str) -> (s: String)
    requires
        all_renderable(ds@),
    ensures
        s@ == lines_of(ds@, |d: Diagnostic| github_line(d, cwd@)),
{
    let mut out: Vec<char> = Vec::new();
    let mut i: usize = 0;
    while i < ds.len()
        invariant
            i <= ds@.len(),
            all_renderable(ds@),
            out@ == lines_of(ds@.take(i as int), |d: Diagnostic| github_line(d, cwd@)),
        decreases ds@.len() - i,
    {
        assert(renderable(ds@[i as int]));
        push_github_line(&mut out, &ds[i], cwd);
        assert(ds@.take(i + 1).drop_last() =~= ds@.take(i as int));
        i = i + 1;
    }
    assert(ds@.take(i as int) =~= ds@);
    string_of(out.as_slice())
}

/// The file name and start location of a diagnostic, as emitters of plain messages show them:
/// those of its primary annotation (line one, column one without a range), or an empty name.
pub open spec fn message_location(d: Diagnostic) -> (Seq<char>, LineColumn) {
    match first_primary(d.annotations@) {
        Some(i) => {
            let span = d.annotations@[i].span;
            (span.file.name@, span_locations(span.file, span.range).0)
        },
        None => (Seq::empty(), LineColumn { line: 1, column: 1 }),
    }
}

fn location_of(d: &Diagnostic) -> (r: (Vec<char>, LineColumn))
    requires
        renderable(*d),
    ensures
        r.0@ == message_location(*d).0,
        r.1 == message_location(*d).1,
{
    match d.primary_annotation() {
        Some(a) => {
            proof {
                crate::diagnostics::lemma_first_primary_is_primary(d.annotations@);
                let i = first_primary(d.annotations@).unwrap();
                assert(span_ok(d.annotations@[i].span.file, d.annotations@[i].span.range));
            }
            let (s, _e) = locations(&a.span.file, a.span.range);
            (chars_of(a.span.file.name()), s)
        },
        None => (Vec::new(), LineColumn::start()),
    }
}

/// Emits messages as Azure Pipelines logging commands, all of type error.
#[derive(Debug, Clone, Copy, Default)]
pub struct AzureEmitter;

/// The Azure Pipelines logging command for the message `d`.
pub open spec fn azure_message(d: Diagnostic) -> Seq<char> {
    let (file, lc) = message_location(d);
    "##vso[task.logissue type=error;sourcepath="@ + file + ";linenumber="@ + num(lc.line)
        + ";columnnumber="@ + num(lc.column) + ";"@ + match d.secondary_code {
        Some(c) => "code="@ + c.0@ + ";"@,
        None => Seq::empty(),
    } + "]"@ + d.message@ + "\n"@
}

impl AzureEmitter {
    /// Returns the logging commands for `messages`, one line each.
    #[verifier::spinoff_prover]
    #[verifier::rlimit(60)]
    pub fn emit(&self, messages: &Vec<Diagnostic>) -> (s: String)
        requires
            all_renderable(messages@),
        ensures
            s@ == lines_of(messages@, |d: Diagnostic| azure_message(d)),
    {
        let mut out: Vec<char> = Vec::new();
        let mut i: usize = 0;
        while i < messages.len()
            invariant
                i <= messages@.len(),
                all_renderable(messages@),
                out@ == lines_of(messages@.take(i as int), |d: Diagnostic| azure_message(d)),
            decreases messages@.len() - i,
        {
            let d = &messages[i];
            assert(renderable(messages@[i as int]));
            let ghost before = out@;
            let (file, lc) = location_of(d);
            push_str(&mut out, "##vso[task.logissue type=error;sourcepath=");
            push_all(&mut out, file.as_slice());
            push_str(&mut out, ";linenumber=");
            push_decimal(&mut out, lc.line);
            push_str(&mut out, ";columnnumber=");
            push_decimal(&mut out, lc.column);
            push_str(&mut out, ";");
            match &d.secondary_code {
                Some(c) => {
                    push_str(&mut out, "code=");
                    push_str(&mut out, c.as_str());
                    push_str(&mut out, ";");
                },
                None => {},
            }
            push_str(&mut out, "]");
            push_str(&mut out, d.message.as_str());
            push_str(&mut out, "\n");
            proof {
                assert(out@ =~= before + azure_message(messages@[i as int]));
                assert(messages@.take(i + 1).drop_last() =~= messages@.take(i as int));
            }
            i = i + 1;
        }
        assert(messages@.take(i as int) =~= messages@);
        string_of(out.as_slice())
    }
}

/// Emits messages as Pylint lines.
#[derive(Debug, Clone, Copy, Default)]
pub struct PylintEmitter;

/// The Pylint line for the message `d`, with its path relative to `cwd`.
pub open spec fn pylint_message(d: Diagnostic, cwd: Seq<char>) -> Seq<char> {
    let (file, lc) = message_location(d);
    relative_path(file, cwd) + ":"@ + num(lc.line) + ": "@ + match d.secondary_code {
        Some(c) => "["@ + c.0@ + "] "@ + d.message@,
        None => d.message@,
    } + "\n"@
}

impl PylintEmitter {
    /// Returns the Pylint lines for `messages`, with paths relative to `cwd`.
    pub fn emit(&self, messages: &Vec<Diagnostic>, cwd: &str) -> (s: String)
        requires
            all_renderable(messages@),
        ensures
            s@ == lines_of(messages@, |d: Diagnostic| pylint_message(d, cwd@)),
    {
        let mut out: Vec<char> = Vec::new();
        let mut i: usize = 0;
        while i < messages.len()
            invariant
                i <= messages@.len(),
                all_renderable(messages@),
                out@ == lines_of(messages@.take(i as int), |d: Diagnostic| pylint_message(d, cwd@)),
            decreases messages@.len() - i,
        {
            let d = &messages[i];
            assert(renderable(messages@[i as int]));
            let ghost before = out@;
            let (file, lc) = location_of(d);
            let name = string_of(file.as_slice());
            let path = relativize_path(name.as_str(), cwd);
            push_all(&mut out, path.as_slice());
            push_str(&mut out, ":");
            push_decimal(&mut out, lc.line);
            push_str(&mut out, ": ");
            match &d.secondary_code {
                Some(c) => {
                    push_str(&mut out, "[");
                    push_str(&mut out, c.as_str());
                    push_str(&mut out, "] ");
                    push_str(&mut out, d.message.as_str());
                },
                None => {
                    push_str(&mut out, d.message.as_str());
                },
            }
            push_str(&mut out, "\n");
            proof {
                assert(out@ =~= before + pylint_message(messages@[i as int], cwd@));
                assert(messages@.take(i + 1).drop_last() =~= messages@.take(i as int));
            }
            i = i + 1;
        }
        assert(messages@.take(i as int) =~= messages@);
        string_of(out.as_slice())
    }
}

} // verus!
