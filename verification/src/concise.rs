//! Rendering diagnostics one concise line each: location, severity or code, and message.
use vstd::prelude::*;
use crate::diagnostics::{first_primary, id_name, Applicability, Diagnostic, Severity};
use crate::render::{
    diagnostic_text, lines_of, num, push_concise, push_location, relative_path, relativize_path,
    renderable, all_renderable, span_ok,
};
use crate::source::line_column_of;
use crate::text::{push_all, string_of};
use crate::write::push_str;

verus! {

/// The name of a severity in concise output.
pub open spec fn severity_name(s: Severity) -> Seq<char> {
    match s {
        Severity::Info => "info"@,
        Severity::Warning => "warning"@,
        Severity::Error => "error"@,
        Severity::Fatal => "fatal"@,
    }
}

/// The location that starts the concise line of `d`: the path of its primary annotation's file
/// relative to `cwd`, with the line and column of its start when it has a range, and `: `;
/// nothing without a primary annotation.
pub open spec fn concise_location(d: Diagnostic, cwd: Seq<char>) -> Seq<char> {
    match first_primary(d.annotations@) {
        Some(i) => {
            let span = d.annotations@[i].span;
            relative_path(span.file.name@, cwd) + match span.range {
                Some(r) => {
                    let s = line_column_of(span.file, r.start as int);
                    ":"@ + num(s.line) + ":"@ + num(s.column)
                },
                None => Seq::empty(),
            } + ": "@
        },
        None => Seq::empty(),
    }
}

/// The identification of `d` in concise output: its code followed by a space (or its
/// identifier followed by `: `) when severities are hidden, else its severity and, in
/// brackets, its code or identifier.
pub open spec fn concise_label(d: Diagnostic, hide_severity: bool) -> Seq<char> {
    if hide_severity {
        match d.secondary_code {
            Some(c) => c.0@ + " "@,
            None => id_name(d.id) + ": "@,
        }
    } else {
        severity_name(d.severity) + "["@ + match d.secondary_code {
            Some(c) => c.0@,
            None => id_name(d.id),
        } + "] "@
    }
}

/// The concise line of `d`: its location, its label, `[*] ` when fix statuses are shown and
/// it has a fix applicable at `required`, and its concise message.
pub open spec fn concise_line(
    d: Diagnostic,
    cwd: Seq<char>,
    hide_severity: bool,
    show_fix_status: bool,
    required: Applicability,
) -> Seq<char> {
    concise_location(d, cwd) + concise_label(d, hide_severity) + (if show_fix_status && match d.fix {
        Some(f) => f.applicability.rank() >= required.rank(),
        None => false,
    } {
        "[*] "@
    } else {
        Seq::empty()
    }) + diagnostic_text(d) + "\n"@
}

#[verifier::spinoff_prover]
#[verifier::rlimit(100)]
fn push_concise_location(out: &mut Vec<char>, d: &Diagnostic, cwd: &str)
    requires
        renderable(*d),
    ensures
        final(out)@ == old(out)@ + concise_location(*d, cwd@),
{
    match d.primary_annotation() {
        Some(a) => {
            proof {
                crate::diagnostics::lemma_first_primary_is_primary(d.annotations@);
                let i = first_primary(d.annotations@).unwrap();
                assert(span_ok(d.annotations@[i].span.file, d.annotations@[i].span.range));
            }
            match a.span.range {
                Some(r) => push_location(out, &a.span.file, r.start, cwd),
                None => {
                    let path = relativize_path(a.span.file.name(), cwd);
                    push_all(out, path.as_slice());
                },
            }
            push_str(out, ": ");
        },
        None => {},
    }
}

fn push_concise_label(out: &mut Vec<char>, d: &Diagnostic, hide_severity: bool)
    ensures
        final(out)@ == old(out)@ + concise_label(*d, hide_severity),
{
    if hide_severity {
        match &d.secondary_code {
            Some(c) => {
                push_str(out, c.as_str());
                push_str(out, " ");
            },
            None => {
                push_str(out, d.id.as_str());
                push_str(out, ": ");
            },
        }
    } else {
        match d.severity {
            Severity::Info => push_str(out, "info"),
            Severity::Warning => push_str(out, "warning"),
            Severity::Error => push_str(out, "error"),
            Severity::Fatal => push_str(out, "fatal"),
        }
        push_str(out, "[");
        push_str(out, d.secondary_code_or_id());
        push_str(out, "] ");
    }
}

#[verifier::spinoff_prover]
fn push_concise_line(
    out: &mut Vec<char>,
    d: &Diagnostic,
    cwd: &str,
    hide_severity: bool,
    show_fix_status: bool,
    required: Applicability,
)
    requires
        renderable(*d),
    ensures
        final(out)@ == old(out)@ + concise_line(*d, cwd@, hide_severity, show_fix_status, required),
{
    let ghost start = out@;
    push_concise_location(out, d, cwd);
    let ghost a = out@;
    push_concise_label(out, d, hide_severity);
    let ghost b = out@;
    let mark = show_fix_status && d.has_applicable_fix(required);
    if mark {
        push_str(out, "[*] ");
    }
    let ghost c = out@;
    push_concise(out, d);
    push_str(out, "\n");
    proof {
        let m: Seq<char> = if mark {
            "[*] "@
        } else {
            Seq::empty()
        };
        assert(c == b + m);
        assert(out@ =~= start + concise_location(*d, cwd@) + concise_label(*d, hide_severity) + m + diagnostic_text(*d)
            + "\n"@);
    }
}

/// Renders `ds` one concise line each (see [`concise_line`]), with paths relative to `cwd`.
pub fn render_concise(
    ds: &Vec<Diagnostic>,
    cwd: &str,
    hide_severity: bool,
    show_fix_status: bool,
    required: Applicability,
) -> (s: String)
    requires
        all_renderable(ds@),
    ensures
        s@ == lines_of(ds@, |d: Diagnostic| concise_line(d, cwd@, hide_severity, show_fix_status, required)),
{
    let mut out: Vec<char> = Vec::new();
    let mut i: usize = 0;
    while i < ds.len()
        invariant
            i <= ds@.len(),
            all_renderable(ds@),
            out@ == lines_of(
                ds@.take(i as int),
                |d: Diagnostic| concise_line(d, cwd@, hide_severity, show_fix_status, required),
            ),
        decreases ds@.len() - i,
    {
        assert(renderable(ds@[i as int]));
        push_concise_line(&mut out, &ds[i], cwd, hide_severity, show_fix_status, required);
        assert(ds@.take(i + 1).drop_last() =~= ds@.take(i as int));
        i = i + 1;
    }
    assert(ds@.take(i as int) =~= ds@);
    string_of(out.as_slice())
}

} // verus!
