//! The messages of a check as the plain values that the JSON output lists: code, message, fix
//! with its edits, locations and file name.
use vstd::prelude::*;
use crate::diagnostics::{first_primary, Applicability, Diagnostic, SubDiagnostic, SubDiagnosticSeverity};
use crate::render::{locations, renderable, span_locations, span_ok};
use crate::source::{line_column, line_column_of, locatable, LineColumn, SourceFile};
use crate::text::string_of;

verus! {

/// An edit of a fix, located in its file.
#[derive(Debug, Clone)]
pub struct JsonEdit {
    pub content: String,
    pub location: LineColumn,
    pub end_location: LineColumn,
}

/// A fix of a message: how safe it is, the help message of the diagnostic, and its edits.
#[derive(Debug, Clone)]
pub struct JsonFix {
    pub applicability: Applicability,
    pub message: Option<String>,
    pub edits: Vec<JsonEdit>,
}

/// A message as the JSON output lists it.
#[derive(Debug, Clone)]
pub struct JsonMessage {
    pub code: Option<String>,
    pub message: String,
    pub fix: Option<JsonFix>,
    pub location: LineColumn,
    pub end_location: LineColumn,
    pub filename: String,
}

/// The message of the first help sub-diagnostic of `subs`, if any.
pub open spec fn first_help(subs: Seq<SubDiagnostic>) -> Option<Seq<char>>
    decreases subs.len(),
{
    if subs.len() == 0 {
        None
    } else if subs[0].severity == SubDiagnosticSeverity::Help {
        Some(subs[0].message@)
    } else {
        first_help(subs.drop_first())
    }
}

/// The file of the primary annotation of `d`.
pub open spec fn primary_file(d: Diagnostic) -> SourceFile {
    d.annotations@[first_primary(d.annotations@).unwrap()].span.file
}

/// Whether the message `d` can be listed: it can be rendered, and when it has a fix, it has a
/// primary annotation in whose file every edit can be located.
pub open spec fn listable(d: Diagnostic) -> bool {
    &&& renderable(d)
    &&& d.fix matches Some(f) ==> first_primary(d.annotations@) is Some && forall|k: int|
        0 <= k < f.edits@.len() ==> locatable(primary_file(d), (#[trigger] f.edits@[k]).range.start as int)
            && locatable(primary_file(d), f.edits@[k].range.end as int)
}

/// Whether `j` lists the edit `e` of a fix in `file`.
pub open spec fn lists_edit(j: JsonEdit, e: crate::diagnostics::Edit, file: SourceFile) -> bool {
    &&& j.content@ == match e.content {
        Some(c) => c@,
        None => Seq::empty(),
    }
    &&& j.location == line_column_of(file, e.range.start as int)
    &&& j.end_location == line_column_of(file, e.range.end as int)
}

/// Whether `j` lists the message `d`: its code, message, fix (with the first help message and
/// every edit located), the start and end of its primary annotation's range (line one, column
/// one without one), and its file's name (empty without a primary annotation).
pub open spec fn lists_message(j: JsonMessage, d: Diagnostic) -> bool {
    &&& match (j.code, d.secondary_code) {
        (Some(a), Some(b)) => a@ == b.0@,
        (None, None) => true,
        _ => false,
    }
    &&& j.message@ == d.message@
    &&& match first_primary(d.annotations@) {
        Some(i) => {
            let span = d.annotations@[i].span;
            &&& j.filename@ == span.file.name@
            &&& j.location == span_locations(span.file, span.range).0
            &&& j.end_location == span_locations(span.file, span.range).1
        },
        None => j.filename@.len() == 0 && j.location == (LineColumn { line: 1, column: 1 }) && j.end_location == (
        LineColumn { line: 1, column: 1 }),
    }
    &&& match (j.fix, d.fix) {
        (None, None) => true,
        (Some(jf), Some(f)) => {
            &&& jf.applicability == f.applicability
            &&& match (jf.message, first_help(d.subs@)) {
                (Some(a), Some(b)) => a@ == b,
                (None, None) => true,
                _ => false,
            }
            &&& jf.edits@.len() == f.edits@.len()
            &&& forall|k: int| 0 <= k < f.edits@.len() ==> lists_edit(#[trigger] jf.edits@[k], f.edits@[k], primary_file(d))
        },
        _ => false,
    }
}

fn help_of(subs: &Vec<SubDiagnostic>) -> (r: Option<String>)
    ensures
        match (r, first_help(subs@)) {
            (Some(a), Some(b)) => a@ == b,
            (None, None) => true,
            _ => false,
        },
{
    let mut i: usize = 0;
    assert(subs@.skip(0) =~= subs@);
    while i < subs.len()
        invariant
            i <= subs@.len(),
            first_help(subs@) == first_help(subs@.skip(i as int)),
        decreases subs@.len() - i,
    {
        if subs[i].severity == SubDiagnosticSeverity::Help {
            return Some(subs[i].message.clone());
        }
        assert(subs@.skip(i as int).drop_first() =~= subs@.skip(i + 1));
        i = i + 1;
    }
    None
}

fn json_fix(f: &crate::diagnostics::Fix, subs: &Vec<SubDiagnostic>, file: &SourceFile) -> (r: JsonFix)
    requires
        file.wf(),
        file.text@.len() < usize::MAX,
        forall|k: int|
            0 <= k < f.edits@.len() ==> locatable(*file, (#[trigger] f.edits@[k]).range.start as int) && locatable(
                *file,
                f.edits@[k].range.end as int,
            ),
    ensures
        r.applicability == f.applicability,
        match (r.message, first_help(subs@)) {
            (Some(a), Some(b)) => a@ == b,
            (None, None) => true,
            _ => false,
        },
        r.edits@.len() == f.edits@.len(),
        forall|k: int| 0 <= k < f.edits@.len() ==> lists_edit(#[trigger] r.edits@[k], f.edits@[k], *file),
{
    let mut edits: Vec<JsonEdit> = Vec::new();
    let mut k: usize = 0;
    while k < f.edits.len()
        invariant
            k <= f.edits@.len(),
            file.wf(),
            file.text@.len() < usize::MAX,
            forall|m: int|
                0 <= m < f.edits@.len() ==> locatable(*file, (#[trigger] f.edits@[m]).range.start as int) && locatable(
                    *file,
                    f.edits@[m].range.end as int,
                ),
            edits@.len() == k,
            forall|m: int| 0 <= m < k ==> lists_edit(#[trigger] edits@[m], f.edits@[m], *file),
        decreases f.edits@.len() - k,
    {
        let e = &f.edits[k];
        assert(locatable(*file, f.edits@[k as int].range.start as int));
        let content = match &e.content {
            Some(c) => c.clone(),
            None => {
                let empty: Vec<char> = Vec::new();
                string_of(empty.as_slice())
            },
        };
        let location = line_column(file, e.range.start);
        let end_location = line_column(file, e.range.end);
        let j = JsonEdit { content, location, end_location };
        assert(lists_edit(j, f.edits@[k as int], *file));
        let ghost before = edits@;
        edits.push(j);
        assert(edits@[k as int] == j);
        assert forall|m: int| 0 <= m < k + 1 implies lists_edit(#[trigger] edits@[m], f.edits@[m], *file) by {
            if m < k {
                assert(edits@[m] == before[m]);
            }
        }
        k = k + 1;
    }
    JsonFix { applicability: f.applicability, message: help_of(subs), edits }
}

fn json_message(d: &Diagnostic) -> (j: JsonMessage)
    requires
        listable(*d),
    ensures
        lists_message(j, *d),
{
    let code = match &d.secondary_code {
        Some(c) => Some(c.0.clone()),
        None => None,
    };
    match d.primary_annotation() {
        Some(a) => {
            proof {
                crate::diagnostics::lemma_first_primary_is_primary(d.annotations@);
                let i = first_primary(d.annotations@).unwrap();
                assert(span_ok(d.annotations@[i].span.file, d.annotations@[i].span.range));
            }
            let (location, end_location) = locations(&a.span.file, a.span.range);
            let fix = match &d.fix {
                Some(f) => Some(json_fix(f, &d.subs, &a.span.file)),
                None => None,
            };
            JsonMessage { code, message: d.message.clone(), fix, location, end_location, filename: a.span.file.name.clone() }
        },
        None => {
            let start = LineColumn::start();
            JsonMessage {
                code,
                message: d.message.clone(),
                fix: None,
                location: start,
                end_location: start,
                filename: string_of(&[]),
            }
        },
    }
}

/// Lists messages as the JSON output does.
#[derive(Debug, Clone, Copy, Default)]
pub struct JsonEmitter;

impl JsonEmitter {
    /// Returns the listing of each of `messages` (see [`lists_message`]), in order.
    pub fn expand(&self, messages: &Vec<Diagnostic>) -> (r: Vec<JsonMessage>)
        requires
            forall|i: int| 0 <= i < messages@.len() ==> listable(#[trigger] messages@[i]),
        ensures
            r@.len() == messages@.len(),
            forall|i: int| 0 <= i < messages@.len() ==> lists_message(#[trigger] r@[i], messages@[i]),
    {
        let mut r: Vec<JsonMessage> = Vec::new();
        let mut i: usize = 0;
        while i < messages.len()
            invariant
                i <= messages@.len(),
                forall|m: int| 0 <= m < messages@.len() ==> listable(#[trigger] messages@[m]),
                r@.len() == i,
                forall|m: int| 0 <= m < i ==> lists_message(#[trigger] r@[m], messages@[m]),
            decreases messages@.len() - i,
        {
            assert(listable(messages@[i as int]));
            r.push(json_message(&messages[i]));
            i = i + 1;
        }
        r
    }
}

} // verus!
