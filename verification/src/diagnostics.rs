//! Diagnostics: what a check reports, how severe it is, and the fixes it offers.
use vstd::prelude::*;
use crate::range::TextRange;
use crate::rules::Rule;
use crate::text::{chars_of, string_of};
use crate::source::SourceFile;

verus! {

/// How important a diagnostic is to an end user.
#[derive(Debug, Clone, Copy, PartialEq, Eq, PartialOrd, Ord, Hash, Structural)]
pub enum Severity {
    Info,
    Warning,
    Error,
    Fatal,
}

impl Severity {
    /// The position of the severity in increasing order of importance.
    pub open spec fn rank(self) -> int {
        match self {
            Severity::Info => 0,
            Severity::Warning => 1,
            Severity::Error => 2,
            Severity::Fatal => 3,
        }
    }

    /// Returns whether the severity is `Fatal`.
    pub fn is_fatal(self) -> (b: bool)
        ensures
            b == (self == Severity::Fatal),
    {
        match self {
            Severity::Fatal => true,
            _ => false,
        }
    }

    /// Returns the lowercase name of the severity.
    pub fn as_str(self) -> (s: &'static str)
        ensures
            s@ == match self {
                Severity::Info => "info"@,
                Severity::Warning => "warning"@,
                Severity::Error => "error"@,
                Severity::Fatal => "fatal"@,
            },
    {
        match self {
            Severity::Info => "info",
            Severity::Warning => "warning",
            Severity::Error => "error",
            Severity::Fatal => "fatal",
        }
    }
}

/// Like [`Severity`] but exclusively for sub-diagnostics, with an additional `Help` level.
#[derive(Debug, Clone, Copy, PartialEq, Eq, PartialOrd, Ord, Hash, Structural)]
pub enum SubDiagnosticSeverity {
    Help,
    Info,
    Warning,
    Error,
    Fatal,
}

impl SubDiagnosticSeverity {
    /// Returns the lowercase name of the severity.
    pub fn as_str(self) -> (s: &'static str)
        ensures
            s@ == match self {
                SubDiagnosticSeverity::Help => "help"@,
                SubDiagnosticSeverity::Info => "info"@,
                SubDiagnosticSeverity::Warning => "warning"@,
                SubDiagnosticSeverity::Error => "error"@,
                SubDiagnosticSeverity::Fatal => "fatal"@,
            },
    {
        match self {
            SubDiagnosticSeverity::Help => "help",
            SubDiagnosticSeverity::Info => "info",
            SubDiagnosticSeverity::Warning => "warning",
            SubDiagnosticSeverity::Error => "error",
            SubDiagnosticSeverity::Fatal => "fatal",
        }
    }
}

/// Tags that can be associated with an annotation.
#[derive(Debug, Clone, Copy, PartialEq, Eq, Hash, Structural)]
pub enum DiagnosticTag {
    /// Unused or unnecessary code.
    Unnecessary,
    /// Deprecated or obsolete code.
    Deprecated,
}

/// A string identifier for a lint rule, in kebab case (e.g. `no-foo`).
#[derive(Debug, Clone, Copy)]
pub struct LintName(pub &'static str);

impl LintName {
    /// Creates the identifier `name`.
    pub fn of(name: &'static str) -> (l: Self)
        ensures
            l.0 == name,
    {
        LintName(name)
    }

    /// Returns the identifier.
    pub fn as_str(&self) -> (s: &'static str)
        ensures
            s == self.0,
    {
        self.0
    }
}

/// Uniquely identifies the kind of a diagnostic.
#[derive(Debug, Clone, Copy)]
pub enum DiagnosticId {
    Panic,
    /// Some I/O operation failed.
    Io,
    /// Some code contains a syntax error.
    InvalidSyntax,
    /// A lint violation, identified by the rule's name.
    Lint(LintName),
    /// No rule with the given name exists.
    UnknownRule,
    /// A glob pattern doesn't follow the expected syntax.
    InvalidGlob,
    /// An `include` glob without any patterns.
    EmptyInclude,
    /// An override configuration is unnecessary because it applies to all files.
    UnnecessaryOverridesSection,
    /// An `overrides` section in the configuration that doesn't contain any overrides.
    UselessOverridesSection,
    /// Use of a deprecated setting.
    DeprecatedSetting,
    /// The code needs to be formatted.
    Unformatted,
    /// Use of an invalid command-line option.
    InvalidCliOption,
    /// Experimental feature requires preview mode.
    PreviewFeature,
    /// An internal assumption was violated.
    InternalError,
}

/// The concise description of a diagnostic identifier: the rule's name for a lint.
pub open spec fn id_name(id: DiagnosticId) -> Seq<char> {
    match id {
        DiagnosticId::Panic => "panic"@,
        DiagnosticId::Io => "io"@,
        DiagnosticId::InvalidSyntax => "invalid-syntax"@,
        DiagnosticId::Lint(name) => name.0@,
        DiagnosticId::UnknownRule => "unknown-rule"@,
        DiagnosticId::InvalidGlob => "invalid-glob"@,
        DiagnosticId::EmptyInclude => "empty-include"@,
        DiagnosticId::UnnecessaryOverridesSection => "unnecessary-overrides-section"@,
        DiagnosticId::UselessOverridesSection => "useless-overrides-section"@,
        DiagnosticId::DeprecatedSetting => "deprecated-setting"@,
        DiagnosticId::Unformatted => "unformatted"@,
        DiagnosticId::InvalidCliOption => "invalid-cli-option"@,
        DiagnosticId::PreviewFeature => "preview-feature"@,
        DiagnosticId::InternalError => "internal-error"@,
    }
}

/// The position of the first `:` in `s`, if there is one.
pub open spec fn first_colon(s: Seq<char>) -> Option<int> {
    if exists|i: int| 0 <= i < s.len() && s[i] == ':' {
        Some(choose|i: int| 0 <= i < s.len() && s[i] == ':' && forall|j: int| 0 <= j < i ==> s[j] != ':')
    } else {
        None
    }
}

/// Splits `s` at its first `:`, returning the text before and after it (as `str::split_once`).
fn split_at_colon(s: &str) -> (r: Option<(&str, &str)>)
    ensures
        match r {
            Some((a, b)) => exists|i: int|
                0 <= i < s@.len() && s@[i] == ':' && (forall|j: int| 0 <= j < i ==> s@[j] != ':')
                    && a@ == s@.take(i) && b@ == s@.skip(i + 1),
            None => forall|i: int| 0 <= i < s@.len() ==> s@[i] != ':',
        },
{
    let n = s.unicode_len();
    let mut i: usize = 0;
    while i < n
        invariant
            n == s@.len(),
            i <= n,
            forall|j: int| 0 <= j < i ==> s@[j] != ':',
        decreases n - i,
    {
        if s.get_char(i) == ':' {
            let before = s.substring_char(0, i);
            let after = s.substring_char(i + 1, n);
            assert(before@ =~= s@.take(i as int));
            assert(after@ =~= s@.skip(i + 1));
            return Some((before, after));
        }
        i = i + 1;
    }
    None
}

impl DiagnosticId {
    /// Creates the identifier of a lint violation of the rule named `name`.
    pub fn lint(name: LintName) -> (id: Self)
        ensures
            id matches DiagnosticId::Lint(n) && n.0 == name.0,
    {
        DiagnosticId::Lint(name)
    }

    /// Returns the text of `code` after its first `:` (its category removed), if it has one.
    pub fn strip_category(code: &str) -> (r: Option<&str>)
        ensures
            match r {
                Some(rest) => exists|i: int|
                    0 <= i < code@.len() && code@[i] == ':' && (forall|j: int|
                        0 <= j < i ==> code@[j] != ':') && rest@ == code@.skip(i + 1),
                None => forall|i: int| 0 <= i < code@.len() ==> code@[i] != ':',
            },
    {
        match split_at_colon(code) {
            Some((_, rest)) => Some(rest),
            None => None,
        }
    }

    /// Returns a concise description of this identifier: the rule's name for a lint.
    pub fn as_str(&self) -> (s: &'static str)
        ensures
            s@ == id_name(*self),
    {
        match self {
            DiagnosticId::Panic => "panic",
            DiagnosticId::Io => "io",
            DiagnosticId::InvalidSyntax => "invalid-syntax",
            DiagnosticId::Lint(name) => name.0,
            DiagnosticId::UnknownRule => "unknown-rule",
            DiagnosticId::InvalidGlob => "invalid-glob",
            DiagnosticId::EmptyInclude => "empty-include",
            DiagnosticId::UnnecessaryOverridesSection => "unnecessary-overrides-section",
            DiagnosticId::UselessOverridesSection => "useless-overrides-section",
            DiagnosticId::DeprecatedSetting => "deprecated-setting",
            DiagnosticId::Unformatted => "unformatted",
            DiagnosticId::InvalidCliOption => "invalid-cli-option",
            DiagnosticId::PreviewFeature => "preview-feature",
            DiagnosticId::InternalError => "internal-error",
        }
    }

    /// Returns whether this is the identifier of a syntax error.
    pub fn is_invalid_syntax(&self) -> (b: bool)
        ensures
            b == (*self is InvalidSyntax),
    {
        match self {
            DiagnosticId::InvalidSyntax => true,
            _ => false,
        }
    }
}

/// How safe a fix is to apply, from least to most safe.
#[derive(Debug, Clone, Copy, PartialEq, Eq, PartialOrd, Ord, Hash, Structural)]
pub enum Applicability {
    /// The fix is only shown to the user, never applied.
    DisplayOnly,
    /// The fix may change what the code means.
    Unsafe,
    /// The fix keeps what the code means.
    Safe,
}

impl Applicability {
    /// The position of the applicability in increasing order of safety.
    pub open spec fn rank(self) -> int {
        match self {
            Applicability::DisplayOnly => 0,
            Applicability::Unsafe => 1,
            Applicability::Safe => 2,
        }
    }

    /// Returns whether the applicability is `Unsafe`.
    pub fn is_unsafe(self) -> (b: bool)
        ensures
            b == (self == Applicability::Unsafe),
    {
        match self {
            Applicability::Unsafe => true,
            _ => false,
        }
    }

    /// Returns whether a fix of this applicability is applied at the level `required`.
    pub fn at_least(self, required: Applicability) -> (b: bool)
        ensures
            b == (self.rank() >= required.rank()),
    {
        let a: u8 = match self {
            Applicability::DisplayOnly => 0,
            Applicability::Unsafe => 1,
            Applicability::Safe => 2,
        };
        let r: u8 = match required {
            Applicability::DisplayOnly => 0,
            Applicability::Unsafe => 1,
            Applicability::Safe => 2,
        };
        a >= r
    }
}

/// A replacement of the text in `range` by `content` (a deletion when there is no content).
#[derive(Debug, Clone)]
pub struct Edit {
    pub content: Option<String>,
    pub range: TextRange,
}

impl Edit {
    /// Creates an edit that deletes the text in `range`.
    pub fn range_deletion(range: TextRange) -> (e: Self)
        ensures
            e.content is None,
            e.range == range,
    {
        Edit { content: None, range }
    }

    /// Creates an edit that replaces the text in `range` by `content`.
    pub fn range_replacement(content: String, range: TextRange) -> (e: Self)
        ensures
            e.content == Some(content),
            e.range == range,
    {
        Edit { content: Some(content), range }
    }

    /// Creates an edit that inserts `content` at `offset`.
    pub fn insertion(content: String, offset: u32) -> (e: Self)
        ensures
            e.content == Some(content),
            e.range == (TextRange { start: offset, end: offset }),
    {
        Edit { content: Some(content), range: TextRange { start: offset, end: offset } }
    }
}

/// A fix: edits to apply together, with how safe they are.
#[derive(Debug, Clone)]
pub struct Fix {
    pub applicability: Applicability,
    pub edits: Vec<Edit>,
}

impl Fix {
    /// Creates a safe fix made of the single edit `edit`.
    pub fn safe_edit(edit: Edit) -> (f: Self)
        ensures
            f.applicability == Applicability::Safe,
            f.edits@ == seq![edit],
    {
        let mut edits = Vec::new();
        edits.push(edit);
        Fix { applicability: Applicability::Safe, edits }
    }

    /// Returns whether the fix is applied at the level `required`.
    pub fn applies(&self, required: Applicability) -> (b: bool)
        ensures
            b == (self.applicability.rank() >= required.rank()),
    {
        self.applicability.at_least(required)
    }
}

/// A secondary identifier for a lint diagnostic: the rule's short code.
#[derive(Debug, Clone, PartialEq, Eq, PartialOrd, Ord, Default, Hash)]
pub struct SecondaryCode(pub String);

impl SecondaryCode {
    /// Creates the code `code`.
    pub fn new(code: String) -> (c: Self)
        ensures
            c.0 == code,
    {
        SecondaryCode(code)
    }

    /// Returns the code.
    pub fn as_str(&self) -> (s: &str)
        ensures
            s@ == self.0@,
    {
        self.0.as_str()
    }
}

/// A representation of the kinds of messages inside a diagnostic.
pub enum ConciseMessage<'a> {
    /// A non-empty main message and an empty primary annotation message.
    MainDiagnostic(&'a str),
    /// A non-empty main message and a non-empty primary annotation message.
    Both { main: &'a str, annotation: &'a str },
    /// A custom concise message has been provided.
    Custom(&'a str),
}

/// The text of a concise message.
pub open spec fn concise_text(m: ConciseMessage) -> Seq<char> {
    match m {
        ConciseMessage::MainDiagnostic(s) => s@,
        ConciseMessage::Both { main, annotation } => main@ + ": "@ + annotation@,
        ConciseMessage::Custom(s) => s@,
    }
}

impl<'a> ConciseMessage<'a> {
    /// Returns the text of the message: `"{main}: {annotation}"` when it has both parts.
    pub fn to_str(&self) -> (s: String)
        ensures
            s@ == concise_text(*self),
    {
        match self {
            ConciseMessage::MainDiagnostic(s) => string_of(chars_of(s).as_slice()),
            ConciseMessage::Custom(s) => string_of(chars_of(s).as_slice()),
            ConciseMessage::Both { main, annotation } => {
                let mut v = chars_of(main);
                v.push(':');
                v.push(' ');
                let a = chars_of(annotation);
                let mut i: usize = 0;
                let ghost start = v@;
                while i < a.len()
                    invariant
                        i <= a@.len(),
                        v@ == start + a@.take(i as int),
                    decreases a@.len() - i,
                {
                    v.push(a[i]);
                    assert(a@.take(i + 1) =~= a@.take(i as int).push(a@[i as int]));
                    i = i + 1;
                }
                assert(a@.take(a@.len() as int) =~= a@);
                proof {
                    reveal_strlit(": ");
                    assert(start =~= main@ + ": "@);
                }
                string_of(v.as_slice())
            },
        }
    }
}

/// A file and an optional range into it, the source of a diagnostic.
#[derive(Debug, Clone)]
pub struct Span {
    pub file: SourceFile,
    pub range: Option<TextRange>,
}

/// A pointer to a subsequence of the input, with an optional message.
#[derive(Debug, Clone)]
pub struct Annotation {
    pub span: Span,
    pub message: Option<String>,
    pub is_primary: bool,
    pub tags: Vec<DiagnosticTag>,
    pub hide_snippet: bool,
}

impl Annotation {
    /// Creates a primary annotation of `span`.
    pub fn primary(span: Span) -> (a: Self)
        ensures
            a.span == span,
            a.message is None,
            a.is_primary,
            a.tags@.len() == 0,
            !a.hide_snippet,
    {
        Annotation { span, message: None, is_primary: true, tags: Vec::new(), hide_snippet: false }
    }

    /// Creates a secondary annotation of `span`.
    pub fn secondary(span: Span) -> (a: Self)
        ensures
            a.span == span,
            a.message is None,
            !a.is_primary,
            a.tags@.len() == 0,
            !a.hide_snippet,
    {
        Annotation { span, message: None, is_primary: false, tags: Vec::new(), hide_snippet: false }
    }

    /// Returns the message attached to this annotation, if one exists.
    pub fn get_message(&self) -> (m: Option<&str>)
        ensures
            match (m, self.message) {
                (Some(s), Some(t)) => s@ == t@,
                (None, None) => true,
                _ => false,
            },
    {
        match &self.message {
            Some(m) => Some(m.as_str()),
            None => None,
        }
    }

    /// Returns whether the annotation is primary.
    pub fn is_primary(&self) -> (b: bool)
        ensures
            b == self.is_primary,
    {
        self.is_primary
    }
}

/// A diagnostic attached to another, rendered after it.
#[derive(Debug, Clone)]
pub struct SubDiagnostic {
    pub severity: SubDiagnosticSeverity,
    pub message: String,
    pub annotations: Vec<Annotation>,
}

impl SubDiagnostic {
    /// Creates a sub-diagnostic with no annotation.
    pub fn new(severity: SubDiagnosticSeverity, message: String) -> (d: Self)
        ensures
            d.severity == severity,
            d.message == message,
            d.annotations@.len() == 0,
    {
        SubDiagnostic { severity, message, annotations: Vec::new() }
    }
}

/// The position of the first primary annotation of `anns`, if any.
pub open spec fn first_primary(anns: Seq<Annotation>) -> Option<int> {
    if exists|i: int| 0 <= i < anns.len() && anns[i].is_primary {
        Some(
            choose|i: int|
                0 <= i < anns.len() && anns[i].is_primary && forall|j: int|
                    0 <= j < i ==> !anns[j].is_primary,
        )
    } else {
        None
    }
}

proof fn lemma_first_primary(anns: Seq<Annotation>, i: int)
    requires
        0 <= i < anns.len(),
        anns[i].is_primary,
        forall|j: int| 0 <= j < i ==> !anns[j].is_primary,
    ensures
        first_primary(anns) == Some(i),
{
    let k = choose|k: int|
        0 <= k < anns.len() && anns[k].is_primary && forall|j: int| 0 <= j < k ==> !anns[j].is_primary;
    if k < i {
        assert(!anns[k].is_primary);
    }
    if i < k {
        assert(!anns[i].is_primary);
    }
}

/// The first primary annotation of `anns` is at `i` when no primary annotation comes before it.
pub proof fn lemma_first_primary_pub(anns: Seq<Annotation>, i: int)
    requires
        0 <= i < anns.len(),
        anns[i].is_primary,
        forall|j: int| 0 <= j < i ==> !anns[j].is_primary,
    ensures
        first_primary(anns) == Some(i),
{
    lemma_first_primary(anns, i);
}

/// The first primary annotation is a primary annotation of `anns`, and none comes before it.
pub proof fn lemma_first_primary_is_primary(anns: Seq<Annotation>)
    ensures
        first_primary(anns) matches Some(i) ==> 0 <= i < anns.len() && anns[i].is_primary && forall|j: int|
            0 <= j < i ==> !anns[j].is_primary,
{
    if exists|k: int| 0 <= k < anns.len() && anns[k].is_primary {
        let k = choose|k: int| 0 <= k < anns.len() && anns[k].is_primary;
        lemma_min_primary(anns, k);
    }
}

proof fn lemma_min_primary(anns: Seq<Annotation>, k: int)
    requires
        0 <= k < anns.len(),
        anns[k].is_primary,
    ensures
        exists|i: int|
            0 <= i < anns.len() && anns[i].is_primary && forall|j: int| 0 <= j < i ==> !anns[j].is_primary,
    decreases k,
{
    if exists|j: int| 0 <= j < k && anns[j].is_primary {
        let j = choose|j: int| 0 <= j < k && anns[j].is_primary;
        lemma_min_primary(anns, j);
    } else {
        assert(forall|j: int| 0 <= j < k ==> !anns[j].is_primary);
    }
}

/// Returns the position of the first primary annotation of `anns`, if any.
pub(crate) fn find_primary(anns: &Vec<Annotation>) -> (r: Option<usize>)
    ensures
        match r {
            Some(i) => i < anns@.len() && first_primary(anns@) == Some(i as int),
            None => first_primary(anns@) is None,
        },
{
    let mut i: usize = 0;
    while i < anns.len()
        invariant
            i <= anns@.len(),
            forall|j: int| 0 <= j < i ==> !anns@[j].is_primary,
        decreases anns@.len() - i,
    {
        if anns[i].is_primary {
            proof {
                lemma_first_primary(anns@, i as int);
            }
            return Some(i);
        }
        i = i + 1;
    }
    None
}

/// A collection of information, gathered by a check, to be presented to an end user.
#[derive(Debug, Clone)]
pub struct Diagnostic {
    pub id: DiagnosticId,
    pub rule: Option<Rule>,
    pub severity: Severity,
    pub message: String,
    pub custom_concise_message: Option<String>,
    pub documentation_url: Option<String>,
    pub annotations: Vec<Annotation>,
    pub subs: Vec<SubDiagnostic>,
    pub fix: Option<Fix>,
    pub secondary_code: Option<SecondaryCode>,
    pub header_offset: usize,
}

/// The message of a concise rendering of a diagnostic with main message `main`, custom concise
/// message `custom` and annotations `anns`.
pub open spec fn concise_of(main: Seq<char>, custom: Option<String>, anns: Seq<Annotation>) -> (
    int,
    Seq<char>,
    Seq<char>,
) {
    match custom {
        Some(c) => (2, c@, Seq::empty()),
        None => {
            let annotation = match first_primary(anns) {
                Some(i) => match anns[i].message {
                    Some(m) => m@,
                    None => Seq::empty(),
                },
                None => Seq::empty(),
            };
            if annotation.len() == 0 {
                (0, main, Seq::empty())
            } else {
                (1, main, annotation)
            }
        },
    }
}

/// The kind (0: main message only, 1: both, 2: custom) and parts of a concise message.
pub open spec fn concise_parts(m: ConciseMessage) -> (int, Seq<char>, Seq<char>) {
    match m {
        ConciseMessage::MainDiagnostic(s) => (0, s@, Seq::empty()),
        ConciseMessage::Both { main, annotation } => (1, main@, annotation@),
        ConciseMessage::Custom(s) => (2, s@, Seq::empty()),
    }
}

impl Diagnostic {
    /// Creates a diagnostic with the given identifier, severity and message, and nothing else.
    pub fn new(id: DiagnosticId, severity: Severity, message: String) -> (d: Self)
        ensures
            d.id == id,
            d.rule is None,
            d.severity == severity,
            d.message == message,
            d.custom_concise_message is None,
            d.documentation_url is None,
            d.annotations@.len() == 0,
            d.subs@.len() == 0,
            d.fix is None,
            d.secondary_code is None,
            d.header_offset == 0,
    {
        Diagnostic {
            id,
            rule: None,
            severity,
            message,
            custom_concise_message: None,
            documentation_url: None,
            annotations: Vec::new(),
            subs: Vec::new(),
            fix: None,
            secondary_code: None,
            header_offset: 0,
        }
    }

    /// Adds an annotation to this diagnostic.
    pub fn annotate(&mut self, ann: Annotation)
        ensures
            final(self).annotations@ == old(self).annotations@.push(ann),
            *final(self) == (Diagnostic { annotations: final(self).annotations, ..*old(self) }),
    {
        self.annotations.push(ann);
    }

    /// Adds a sub-diagnostic.
    pub fn sub(&mut self, sub: SubDiagnostic)
        ensures
            final(self).subs@ == old(self).subs@.push(sub),
            *final(self) == (Diagnostic { subs: final(self).subs, ..*old(self) }),
    {
        self.subs.push(sub);
    }

    /// Adds an "info" sub-diagnostic with the given message.
    pub fn info(&mut self, message: String)
        ensures
            final(self).subs@.len() == old(self).subs@.len() + 1,
            final(self).subs@.drop_last() == old(self).subs@,
            final(self).subs@.last().severity == SubDiagnosticSeverity::Info,
            final(self).subs@.last().message == message,
            final(self).subs@.last().annotations@.len() == 0,
            *final(self) == (Diagnostic { subs: final(self).subs, ..*old(self) }),
    {
        self.sub(SubDiagnostic::new(SubDiagnosticSeverity::Info, message));
        assert(self.subs@.drop_last() =~= old(self).subs@);
    }

    /// Adds a "help" sub-diagnostic with the given message.
    pub fn help(&mut self, message: String)
        ensures
            final(self).subs@.len() == old(self).subs@.len() + 1,
            final(self).subs@.drop_last() == old(self).subs@,
            final(self).subs@.last().severity == SubDiagnosticSeverity::Help,
            final(self).subs@.last().message == message,
            final(self).subs@.last().annotations@.len() == 0,
            *final(self) == (Diagnostic { subs: final(self).subs, ..*old(self) }),
    {
        self.sub(SubDiagnostic::new(SubDiagnosticSeverity::Help, message));
        assert(self.subs@.drop_last() =~= old(self).subs@);
    }

    /// Returns the identifier of this diagnostic.
    pub fn id(&self) -> (id: DiagnosticId)
        ensures
            id == self.id,
    {
        self.id
    }

    /// Returns the rule this diagnostic reports a violation of, if any.
    pub fn rule(&self) -> (r: Option<Rule>)
        ensures
            r == self.rule,
    {
        self.rule
    }

    /// Returns the primary message.
    pub fn primary_message(&self) -> (s: &str)
        ensures
            s@ == self.message@,
    {
        self.message.as_str()
    }

    /// Returns the severity.
    pub fn severity(&self) -> (s: Severity)
        ensures
            s == self.severity,
    {
        self.severity
    }

    /// Returns the first primary annotation, if one exists.
    pub fn primary_annotation(&self) -> (a: Option<&Annotation>)
        ensures
            match first_primary(self.annotations@) {
                Some(i) => a == Some(&self.annotations@[i]),
                None => a is None,
            },
    {
        match find_primary(&self.annotations) {
            Some(i) => Some(&self.annotations[i]),
            None => None,
        }
    }

    /// Returns the message for concise formatting: the custom concise message if one is set;
    /// otherwise the main message, together with the primary annotation's message when that is
    /// not empty.
    pub fn concise_message(&self) -> (m: ConciseMessage<'_>)
        ensures
            concise_parts(m) == concise_of(
                self.message@,
                self.custom_concise_message,
                self.annotations@,
            ),
    {
        if let Some(custom) = &self.custom_concise_message {
            return ConciseMessage::Custom(custom.as_str());
        }
        let main = self.message.as_str();
        let annotation: &str = match find_primary(&self.annotations) {
            Some(i) => match &self.annotations[i].message {
                Some(m) => m.as_str(),
                None => "",
            },
            None => "",
        };
        proof {
            reveal_strlit("");
        }
        if annotation.is_empty() {
            ConciseMessage::MainDiagnostic(main)
        } else {
            ConciseMessage::Both { main, annotation }
        }
    }

    /// Sets a custom message for the concise formatting of this diagnostic.
    pub fn set_concise_message(&mut self, message: String)
        ensures
            final(self).custom_concise_message == Some(message),
            *final(self) == (Diagnostic { custom_concise_message: final(self).custom_concise_message, ..*old(self) }),
    {
        self.custom_concise_message = Some(message);
    }

    /// Returns the fix, if any.
    pub fn fix(&self) -> (f: Option<&Fix>)
        ensures
            f == match &self.fix {
                Some(x) => Some(x),
                None => None::<&Fix>,
            },
    {
        self.fix.as_ref()
    }

    /// Sets the fix.
    pub fn set_fix(&mut self, fix: Fix)
        ensures
            final(self).fix == Some(fix),
            *final(self) == (Diagnostic { fix: final(self).fix, ..*old(self) }),
    {
        self.fix = Some(fix);
    }

    /// Removes the fix.
    pub fn remove_fix(&mut self)
        ensures
            final(self).fix is None,
            *final(self) == (Diagnostic { fix: final(self).fix, ..*old(self) }),
    {
        self.fix = None;
    }

    /// Returns whether the diagnostic has a fix.
    pub fn fixable(&self) -> (b: bool)
        ensures
            b == self.fix is Some,
    {
        self.fix.is_some()
    }

    /// Returns whether the diagnostic has a fix that is applied at the level `required`.
    pub fn has_applicable_fix(&self, required: Applicability) -> (b: bool)
        ensures
            b == match self.fix {
                Some(f) => f.applicability.rank() >= required.rank(),
                None => false,
            },
    {
        match &self.fix {
            Some(f) => f.applies(required),
            None => false,
        }
    }

    /// Returns the secondary code, if any.
    pub fn secondary_code(&self) -> (c: Option<&SecondaryCode>)
        ensures
            c == match &self.secondary_code {
                Some(x) => Some(x),
                None => None::<&SecondaryCode>,
            },
    {
        self.secondary_code.as_ref()
    }

    /// Sets the secondary code.
    pub fn set_secondary_code(&mut self, code: SecondaryCode)
        ensures
            final(self).secondary_code == Some(code),
            *final(self) == (Diagnostic { secondary_code: final(self).secondary_code, ..*old(self) }),
    {
        self.secondary_code = Some(code);
    }

    /// Returns the secondary code if there is one, or the identifier's name otherwise.
    pub fn secondary_code_or_id(&self) -> (s: &str)
        ensures
            s@ == match self.secondary_code {
                Some(c) => c.0@,
                None => id_name(self.id),
            },
    {
        match &self.secondary_code {
            Some(c) => c.as_str(),
            None => self.id.as_str(),
        }
    }

    /// Returns the name of the diagnostic's identifier.
    pub fn name(&self) -> (s: &'static str)
        ensures
            s@ == id_name(self.id),
    {
        self.id.as_str()
    }

    /// Returns whether this diagnostic reports a syntax error.
    pub fn is_invalid_syntax(&self) -> (b: bool)
        ensures
            b == (self.id is InvalidSyntax),
    {
        self.id.is_invalid_syntax()
    }

    /// Returns the message of the first sub-diagnostic with a `Help` severity.
    pub fn first_help_text(&self) -> (s: Option<&str>)
        ensures
            match s {
                Some(t) => exists|i: int|
                    0 <= i < self.subs@.len() && self.subs@[i].severity == SubDiagnosticSeverity::Help
                        && (forall|j: int|
                        0 <= j < i ==> self.subs@[j].severity != SubDiagnosticSeverity::Help)
                        && t@ == self.subs@[i].message@,
                None => forall|i: int|
                    0 <= i < self.subs@.len() ==> self.subs@[i].severity != SubDiagnosticSeverity::Help,
            },
    {
        let mut i: usize = 0;
        while i < self.subs.len()
            invariant
                i <= self.subs@.len(),
                forall|j: int| 0 <= j < i ==> self.subs@[j].severity != SubDiagnosticSeverity::Help,
            decreases self.subs@.len() - i,
        {
            if self.subs[i].severity == SubDiagnosticSeverity::Help {
                return Some(self.subs[i].message.as_str());
            }
            i = i + 1;
        }
        None
    }

    /// Returns the range of the primary annotation's span, if there are both.
    pub fn range(&self) -> (r: Option<TextRange>)
        ensures
            r == match first_primary(self.annotations@) {
                Some(i) => self.annotations@[i].span.range,
                None => None,
            },
    {
        match find_primary(&self.annotations) {
            Some(i) => self.annotations[i].span.range,
            None => None,
        }
    }

    /// Returns the positions of all annotations but the first primary one, in order.
    pub fn secondary_annotations(&self) -> (v: Vec<usize>)
        ensures
            v@ == secondary_positions(self.annotations@),
    {
        secondary_annotation_positions(&self.annotations)
    }
}

/// The positions of `anns` other than that of the first primary annotation, in order.
pub open spec fn secondary_positions(anns: Seq<Annotation>) -> Seq<usize> {
    match first_primary(anns) {
        Some(p) => Seq::new(anns.len(), |i: int| i as usize).remove(p),
        None => Seq::new(anns.len(), |i: int| i as usize),
    }
}

/// Returns the positions of all annotations but the first primary one, in order.
pub fn secondary_annotation_positions(anns: &Vec<Annotation>) -> (v: Vec<usize>)
    ensures
        v@ == secondary_positions(anns@),
{
    let p = find_primary(anns);
    let mut v: Vec<usize> = Vec::new();
    let mut i: usize = 0;
    while i < anns.len()
        invariant
            i <= anns@.len(),
            p == match first_primary(anns@) {
                Some(k) => Some(k as usize),
                None => None,
            },
            match first_primary(anns@) {
                Some(k) => 0 <= k < anns@.len(),
                None => true,
            },
            v@ == match p {
                Some(k) => if k < i {
                    Seq::new(i as nat, |j: int| j as usize).remove(k as int)
                } else {
                    Seq::new(i as nat, |j: int| j as usize)
                },
                None => Seq::new(i as nat, |j: int| j as usize),
            },
        decreases anns@.len() - i,
    {
        let skip = match p {
            Some(k) => k == i,
            None => false,
        };
        if !skip {
            v.push(i);
        }
        proof {
            match p {
                Some(k) => {
                    if (k as int) < i as int {
                        assert(Seq::new((i + 1) as nat, |j: int| j as usize).remove(k as int) =~= Seq::new(
                            i as nat,
                            |j: int| j as usize,
                        ).remove(k as int).push(i));
                    } else if k == i {
                        assert(Seq::new((i + 1) as nat, |j: int| j as usize).remove(k as int) =~= Seq::new(
                            i as nat,
                            |j: int| j as usize,
                        ));
                    } else {
                        assert(Seq::new((i + 1) as nat, |j: int| j as usize) =~= Seq::new(
                            i as nat,
                            |j: int| j as usize,
                        ).push(i));
                    }
                },
                None => {
                    assert(Seq::new((i + 1) as nat, |j: int| j as usize) =~= Seq::new(
                        i as nat,
                        |j: int| j as usize,
                    ).push(i));
                },
            }
        }
        i = i + 1;
    }
    v
}

/// Creates the diagnostic for a violation of `rule` (named `name`, with short code `code`):
/// an error with message `body`, a primary annotation of `range` in `file` (whose snippet is
/// hidden when the range is the file-level range `0..0`), a help message `suggestion` if one
/// is given, the fix `fix` if one is given, the code as secondary code, and the page of the rule
/// under `homepage` as its documentation link (see [`rule_doc_url`]).
pub fn create_lint_diagnostic(
    body: String,
    suggestion: Option<String>,
    range: TextRange,
    fix: Option<Fix>,
    file: SourceFile,
    rule: Rule,
    name: LintName,
    code: String,
    homepage: &str,
) -> (d: Diagnostic)
    ensures
        d.id matches DiagnosticId::Lint(n) && n.0 == name.0,
        d.rule == Some(rule),
        d.severity == Severity::Error,
        d.message == body,
        d.annotations@.len() == 1,
        d.annotations@[0].is_primary,
        d.annotations@[0].span.file == file,
        d.annotations@[0].span.range == Some(range),
        d.annotations@[0].message is None,
        d.annotations@[0].hide_snippet == (range.start == 0 && range.end == 0),
        match suggestion {
            Some(s) => d.subs@.len() == 1 && d.subs@[0].severity == SubDiagnosticSeverity::Help
                && d.subs@[0].message == s,
            None => d.subs@.len() == 0,
        },
        d.fix == fix,
        d.secondary_code == Some(SecondaryCode(code)),
        d.documentation_url matches Some(u) && u@ == rule_doc_url(homepage@, name.0@),
        first_primary(d.annotations@) == Some(0int),
        d.custom_concise_message is None,
{
    let mut diagnostic = Diagnostic::new(DiagnosticId::lint(name), Severity::Error, body);
    diagnostic.rule = Some(rule);
    let span = Span { file, range: Some(range) };
    let mut annotation = Annotation::primary(span);
    if range.start == 0 && range.end == 0 {
        annotation.hide_snippet = true;
    }
    diagnostic.annotate(annotation);
    if let Some(suggestion) = suggestion {
        diagnostic.help(suggestion);
    }
    if let Some(fix) = fix {
        diagnostic.set_fix(fix);
    }
    diagnostic.set_secondary_code(SecondaryCode::new(code));
    let mut url: Vec<char> = Vec::new();
    crate::write::push_str(&mut url, homepage);
    crate::write::push_str(&mut url, "/en/stable/rules/");
    crate::write::push_str(&mut url, name.0);
    proof {
        reveal_strlit("/en/stable/rules/");
        assert(url@ =~= rule_doc_url(homepage@, name.0@));
        lemma_first_primary(diagnostic.annotations@, 0);
    }
    diagnostic.documentation_url = Some(string_of(url.as_slice()));
    diagnostic
}

/// The address of the documentation of the rule `name` on the site `homepage`.
pub open spec fn rule_doc_url(homepage: Seq<char>, name: Seq<char>) -> Seq<char> {
    homepage + "/en/stable/rules/"@ + name
}

} // verus!
