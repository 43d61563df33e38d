//! Modes and levels that decide what is reported and how: logging, fixing, preview, output.
use vstd::prelude::*;
use crate::diagnostics::Applicability;

verus! {

/// How much is logged, from least to most.
#[derive(Debug, Clone, Copy, PartialEq, Eq, PartialOrd, Ord, Hash, Structural)]
pub enum LogLevel {
    /// Nothing but the exit status.
    Silent,
    /// Diagnostics, and nothing else.
    Quiet,
    /// Diagnostics and summaries.
    Default,
    /// Everything, with extra detail.
    Verbose,
}

impl LogLevel {
    /// The position of the level, from least to most logging.
    pub open spec fn rank(self) -> int {
        match self {
            LogLevel::Silent => 0,
            LogLevel::Quiet => 1,
            LogLevel::Default => 2,
            LogLevel::Verbose => 3,
        }
    }

    /// Returns whether this level logs at least as much as `other`.
    pub fn at_least(self, other: LogLevel) -> (b: bool)
        ensures
            b == (self.rank() >= other.rank()),
    {
        let a: u8 = match self {
            LogLevel::Silent => 0,
            LogLevel::Quiet => 1,
            LogLevel::Default => 2,
            LogLevel::Verbose => 3,
        };
        let o: u8 = match other {
            LogLevel::Silent => 0,
            LogLevel::Quiet => 1,
            LogLevel::Default => 2,
            LogLevel::Verbose => 3,
        };
        a >= o
    }
}

/// What is done with the fixes that are found.
#[derive(Debug, Clone, Copy, PartialEq, Eq, Hash, Structural)]
pub enum FixMode {
    /// Fixes are counted, not applied.
    Generate,
    /// Fixes are applied to the files.
    Apply,
    /// Fixes are shown as a diff.
    Diff,
}

impl FixMode {
    /// Returns whether fixes are applied.
    pub fn is_apply(self) -> (b: bool)
        ensures
            b == (self == FixMode::Apply),
    {
        match self {
            FixMode::Apply => true,
            _ => false,
        }
    }
}

/// Whether unsafe fixes are applied, or only hinted at.
#[derive(Debug, Clone, Copy, PartialEq, Eq, Hash, Structural)]
pub enum UnsafeFixes {
    /// Unsafe fixes are not applied, and their number is shown.
    Hint,
    /// Unsafe fixes are applied.
    Enabled,
    /// Unsafe fixes are neither applied nor mentioned.
    Disabled,
}

impl UnsafeFixes {
    /// Returns whether unsafe fixes are only hinted at.
    pub fn is_hint(self) -> (b: bool)
        ensures
            b == (self == UnsafeFixes::Hint),
    {
        match self {
            UnsafeFixes::Hint => true,
            _ => false,
        }
    }

    /// The least applicability of a fix that is applied in this mode.
    pub open spec fn required(self) -> Applicability {
        match self {
            UnsafeFixes::Enabled => Applicability::Unsafe,
            _ => Applicability::Safe,
        }
    }

    /// Returns the least applicability of a fix that is applied in this mode: unsafe fixes when
    /// they are enabled, safe ones otherwise.
    pub fn required_applicability(self) -> (a: Applicability)
        ensures
            a == self.required(),
    {
        match self {
            UnsafeFixes::Enabled => Applicability::Unsafe,
            _ => Applicability::Safe,
        }
    }
}

/// Whether preview (unstable) behaviour is enabled.
#[derive(Debug, Clone, Copy, PartialEq, Eq, Hash, Structural)]
pub enum PreviewMode {
    Disabled,
    Enabled,
}

impl PreviewMode {
    /// Returns whether preview behaviour is enabled.
    pub fn is_enabled(self) -> (b: bool)
        ensures
            b == (self == PreviewMode::Enabled),
    {
        match self {
            PreviewMode::Enabled => true,
            PreviewMode::Disabled => false,
        }
    }

    /// The mode for a yes/no preview flag.
    pub fn from_flag(enabled: bool) -> (m: Self)
        ensures
            (m == PreviewMode::Enabled) == enabled,
    {
        if enabled {
            PreviewMode::Enabled
        } else {
            PreviewMode::Disabled
        }
    }
}

/// Returns whether diagnostics show their severity, which is a preview behaviour.
pub fn is_warning_severity_enabled(preview: PreviewMode) -> (b: bool)
    ensures
        b == (preview == PreviewMode::Enabled),
{
    preview.is_enabled()
}

/// Returns whether fixes are shown as diffs, which is a preview behaviour.
pub fn is_show_diff_enabled(preview: PreviewMode) -> (b: bool)
    ensures
        b == (preview == PreviewMode::Enabled),
{
    preview.is_enabled()
}

/// The format in which diagnostics are written.
#[derive(Debug, Clone, Copy, PartialEq, Eq, Hash, Structural)]
pub enum OutputFormat {
    Full,
    Concise,
    Grouped,
    Json,
    JsonLines,
    Junit,
    Github,
    Gitlab,
    Pylint,
    Rdjson,
    Azure,
    Sarif,
}

impl OutputFormat {
    /// Whether the format is one read by people, followed by a summary.
    pub open spec fn is_human(self) -> bool {
        self == OutputFormat::Full || self == OutputFormat::Concise || self == OutputFormat::Grouped
    }

    /// Returns whether the format is one read by people (full, concise or grouped), after which
    /// a summary is written.
    pub fn is_human_readable(self) -> (b: bool)
        ensures
            b == self.is_human(),
    {
        match self {
            OutputFormat::Full | OutputFormat::Concise | OutputFormat::Grouped => true,
            _ => false,
        }
    }
}

/// The width of a tab, in columns.
#[derive(Debug, Clone, Copy, PartialEq, Eq, Hash, Structural)]
pub struct IndentWidth(pub usize);

impl IndentWidth {
    /// Returns the width as a number.
    pub fn as_usize(self) -> (n: usize)
        ensures
            n == self.0,
    {
        self.0
    }
}

} // verus!
