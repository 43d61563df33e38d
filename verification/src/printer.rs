//! What is reported after a check: the summary of errors and fixes, the fix summary, and the
//! statistics of violations per rule.
use vstd::prelude::*;
use crate::diagnostics::{Applicability, Diagnostic, SecondaryCode, id_name};
use crate::settings::{FixMode, LogLevel, OutputFormat, UnsafeFixes};
use crate::text::string_of;
use crate::write::{decimal, num_digits, pad_left, pad_right, push_decimal, push_str, spaces};
use vstd::utf8::encode_utf8;
use crate::order::{
    count_before, is_permutation, key_before, seq_lt, sorted_by_count_desc, sorted_by_keys,
    stable_order_by_count_desc, stable_order_by_key,
};
use crate::text::{chars_of, push_all};

verus! {

/// What a printer shows.
#[derive(Debug, Clone, Copy, PartialEq, Eq, Structural)]
pub struct Flags {
    /// Show the violations.
    pub show_violations: bool,
    /// Show a summary of the fixed violations.
    pub show_fix_summary: bool,
    /// Show a diff of each fixed violation.
    pub show_fix_diff: bool,
}

/// How many violations of one rule were fixed in one file.
#[derive(Debug, Clone)]
pub struct FixedRule {
    /// The rule's short code.
    pub code: String,
    /// The rule's name.
    pub name: String,
    /// The number of fixed violations.
    pub count: usize,
}

/// The violations fixed in one file.
#[derive(Debug, Clone)]
pub struct FixedFile {
    pub filename: String,
    pub rules: Vec<FixedRule>,
}

/// The violations fixed in each file.
#[derive(Debug, Clone)]
pub struct FixMap {
    pub files: Vec<FixedFile>,
}

/// The number of fixes counted in `rules`.
pub open spec fn rules_total(rules: Seq<FixedRule>) -> nat
    decreases rules.len(),
{
    if rules.len() == 0 {
        0
    } else {
        rules_total(rules.drop_last()) + rules.last().count as nat
    }
}

/// The number of fixes counted in `files`.
pub open spec fn files_total(files: Seq<FixedFile>) -> nat
    decreases files.len(),
{
    if files.len() == 0 {
        0
    } else {
        files_total(files.drop_last()) + rules_total(files.last().rules@)
    }
}

proof fn lemma_rules_total_prefix(rules: Seq<FixedRule>, i: int)
    requires
        0 <= i <= rules.len(),
    ensures
        rules_total(rules.take(i)) <= rules_total(rules),
    decreases rules.len() - i,
{
    if i < rules.len() {
        lemma_rules_total_prefix(rules, i + 1);
        assert(rules.take(i + 1).drop_last() =~= rules.take(i));
    } else {
        assert(rules.take(i) =~= rules);
    }
}

proof fn lemma_files_total_prefix(files: Seq<FixedFile>, i: int)
    requires
        0 <= i <= files.len(),
    ensures
        files_total(files.take(i)) <= files_total(files),
    decreases files.len() - i,
{
    if i < files.len() {
        lemma_files_total_prefix(files, i + 1);
        assert(files.take(i + 1).drop_last() =~= files.take(i));
    } else {
        assert(files.take(i) =~= files);
    }
}

impl FixMap {
    /// Returns whether no fix was made.
    pub fn is_empty(&self) -> (b: bool)
        ensures
            b == (self.files@.len() == 0),
    {
        self.files.len() == 0
    }

    /// Returns the number of fixes made in all files.
    pub fn total(&self) -> (n: usize)
        requires
            files_total(self.files@) <= usize::MAX,
        ensures
            n == files_total(self.files@),
    {
        let mut n: usize = 0;
        let mut i: usize = 0;
        assert(self.files@.take(0) =~= Seq::<FixedFile>::empty());
        while i < self.files.len()
            invariant
                i <= self.files@.len(),
                n == files_total(self.files@.take(i as int)),
                files_total(self.files@) <= usize::MAX,
            decreases self.files@.len() - i,
        {
            let rules = &self.files[i].rules;
            let mut m: usize = 0;
            let mut j: usize = 0;
            proof {
                lemma_files_total_prefix(self.files@, i + 1);
                assert(self.files@.take(i + 1).drop_last() =~= self.files@.take(i as int));
                assert(rules@.take(0) =~= Seq::<FixedRule>::empty());
            }
            while j < rules.len()
                invariant
                    j <= rules@.len(),
                    m == rules_total(rules@.take(j as int)),
                    n + rules_total(rules@) <= usize::MAX,
                decreases rules@.len() - j,
            {
                proof {
                    lemma_rules_total_prefix(rules@, j + 1);
                    assert(rules@.take(j + 1).drop_last() =~= rules@.take(j as int));
                }
                m = m + rules[j].count;
                j = j + 1;
            }
            assert(rules@.take(j as int) =~= rules@);
            n = n + m;
            i = i + 1;
        }
        assert(self.files@.take(i as int) =~= self.files@);
        n
    }
}

/// All diagnostics found, and the fixes made.
#[derive(Debug, Clone)]
pub struct Diagnostics {
    pub messages: Vec<Diagnostic>,
    pub fixed: FixMap,
}

/// The results of all checks.
#[derive(Debug, Clone)]
pub struct CheckResults {
    /// All diagnostics found in all files.
    pub diagnostics: Diagnostics,
    /// The number of files checked.
    pub files_checked: usize,
    /// The number of files that could not be read.
    pub files_skipped: usize,
}

/// Whether the fix of `d` is applied at the level `required`.
pub open spec fn applies(d: Diagnostic, required: Applicability) -> bool {
    match d.fix {
        Some(f) => f.applicability.rank() >= required.rank(),
        None => false,
    }
}

/// Whether `d` has an unsafe fix that is not applied at the level `required`.
pub open spec fn hidden_unsafe(d: Diagnostic, required: Applicability) -> bool {
    match d.fix {
        Some(f) => f.applicability.rank() < required.rank() && f.applicability
            == Applicability::Unsafe,
        None => false,
    }
}

/// The number of diagnostics of `ds` whose fix is applied at the level `required`.
pub open spec fn count_applicable(ds: Seq<Diagnostic>, required: Applicability) -> nat
    decreases ds.len(),
{
    if ds.len() == 0 {
        0
    } else {
        count_applicable(ds.drop_last(), required) + if applies(ds.last(), required) {
            1nat
        } else {
            0nat
        }
    }
}

/// The number of diagnostics of `ds` with an unsafe fix that is not applied at `required`.
pub open spec fn count_hidden_unsafe(ds: Seq<Diagnostic>, required: Applicability) -> nat
    decreases ds.len(),
{
    if ds.len() == 0 {
        0
    } else {
        count_hidden_unsafe(ds.drop_last(), required) + if hidden_unsafe(ds.last(), required) {
            1nat
        } else {
            0nat
        }
    }
}

proof fn lemma_counts_bounded(ds: Seq<Diagnostic>, required: Applicability)
    ensures
        count_applicable(ds, required) <= ds.len(),
        count_hidden_unsafe(ds, required) <= ds.len(),
    decreases ds.len(),
{
    if ds.len() > 0 {
        lemma_counts_bounded(ds.drop_last(), required);
    }
}

/// The numbers of fixes that are applied, and of unsafe fixes that are not.
#[derive(Debug, Clone, Copy)]
pub struct FixableStatistics {
    pub applicable: u32,
    pub inapplicable_unsafe: u32,
}

impl FixableStatistics {
    /// Counts the fixes of `diagnostics` that are applied in the mode `unsafe_fixes`, and the
    /// unsafe ones that are not; `None` when both are zero.
    pub fn try_from(diagnostics: &Diagnostics, unsafe_fixes: UnsafeFixes) -> (r: Option<Self>)
        requires
            diagnostics.messages@.len() <= u32::MAX,
        ensures
            ({
                let a = count_applicable(diagnostics.messages@, unsafe_fixes.required());
                let h = count_hidden_unsafe(diagnostics.messages@, unsafe_fixes.required());
                match r {
                    Some(s) => (a > 0 || h > 0) && s.applicable == a && s.inapplicable_unsafe == h,
                    None => a == 0 && h == 0,
                }
            }),
    {
        let required = unsafe_fixes.required_applicability();
        let messages = &diagnostics.messages;
        let mut applicable: u32 = 0;
        let mut inapplicable_unsafe: u32 = 0;
        let mut i: usize = 0;
        assert(messages@.take(0) =~= Seq::<Diagnostic>::empty());
        while i < messages.len()
            invariant
                i <= messages@.len() <= u32::MAX,
                required == unsafe_fixes.required(),
                applicable == count_applicable(messages@.take(i as int), required),
                inapplicable_unsafe == count_hidden_unsafe(messages@.take(i as int), required),
            decreases messages@.len() - i,
        {
            proof {
                assert(messages@.take(i + 1).drop_last() =~= messages@.take(i as int));
                lemma_counts_bounded(messages@.take(i as int), required);
            }
            match &messages[i].fix {
                Some(fix) => {
                    if fix.applies(required) {
                        applicable = applicable + 1;
                    } else if fix.applicability.is_unsafe() {
                        inapplicable_unsafe = inapplicable_unsafe + 1;
                    }
                },
                None => {},
            }
            i = i + 1;
        }
        assert(messages@.take(i as int) =~= messages@);
        if applicable == 0 && inapplicable_unsafe == 0 {
            None
        } else {
            Some(FixableStatistics { applicable, inapplicable_unsafe })
        }
    }

    /// Returns whether any fix is applied.
    pub fn any_applicable_fixes(&self) -> (b: bool)
        ensures
            b == (self.applicable > 0),
    {
        self.applicable > 0
    }
}

/// Returns whether the fix status of violations is shown: never when fixes are applied (a
/// fixable violation would have been fixed), and otherwise when some fix is applicable.
pub fn show_fix_status(fix_mode: FixMode, fixables: Option<&FixableStatistics>) -> (b: bool)
    ensures
        b == (fix_mode != FixMode::Apply && match fixables {
            Some(f) => f.applicable > 0,
            None => false,
        }),
{
    !fix_mode.is_apply() && match fixables {
        Some(f) => f.any_applicable_fixes(),
        None => false,
    }
}

/// Writes diagnostics and summaries in the chosen format, at the chosen log level.
#[derive(Debug, Clone, Copy)]
pub struct Printer {
    pub format: OutputFormat,
    pub log_level: LogLevel,
    pub flags: Flags,
    pub fix_mode: FixMode,
    pub unsafe_fixes: UnsafeFixes,
}

/// `"es"` unless `n` is one.
pub open spec fn plural_es(n: nat) -> Seq<char> {
    if n == 1 {
        ""@
    } else {
        "es"@
    }
}

/// `"s"` unless `n` is one.
pub open spec fn plural_s(n: nat) -> Seq<char> {
    if n == 1 {
        ""@
    } else {
        "s"@
    }
}

/// The note on files that could not be read, if there are any.
pub open spec fn skipped_note(skipped: nat) -> Seq<char> {
    if skipped == 0 {
        Seq::empty()
    } else {
        ", "@ + decimal(skipped) + " could not be read"@
    }
}

/// The pointer to rule explanations that follows a count of errors.
pub open spec fn explain_note() -> Seq<char> {
    "For more information about specific rules, run:\n\n    "@ + "fortitude explain X001,Y002,..."@
        + "\n"@ + "\n"@
}

/// The count of errors: all of them and how many were fixed, or that all checks passed.
pub open spec fn errors_report(fixed: nat, remaining: nat) -> Seq<char> {
    if fixed > 0 {
        "Number of errors: "@ + decimal(fixed + remaining) + " ("@ + decimal(fixed) + " fixed, "@
            + decimal(remaining) + " remaining)\n\n"@ + explain_note()
    } else if remaining > 0 {
        "Number of errors: "@ + decimal(remaining) + "\n\n"@ + explain_note()
    } else {
        "All checks passed!\n\n"@
    }
}

/// The line on `applicable` applicable fixes.
pub open spec fn fixable_line(applicable: nat) -> Seq<char> {
    "[*] "@ + decimal(applicable) + " fixable with the `--fix` option.\n"@
}

/// The note on the fixes that are available: applicable ones, and hidden unsafe ones when
/// unsafe fixes are hinted at.
pub open spec fn fixables_report(unsafe_fixes: UnsafeFixes, applicable: nat, hidden: nat) -> Seq<
    char,
> {
    if applicable == 0 && hidden == 0 {
        Seq::empty()
    } else if unsafe_fixes == UnsafeFixes::Hint {
        if applicable > 0 && hidden > 0 {
            "[*] "@ + decimal(applicable) + " fixable with the `--fix` option ("@ + decimal(hidden)
                + " hidden fix"@ + plural_es(hidden)
                + " can be enabled with the `--unsafe-fixes` option).\n"@
        } else if applicable > 0 {
            fixable_line(applicable)
        } else {
            "No fixes available ("@ + decimal(hidden) + " hidden fix"@ + plural_es(hidden)
                + " can be enabled with the `--unsafe-fixes` option).\n"@
        }
    } else if applicable > 0 {
        fixable_line(applicable)
    } else {
        Seq::empty()
    }
}

/// The summary when only fixes are reported: how many errors were (or would be) fixed, and how
/// many more unsafe fixes are available.
pub open spec fn fixes_report(apply: bool, fixed: nat, unapplied: nat) -> Seq<char> {
    let verb = if apply {
        "Fixed "@
    } else {
        "Would fix "@
    };
    if unapplied > 0 {
        if fixed > 0 {
            verb + decimal(fixed) + " error"@ + plural_s(fixed) + " ("@ + decimal(unapplied)
                + " additional fix"@ + plural_es(unapplied) + " available with `--unsafe-fixes`).\n"@
        } else if apply {
            "No errors fixed ("@ + decimal(unapplied) + " fix"@ + plural_es(unapplied)
                + " available with `--unsafe-fixes`).\n"@
        } else {
            "No errors would be fixed ("@ + decimal(unapplied) + " fix"@ + plural_es(unapplied)
                + " available with `--unsafe-fixes`).\n"@
        }
    } else if fixed > 0 {
        verb + decimal(fixed) + " error"@ + plural_s(fixed) + ".\n"@
    } else {
        Seq::empty()
    }
}

/// The summary text written by `p` for `results`.
pub open spec fn summary_text_of(p: Printer, results: CheckResults) -> Seq<char> {
    let messages = results.diagnostics.messages@;
    let required = p.unsafe_fixes.required();
    let applicable = count_applicable(messages, required);
    let hidden = count_hidden_unsafe(messages, required);
    let fixed = files_total(results.diagnostics.fixed.files@);
    if p.log_level.rank() < LogLevel::Default.rank() {
        Seq::empty()
    } else if p.flags.show_violations {
        "fortitude: "@ + decimal(results.files_checked as nat) + " files scanned"@ + skipped_note(
            results.files_skipped as nat,
        ) + ".\n"@ + errors_report(fixed, messages.len()) + fixables_report(
            p.unsafe_fixes,
            applicable,
            hidden,
        )
    } else {
        fixes_report(p.fix_mode == FixMode::Apply, fixed, hidden)
    }
}

/// The limits within which the counts of `results` can be added up.
pub open spec fn counts_fit(results: CheckResults) -> bool {
    &&& results.diagnostics.messages@.len() <= u32::MAX
    &&& files_total(results.diagnostics.fixed.files@) + results.diagnostics.messages@.len()
        <= usize::MAX
}

fn push_plural_es(dst: &mut Vec<char>, n: usize)
    ensures
        final(dst)@ == old(dst)@ + plural_es(n as nat),
{
    if n == 1 {
        push_str(dst, "");
    } else {
        push_str(dst, "es");
    }
}

fn push_plural_s(dst: &mut Vec<char>, n: usize)
    ensures
        final(dst)@ == old(dst)@ + plural_s(n as nat),
{
    if n == 1 {
        push_str(dst, "");
    } else {
        push_str(dst, "s");
    }
}

fn push_explain_note(dst: &mut Vec<char>)
    ensures
        final(dst)@ == old(dst)@ + explain_note(),
{
    push_str(dst, "For more information about specific rules, run:\n\n    ");
    push_str(dst, "fortitude explain X001,Y002,...");
    push_str(dst, "\n");
    push_str(dst, "\n");
}

fn push_errors_report(dst: &mut Vec<char>, fixed: usize, remaining: usize)
    requires
        fixed + remaining <= usize::MAX,
    ensures
        final(dst)@ == old(dst)@ + errors_report(fixed as nat, remaining as nat),
{
    if fixed > 0 {
        push_str(dst, "Number of errors: ");
        push_decimal(dst, fixed + remaining);
        push_str(dst, " (");
        push_decimal(dst, fixed);
        push_str(dst, " fixed, ");
        push_decimal(dst, remaining);
        push_str(dst, " remaining)\n\n");
        push_explain_note(dst);
    } else if remaining > 0 {
        push_str(dst, "Number of errors: ");
        push_decimal(dst, remaining);
        push_str(dst, "\n\n");
        push_explain_note(dst);
    } else {
        push_str(dst, "All checks passed!\n\n");
    }
}

fn push_fixable_line(dst: &mut Vec<char>, applicable: usize)
    ensures
        final(dst)@ == old(dst)@ + fixable_line(applicable as nat),
{
    push_str(dst, "[*] ");
    push_decimal(dst, applicable);
    push_str(dst, " fixable with the `--fix` option.\n");
}

fn push_fixables_report(dst: &mut Vec<char>, unsafe_fixes: UnsafeFixes, applicable: usize, hidden: usize)
    ensures
        final(dst)@ == old(dst)@ + fixables_report(unsafe_fixes, applicable as nat, hidden as nat),
{
    if applicable == 0 && hidden == 0 {
    } else if unsafe_fixes.is_hint() {
        if applicable > 0 && hidden > 0 {
            push_str(dst, "[*] ");
            push_decimal(dst, applicable);
            push_str(dst, " fixable with the `--fix` option (");
            push_decimal(dst, hidden);
            push_str(dst, " hidden fix");
            push_plural_es(dst, hidden);
            push_str(dst, " can be enabled with the `--unsafe-fixes` option).\n");
        } else if applicable > 0 {
            push_fixable_line(dst, applicable);
        } else {
            push_str(dst, "No fixes available (");
            push_decimal(dst, hidden);
            push_str(dst, " hidden fix");
            push_plural_es(dst, hidden);
            push_str(dst, " can be enabled with the `--unsafe-fixes` option).\n");
        }
    } else if applicable > 0 {
        push_fixable_line(dst, applicable);
    }
}

fn push_fixes_report(dst: &mut Vec<char>, apply: bool, fixed: usize, unapplied: usize)
    ensures
        final(dst)@ == old(dst)@ + fixes_report(apply, fixed as nat, unapplied as nat),
{
    if unapplied > 0 {
        if fixed > 0 {
            if apply {
                push_str(dst, "Fixed ");
            } else {
                push_str(dst, "Would fix ");
            }
            push_decimal(dst, fixed);
            push_str(dst, " error");
            push_plural_s(dst, fixed);
            push_str(dst, " (");
            push_decimal(dst, unapplied);
            push_str(dst, " additional fix");
            push_plural_es(dst, unapplied);
            push_str(dst, " available with `--unsafe-fixes`).\n");
        } else if apply {
            push_str(dst, "No errors fixed (");
            push_decimal(dst, unapplied);
            push_str(dst, " fix");
            push_plural_es(dst, unapplied);
            push_str(dst, " available with `--unsafe-fixes`).\n");
        } else {
            push_str(dst, "No errors would be fixed (");
            push_decimal(dst, unapplied);
            push_str(dst, " fix");
            push_plural_es(dst, unapplied);
            push_str(dst, " available with `--unsafe-fixes`).\n");
        }
    } else if fixed > 0 {
        if apply {
            push_str(dst, "Fixed ");
        } else {
            push_str(dst, "Would fix ");
        }
        push_decimal(dst, fixed);
        push_str(dst, " error");
        push_plural_s(dst, fixed);
        push_str(dst, ".\n");
    }
}

impl Printer {
    /// Creates a printer.
    pub fn new(
        format: OutputFormat,
        log_level: LogLevel,
        flags: Flags,
        fix_mode: FixMode,
        unsafe_fixes: UnsafeFixes,
    ) -> (p: Self)
        ensures
            p == (Printer { format, log_level, flags, fix_mode, unsafe_fixes }),
    {
        Printer { format, log_level, flags, fix_mode, unsafe_fixes }
    }

    /// Returns the summary written after the diagnostics: nothing below the default log level;
    /// when violations are shown, the number of files scanned, the count of errors and the
    /// fixes available; otherwise how many errors were (or would be) fixed.
    pub fn summary_text(&self, results: &CheckResults) -> (s: String)
        requires
            counts_fit(*results),
        ensures
            s@ == summary_text_of(*self, *results),
    {
        let mut out: Vec<char> = Vec::new();
        if !self.log_level.at_least(LogLevel::Default) {
            return string_of(out.as_slice());
        }
        let messages = &results.diagnostics.messages;
        let fixables = FixableStatistics::try_from(&results.diagnostics, self.unsafe_fixes);
        let (applicable, hidden): (usize, usize) = match fixables {
            Some(f) => (f.applicable as usize, f.inapplicable_unsafe as usize),
            None => (0, 0),
        };
        let fixed = results.diagnostics.fixed.total();
        if self.flags.show_violations {
            push_str(&mut out, "fortitude: ");
            push_decimal(&mut out, results.files_checked);
            push_str(&mut out, " files scanned");
            if results.files_skipped != 0 {
                push_str(&mut out, ", ");
                push_decimal(&mut out, results.files_skipped);
                push_str(&mut out, " could not be read");
            }
            push_str(&mut out, ".\n");
            push_errors_report(&mut out, fixed, messages.len());
            push_fixables_report(&mut out, self.unsafe_fixes, applicable, hidden);
        } else {
            push_fixes_report(&mut out, self.fix_mode.is_apply(), fixed, hidden);
        }
        string_of(out.as_slice())
    }
}

/// The violations of one rule, and how many of them are fixable.
#[derive(Debug, Clone)]
pub struct ExpandedStatistics {
    pub code: Option<SecondaryCode>,
    pub name: &'static str,
    pub count: usize,
    /// Whether every violation is fixable.
    pub all_fixable: bool,
    pub fixable_count: usize,
}

impl ExpandedStatistics {
    /// Returns whether some violation is fixable.
    pub fn any_fixable(&self) -> (b: bool)
        ensures
            b == (self.fixable_count > 0),
    {
        self.fixable_count > 0
    }
}

/// A key that orders codes as `Option<&SecondaryCode>` is ordered: no code first, then codes in
/// string order.
pub open spec fn code_key(code: Option<SecondaryCode>) -> Seq<char> {
    match code {
        None => Seq::empty(),
        Some(c) => seq!['#'] + c.0@,
    }
}

/// The number of diagnostics of `ds` whose code has the key `key`.
pub open spec fn count_code(ds: Seq<Diagnostic>, key: Seq<char>) -> nat
    decreases ds.len(),
{
    if ds.len() == 0 {
        0
    } else {
        count_code(ds.drop_last(), key) + if code_key(ds.last().secondary_code) == key {
            1nat
        } else {
            0nat
        }
    }
}

/// The number of diagnostics of `ds` whose code has the key `key` and whose fix is applied at
/// the level `required`.
pub open spec fn count_code_fixable(ds: Seq<Diagnostic>, key: Seq<char>, required: Applicability) -> nat
    decreases ds.len(),
{
    if ds.len() == 0 {
        0
    } else {
        count_code_fixable(ds.drop_last(), key, required) + if code_key(ds.last().secondary_code)
            == key && applies(ds.last(), required) {
            1nat
        } else {
            0nat
        }
    }
}

/// `j` is the first diagnostic of `ds` whose code has the key `key`.
pub open spec fn first_with_code(ds: Seq<Diagnostic>, key: Seq<char>, j: int) -> bool {
    &&& 0 <= j < ds.len()
    &&& code_key(ds[j].secondary_code) == key
    &&& forall|k: int| 0 <= k < j ==> code_key(#[trigger] ds[k].secondary_code) != key
}

/// `e` counts the violations of its code among `ds`: all of them and the fixable ones, with the
/// code and name of the first of them.
pub open spec fn is_statistic_of(ds: Seq<Diagnostic>, required: Applicability, e: ExpandedStatistics) -> bool {
    let key = code_key(e.code);
    &&& e.count == count_code(ds, key)
    &&& e.fixable_count == count_code_fixable(ds, key, required)
    &&& e.all_fixable == (e.fixable_count == e.count)
    &&& exists|j: int|
        #[trigger] first_with_code(ds, key, j) && e.code == ds[j].secondary_code && e.name@
            == id_name(ds[j].id)
}

/// `stats` are the statistics of `ds`: one entry per code that occurs, by decreasing count, and
/// in increasing order of code among equal counts.
pub open spec fn statistics_of(
    ds: Seq<Diagnostic>,
    required: Applicability,
    stats: Seq<ExpandedStatistics>,
) -> bool {
    &&& forall|k: int| 0 <= k < stats.len() ==> is_statistic_of(ds, required, #[trigger] stats[k])
    &&& forall|j: int|
        0 <= j < ds.len() ==> exists|k: int|
            0 <= k < stats.len() && code_key(#[trigger] stats[k].code) == code_key(
                #[trigger] ds[j].secondary_code,
            )
    &&& forall|k: int, l: int|
        0 <= k < l < stats.len() ==> (#[trigger] stats[k]).count > (#[trigger] stats[l]).count || (
        stats[k].count == stats[l].count && seq_lt(code_key(stats[k].code), code_key(stats[l].code)))
}

proof fn lemma_count_code_none(ds: Seq<Diagnostic>, key: Seq<char>, required: Applicability)
    requires
        forall|k: int| 0 <= k < ds.len() ==> code_key(#[trigger] ds[k].secondary_code) != key,
    ensures
        count_code(ds, key) == 0,
        count_code_fixable(ds, key, required) == 0,
    decreases ds.len(),
{
    if ds.len() > 0 {
        assert forall|k: int| 0 <= k < ds.drop_last().len() implies code_key(
            #[trigger] ds.drop_last()[k].secondary_code,
        ) != key by {
            assert(ds.drop_last()[k] == ds[k]);
        }
        lemma_count_code_none(ds.drop_last(), key, required);
        assert(ds.last() == ds[ds.len() - 1]);
    }
}

proof fn lemma_count_code_bounded(ds: Seq<Diagnostic>, key: Seq<char>, required: Applicability)
    ensures
        count_code_fixable(ds, key, required) <= count_code(ds, key) <= ds.len(),
    decreases ds.len(),
{
    if ds.len() > 0 {
        lemma_count_code_bounded(ds.drop_last(), key, required);
    }
}

/// Returns the key of `code` (see [`code_key`]).
fn code_key_of(code: &Option<SecondaryCode>) -> (k: Vec<char>)
    ensures
        k@ == code_key(*code),
{
    let mut k: Vec<char> = Vec::new();
    match code {
        Some(c) => {
            k.push('#');
            let v = chars_of(c.0.as_str());
            push_all(&mut k, v.as_slice());
        },
        None => {},
    }
    k
}

/// Returns whether `a` and `b` hold the same characters.
fn chars_eq(a: &[char], b: &[char]) -> (r: bool)
    ensures
        r == (a@ == b@),
{
    if a.len() != b.len() {
        return false;
    }
    let mut i: usize = 0;
    while i < a.len()
        invariant
            i <= a@.len() == b@.len(),
            a@.take(i as int) == b@.take(i as int),
        decreases a@.len() - i,
    {
        if a[i] != b[i] {
            return false;
        }
        assert(a@.take(i + 1) =~= a@.take(i as int).push(a@[i as int]));
        assert(b@.take(i + 1) =~= b@.take(i as int).push(b@[i as int]));
        i = i + 1;
    }
    assert(a@.take(i as int) =~= a@);
    assert(b@.take(i as int) =~= b@);
    true
}

/// Groups of diagnostics by code, in the order in which the codes first occur.
struct CodeGroups {
    keys: Vec<Vec<char>>,
    firsts: Vec<usize>,
    counts: Vec<usize>,
    fixables: Vec<usize>,
}

impl CodeGroups {
    /// The groups describe the first `n` diagnostics of `ds`.
    spec fn describes(&self, ds: Seq<Diagnostic>, n: int, required: Applicability) -> bool {
        let g = self.keys@.len();
        &&& 0 <= n <= ds.len()
        &&& self.firsts@.len() == g && self.counts@.len() == g && self.fixables@.len() == g
        &&& forall|a: int| 0 <= a < g ==> {
            &&& (#[trigger] self.firsts@[a]) < n
            &&& first_with_code(ds, self.keys@[a]@, self.firsts@[a] as int)
            &&& self.counts@[a] == count_code(ds.take(n), self.keys@[a]@)
            &&& self.fixables@[a] == count_code_fixable(ds.take(n), self.keys@[a]@, required)
        }
        &&& forall|a: int, b: int| 0 <= a < b < g ==> (#[trigger] self.keys@[a])@ != (#[trigger] self.keys@[b])@
        &&& forall|j: int| 0 <= j < n ==> exists|a: int| 0 <= a < g && (#[trigger] self.keys@[a])@ == code_key(#[trigger] ds[j].secondary_code)
    }
}

fn group_by_code(ds: &Vec<Diagnostic>, required: Applicability) -> (groups: CodeGroups)
    ensures
        groups.describes(ds@, ds@.len() as int, required),
{
    let mut groups = CodeGroups {
        keys: Vec::new(),
        firsts: Vec::new(),
        counts: Vec::new(),
        fixables: Vec::new(),
    };
    let mut i: usize = 0;
    while i < ds.len()
        invariant
            groups.describes(ds@, i as int, required),
        decreases ds@.len() - i,
    {
        let key = code_key_of(&ds[i].secondary_code);
        let fixable = ds[i].has_applicable_fix(required);
        let mut a: usize = 0;
        while a < groups.keys.len() && !chars_eq(groups.keys[a].as_slice(), key.as_slice())
            invariant
                a <= groups.keys@.len(),
                forall|b: int| 0 <= b < a ==> (#[trigger] groups.keys@[b])@ != key@,
            decreases groups.keys@.len() - a,
        {
            a = a + 1;
        }
        let ghost old_groups = groups;
        proof {
            assert(ds@.take(i + 1).drop_last() =~= ds@.take(i as int));
            assert(ds@.take(i + 1).last() == ds@[i as int]);
        }
        if a < groups.keys.len() {
            proof {
                lemma_count_code_bounded(ds@.take(i as int), key@, required);
                assert(groups.firsts@[a as int] < i);
                assert(groups.keys@[a as int]@ == key@);
            }
            let c = groups.counts[a] + 1;
            groups.counts.set(a, c);
            if fixable {
                let f = groups.fixables[a] + 1;
                groups.fixables.set(a, f);
            }
            proof {
                assert forall|b: int| 0 <= b < groups.keys@.len() implies {
                    &&& (#[trigger] groups.firsts@[b]) < i + 1
                    &&& first_with_code(ds@, groups.keys@[b]@, groups.firsts@[b] as int)
                    &&& groups.counts@[b] == count_code(ds@.take(i + 1), groups.keys@[b]@)
                    &&& groups.fixables@[b] == count_code_fixable(ds@.take(i + 1), groups.keys@[b]@, required)
                } by {
                    assert(old_groups.firsts@[b] < i);
                }
                assert forall|j: int| 0 <= j < i + 1 implies exists|b: int| 0 <= b < groups.keys@.len() && (#[trigger] groups.keys@[b])@ == code_key(#[trigger] ds@[j].secondary_code) by {
                    if j == i {
                        assert(groups.keys@[a as int]@ == code_key(ds@[j].secondary_code));
                    } else {
                        let b = choose|b: int| 0 <= b < old_groups.keys@.len() && (#[trigger] old_groups.keys@[b])@ == code_key(ds@[j].secondary_code);
                        assert(groups.keys@[b] == old_groups.keys@[b]);
                    }
                }
            }
        } else {
            proof {
                assert forall|k: int| 0 <= k < i implies code_key(#[trigger] ds@[k].secondary_code) != key@ by {
                    if code_key(ds@[k].secondary_code) == key@ {
                        let b = choose|b: int| 0 <= b < groups.keys@.len() && (#[trigger] groups.keys@[b])@ == code_key(ds@[k].secondary_code);
                        assert(groups.keys@[b]@ != key@);
                    }
                }
                assert forall|k: int| 0 <= k < ds@.take(i as int).len() implies code_key(#[trigger] ds@.take(i as int)[k].secondary_code) != key@ by {
                    assert(ds@.take(i as int)[k] == ds@[k]);
                }
                lemma_count_code_none(ds@.take(i as int), key@, required);
            }
            groups.keys.push(key);
            groups.firsts.push(i);
            groups.counts.push(1);
            groups.fixables.push(if fixable { 1 } else { 0 });
            proof {
                let g = groups.keys@.len();
                assert forall|b: int| 0 <= b < g implies {
                    &&& (#[trigger] groups.firsts@[b]) < i + 1
                    &&& first_with_code(ds@, groups.keys@[b]@, groups.firsts@[b] as int)
                    &&& groups.counts@[b] == count_code(ds@.take(i + 1), groups.keys@[b]@)
                    &&& groups.fixables@[b] == count_code_fixable(ds@.take(i + 1), groups.keys@[b]@, required)
                } by {
                    if b < g - 1 {
                        assert(old_groups.firsts@[b] < i);
                        assert(groups.keys@[b] == old_groups.keys@[b]);
                    }
                }
                assert forall|c: int, b: int| 0 <= c < b < g implies (#[trigger] groups.keys@[c])@ != (#[trigger] groups.keys@[b])@ by {
                    if b == g - 1 {
                        assert(groups.keys@[c] == old_groups.keys@[c]);
                    }
                }
                assert forall|j: int| 0 <= j < i + 1 implies exists|b: int| 0 <= b < g && (#[trigger] groups.keys@[b])@ == code_key(#[trigger] ds@[j].secondary_code) by {
                    if j == i {
                        assert(groups.keys@[g - 1]@ == code_key(ds@[j].secondary_code));
                    } else {
                        let b = choose|b: int| 0 <= b < old_groups.keys@.len() && (#[trigger] old_groups.keys@[b])@ == code_key(ds@[j].secondary_code);
                        assert(groups.keys@[b] == old_groups.keys@[b]);
                    }
                }
            }
        }
        i = i + 1;
    }
    proof {
        assert(ds@.take(ds@.len() as int) =~= ds@);
    }
    groups
}

/// The statistic of the group `a` of `groups`.
fn group_statistic(ds: &Vec<Diagnostic>, groups: &CodeGroups, a: usize) -> (e: ExpandedStatistics)
    requires
        a < groups.keys@.len(),
        groups.firsts@.len() == groups.keys@.len(),
        groups.counts@.len() == groups.keys@.len(),
        groups.fixables@.len() == groups.keys@.len(),
        groups.firsts@[a as int] < ds@.len(),
    ensures
        e.code == ds@[groups.firsts@[a as int] as int].secondary_code,
        e.name@ == id_name(ds@[groups.firsts@[a as int] as int].id),
        e.count == groups.counts@[a as int],
        e.fixable_count == groups.fixables@[a as int],
        e.all_fixable == (groups.fixables@[a as int] == groups.counts@[a as int]),
{
    let d = &ds[groups.firsts[a]];
    let code = match &d.secondary_code {
        Some(c) => Some(SecondaryCode(c.0.clone())),
        None => None,
    };
    ExpandedStatistics {
        code,
        name: d.name(),
        count: groups.counts[a],
        all_fixable: groups.fixables[a] == groups.counts[a],
        fixable_count: groups.fixables[a],
    }
}

impl Printer {
    /// Returns the statistics of `messages`: for each code that occurs, the number of violations
    /// and of those fixable in this printer's mode, with the name of the first of them, by
    /// decreasing count and then increasing code.
    pub fn statistics(&self, messages: &Vec<Diagnostic>) -> (stats: Vec<ExpandedStatistics>)
        ensures
            statistics_of(messages@, self.unsafe_fixes.required(), stats@),
    {
        let required = self.unsafe_fixes.required_applicability();
        let groups = group_by_code(messages, required);
        let ghost ds = messages@;
        let ghost g = groups.keys@.len();
        proof {
            assert(ds.take(ds.len() as int) =~= ds);
        }
        let order1 = stable_order_by_key(&groups.keys);
        let ghost ks = groups.keys@.map_values(|k: Vec<char>| k@);
        let mut counts1: Vec<usize> = Vec::new();
        let mut p: usize = 0;
        while p < order1.len()
            invariant
                p <= order1@.len() == g,
                groups.counts@.len() == g,
                is_permutation(order1@, g),
                counts1@.len() == p,
                forall|k: int| 0 <= k < p ==> #[trigger] counts1@[k] == groups.counts@[order1@[k] as int],
            decreases g - p,
        {
            assert(order1@[p as int] < g);
            counts1.push(groups.counts[order1[p]]);
            p = p + 1;
        }
        let order2 = stable_order_by_count_desc(&counts1);
        let mut stats: Vec<ExpandedStatistics> = Vec::new();
        let mut q: usize = 0;
        while q < order2.len()
            invariant
                q <= order2@.len() == g,
                groups.describes(ds, ds.len() as int, required),
                ds == messages@,
                g == groups.keys@.len(),
                is_permutation(order1@, g),
                is_permutation(order2@, g),
                stats@.len() == q,
                forall|t: int| 0 <= t < q ==> {
                    let a = order1@[order2@[t] as int] as int;
                    &&& code_key((#[trigger] stats@[t]).code) == groups.keys@[a]@
                    &&& stats@[t].count == groups.counts@[a]
                    &&& is_statistic_of(ds, required, stats@[t])
                },
            decreases g - q,
        {
            assert(order2@[q as int] < g);
            let a = order1[order2[q]];
            assert(a < g);
            assert(groups.firsts@[a as int] < ds.len());
            let e = group_statistic(messages, &groups, a);
            proof {
                let f = groups.firsts@[a as int] as int;
                assert(first_with_code(ds, groups.keys@[a as int]@, f));
                assert(code_key(e.code) == groups.keys@[a as int]@);
                assert(first_with_code(ds, code_key(e.code), f));
                assert(ds.take(ds.len() as int) =~= ds);
            }
            stats.push(e);
            q = q + 1;
        }
        proof {
            assert forall|k: int| 0 <= k < stats@.len() implies is_statistic_of(ds, required, #[trigger] stats@[k]) by {
            }
            assert forall|j: int| 0 <= j < ds.len() implies exists|k: int|
                0 <= k < stats@.len() && code_key(#[trigger] stats@[k].code) == code_key(
                    #[trigger] ds[j].secondary_code,
                ) by {
                let a = choose|a: int| 0 <= a < g && (#[trigger] groups.keys@[a])@ == code_key(ds[j].secondary_code);
                assert(crate::order::lists(order1@, a));
                let pp = choose|pp: int| 0 <= pp < order1@.len() && #[trigger] order1@[pp] == a;
                assert(crate::order::lists(order2@, pp));
                let t = choose|t: int| 0 <= t < order2@.len() && #[trigger] order2@[t] == pp;
                assert(code_key(stats@[t].code) == groups.keys@[a]@);
            }
            assert forall|k: int, l: int| 0 <= k < l < stats@.len() implies (#[trigger] stats@[k]).count > (#[trigger] stats@[l]).count || (
                stats@[k].count == stats@[l].count && seq_lt(code_key(stats@[k].code), code_key(stats@[l].code))) by {
                let pk = order2@[k] as int;
                let pl = order2@[l] as int;
                assert(count_before(counts1@, pk, pl));
                assert(counts1@[pk] == groups.counts@[order1@[pk] as int]);
                assert(counts1@[pl] == groups.counts@[order1@[pl] as int]);
                if counts1@[pk] == counts1@[pl] {
                    assert(key_before(ks, order1@[pk] as int, order1@[pl] as int));
                    assert(ks[order1@[pk] as int] == groups.keys@[order1@[pk] as int]@);
                    assert(ks[order1@[pl] as int] == groups.keys@[order1@[pl] as int]@);
                    assert(order1@[pk] != order1@[pl]);
                    if order1@[pk] < order1@[pl] {
                        assert(groups.keys@[order1@[pk] as int]@ != groups.keys@[order1@[pl] as int]@);
                    } else {
                        assert(groups.keys@[order1@[pl] as int]@ != groups.keys@[order1@[pk] as int]@);
                    }
                }
            }
        }
        stats
    }
}

/// The number of bytes of a code (zero for no code).
pub open spec fn code_width(code: Option<SecondaryCode>) -> nat {
    match code {
        None => 0,
        Some(c) => (encode_utf8(c.0@).len() as usize) as nat,
    }
}

/// The text of a code (empty for no code).
pub open spec fn code_text(code: Option<SecondaryCode>) -> Seq<char> {
    match code {
        None => Seq::empty(),
        Some(c) => c.0@,
    }
}

/// The largest count of `stats`.
pub open spec fn max_count(stats: Seq<ExpandedStatistics>) -> nat
    decreases stats.len(),
{
    if stats.len() == 0 {
        0
    } else {
        let m = max_count(stats.drop_last());
        if stats.last().count > m {
            stats.last().count as nat
        } else {
            m
        }
    }
}

/// The largest code width of `stats`.
pub open spec fn max_code_width(stats: Seq<ExpandedStatistics>) -> nat
    decreases stats.len(),
{
    if stats.len() == 0 {
        0
    } else {
        let m = max_code_width(stats.drop_last());
        if code_width(stats.last().code) > m {
            code_width(stats.last().code)
        } else {
            m
        }
    }
}

/// Whether some statistic of `stats` has a fixable violation.
pub open spec fn any_fixable_in(stats: Seq<ExpandedStatistics>) -> bool {
    exists|k: int| 0 <= k < stats.len() && (#[trigger] stats[k]).fixable_count > 0
}

/// The mark of how fixable the violations of `e` are, when some violation is fixable at all.
pub open spec fn fixable_mark(e: ExpandedStatistics, any_fixable: bool) -> Seq<char> {
    if !any_fixable {
        ""@
    } else if e.all_fixable {
        "[*] "@
    } else if e.fixable_count > 0 {
        "[-] "@
    } else {
        "[ ] "@
    }
}

/// The line of the statistic `e`, with counts and codes padded to the given widths.
pub open spec fn statistic_line(
    e: ExpandedStatistics,
    count_width: nat,
    code_width: nat,
    any_fixable: bool,
) -> Seq<char> {
    pad_left(decimal(e.count as nat), count_width) + "\t"@ + pad_right(code_text(e.code), code_width)
        + "\t"@ + fixable_mark(e, any_fixable) + e.name@ + "\n"@
}

/// The lines of `stats`, one per statistic.
pub open spec fn statistic_lines(
    stats: Seq<ExpandedStatistics>,
    count_width: nat,
    code_width: nat,
    any_fixable: bool,
) -> Seq<char>
    decreases stats.len(),
{
    if stats.len() == 0 {
        Seq::empty()
    } else {
        statistic_lines(stats.drop_last(), count_width, code_width, any_fixable) + statistic_line(
            stats.last(),
            count_width,
            code_width,
            any_fixable,
        )
    }
}

/// The table of `stats`: counts padded to the digits of the largest count, codes to the widest
/// code, and fixability marks when some violation is fixable.
pub open spec fn statistics_table(stats: Seq<ExpandedStatistics>) -> Seq<char> {
    statistic_lines(
        stats,
        decimal(max_count(stats)).len(),
        max_code_width(stats),
        any_fixable_in(stats),
    )
}

/// What writing statistics produces.
#[derive(Debug, Clone)]
pub enum StatisticsReport {
    /// There are no violations, and nothing is written.
    Nothing,
    /// The text to write.
    Text(String),
    /// The statistics, to be written as JSON.
    Json(Vec<ExpandedStatistics>),
    /// The output format cannot show statistics.
    Unsupported(OutputFormat),
}

fn push_padded_left(dst: &mut Vec<char>, s: &[char], width: usize)
    ensures
        final(dst)@ == old(dst)@ + pad_left(s@, width as nat),
{
    let mut i = s.len();
    let ghost start = dst@;
    while i < width
        invariant
            s@.len() <= i <= width || (i == s@.len() && i >= width),
            dst@ == start + spaces((i - s@.len()) as nat),
        decreases width - i,
    {
        dst.push(' ');
        assert(spaces((i + 1 - s@.len()) as nat) =~= spaces((i - s@.len()) as nat).push(' '));
        i = i + 1;
    }
    push_all(dst, s);
    if s.len() >= width {
        assert(spaces(0) =~= Seq::<char>::empty());
    }
}

fn push_padded_right(dst: &mut Vec<char>, s: &[char], width: usize)
    ensures
        final(dst)@ == old(dst)@ + pad_right(s@, width as nat),
{
    push_all(dst, s);
    let ghost start = dst@;
    let mut i = s.len();
    while i < width
        invariant
            s@.len() <= i <= width || (i == s@.len() && i >= width),
            dst@ == start + spaces((i - s@.len()) as nat),
        decreases width - i,
    {
        dst.push(' ');
        assert(spaces((i + 1 - s@.len()) as nat) =~= spaces((i - s@.len()) as nat).push(' '));
        i = i + 1;
    }
    assert(spaces(0) =~= Seq::<char>::empty());
}

fn push_statistic_line(
    out: &mut Vec<char>,
    e: &ExpandedStatistics,
    count_width: usize,
    width: usize,
    any: bool,
)
    ensures
        final(out)@ == old(out)@ + statistic_line(*e, count_width as nat, width as nat, any),
{
    let count = crate::write::decimal_string(e.count);
    push_padded_left(out, count.as_slice(), count_width);
    push_str(out, "\t");
    let code: Vec<char> = match &e.code {
        Some(c) => chars_of(c.0.as_str()),
        None => Vec::new(),
    };
    push_padded_right(out, code.as_slice(), width);
    push_str(out, "\t");
    if any {
        if e.all_fixable {
            push_str(out, "[*] ");
        } else if e.fixable_count > 0 {
            push_str(out, "[-] ");
        } else {
            push_str(out, "[ ] ");
        }
    } else {
        push_str(out, "");
    }
    push_str(out, e.name);
    push_str(out, "\n");
}

impl Printer {
    /// Returns the table of `stats` followed by the summary of `results`, as written for the
    /// full and concise formats.
    pub fn statistics_text(&self, stats: &Vec<ExpandedStatistics>, results: &CheckResults) -> (s: String)
        requires
            counts_fit(*results),
        ensures
            s@ == statistics_table(stats@) + summary_text_of(*self, *results),
    {
        let ghost st = stats@;
        let mut max: usize = 0;
        let mut width: usize = 0;
        let mut any = false;
        let mut i: usize = 0;
        assert(st.take(0) =~= Seq::<ExpandedStatistics>::empty());
        while i < stats.len()
            invariant
                i <= st.len(),
                st == stats@,
                max == max_count(st.take(i as int)),
                width == max_code_width(st.take(i as int)),
                any == any_fixable_in(st.take(i as int)),
            decreases st.len() - i,
        {
            let e = &stats[i];
            let w: usize = match &e.code {
                Some(c) => c.0.as_str().len(),
                None => 0,
            };
            proof {
                assert(st.take(i + 1).drop_last() =~= st.take(i as int));
                assert(st.take(i + 1).last() == st[i as int]);
                if any_fixable_in(st.take(i as int)) {
                    let k = choose|k: int| 0 <= k < st.take(i as int).len() && (#[trigger] st.take(i as int)[k]).fixable_count > 0;
                    assert(st.take(i + 1)[k] == st.take(i as int)[k]);
                }
                if st[i as int].fixable_count > 0 {
                    assert(st.take(i + 1)[i as int] == st[i as int]);
                }
                if any_fixable_in(st.take(i + 1)) && st[i as int].fixable_count == 0 {
                    let k = choose|k: int| 0 <= k < st.take(i + 1).len() && (#[trigger] st.take(i + 1)[k]).fixable_count > 0;
                    assert(k != i);
                    assert(st.take(i as int)[k] == st.take(i + 1)[k]);
                }
            }
            if e.count > max {
                max = e.count;
            }
            if w > width {
                width = w;
            }
            any = any || e.fixable_count > 0;
            i = i + 1;
        }
        assert(st.take(i as int) =~= st);
        let count_width = num_digits(max);
        let mut out: Vec<char> = Vec::new();
        let mut k: usize = 0;
        assert(st.take(0) =~= Seq::<ExpandedStatistics>::empty());
        while k < stats.len()
            invariant
                k <= st.len(),
                st == stats@,
                count_width == decimal(max_count(st)).len(),
                width == max_code_width(st),
                any == any_fixable_in(st),
                out@ == statistic_lines(st.take(k as int), count_width as nat, width as nat, any),
            decreases st.len() - k,
        {
            let ghost before = out@;
            push_statistic_line(&mut out, &stats[k], count_width, width, any);
            proof {
                assert(st.take(k + 1).drop_last() =~= st.take(k as int));
                assert(st.take(k + 1).last() == st[k as int]);
            }
            k = k + 1;
        }
        assert(st.take(k as int) =~= st);
        let summary = self.summary_text(results);
        let sv = chars_of(summary.as_str());
        push_all(&mut out, sv.as_slice());
        string_of(out.as_slice())
    }

    /// Returns what is written for the statistics of `results`: nothing when there are no
    /// violations; the table and summary for the full and concise formats; the statistics as
    /// such for JSON; and no output for any other format, which cannot show them.
    pub fn write_statistics(&self, results: &CheckResults) -> (r: StatisticsReport)
        requires
            counts_fit(*results),
        ensures
            results.diagnostics.messages@.len() == 0 ==> r is Nothing,
            results.diagnostics.messages@.len() > 0 ==> match r {
                StatisticsReport::Nothing => false,
                StatisticsReport::Text(t) => (self.format == OutputFormat::Full || self.format
                    == OutputFormat::Concise) && exists|st: Seq<ExpandedStatistics>|
                    statistics_of(results.diagnostics.messages@, self.unsafe_fixes.required(), st)
                        && t@ == statistics_table(st) + summary_text_of(*self, *results),
                StatisticsReport::Json(st) => self.format == OutputFormat::Json && statistics_of(
                    results.diagnostics.messages@,
                    self.unsafe_fixes.required(),
                    st@,
                ),
                StatisticsReport::Unsupported(f) => f == self.format && !(self.format
                    == OutputFormat::Full || self.format == OutputFormat::Concise || self.format
                    == OutputFormat::Json),
            },
    {
        let stats = self.statistics(&results.diagnostics.messages);
        if stats.len() == 0 {
            proof {
                if results.diagnostics.messages@.len() > 0 {
                    let ds = results.diagnostics.messages@;
                    assert(exists|k: int| 0 <= k < stats@.len() && code_key(#[trigger] stats@[k].code) == code_key(#[trigger] ds[0].secondary_code));
                }
            }
            return StatisticsReport::Nothing;
        }
        proof {
            if results.diagnostics.messages@.len() == 0 {
                let e = stats@[0];
                assert(is_statistic_of(results.diagnostics.messages@, self.unsafe_fixes.required(), e));
                let j = choose|j: int| #[trigger] first_with_code(results.diagnostics.messages@, code_key(e.code), j) && e.code == results.diagnostics.messages@[j].secondary_code && e.name@ == id_name(results.diagnostics.messages@[j].id);
            }
        }
        match self.format {
            OutputFormat::Full | OutputFormat::Concise => {
                let t = self.statistics_text(&stats, results);
                StatisticsReport::Text(t)
            },
            OutputFormat::Json => StatisticsReport::Json(stats),
            _ => StatisticsReport::Unsupported(self.format),
        }
    }
}

/// The largest count of `rules`.
pub open spec fn max_rule_count(rules: Seq<FixedRule>) -> nat
    decreases rules.len(),
{
    if rules.len() == 0 {
        0
    } else {
        let m = max_rule_count(rules.drop_last());
        if rules.last().count > m {
            rules.last().count as nat
        } else {
            m
        }
    }
}

/// The largest count of a rule in `files`.
pub open spec fn max_fixed_count(files: Seq<FixedFile>) -> nat
    decreases files.len(),
{
    if files.len() == 0 {
        0
    } else {
        let m = max_fixed_count(files.drop_last());
        let r = max_rule_count(files.last().rules@);
        if r > m {
            r
        } else {
            m
        }
    }
}

/// The line of a rule in the fix summary.
pub open spec fn fixed_rule_line(r: FixedRule, width: nat) -> Seq<char> {
    "    "@ + pad_left(decimal(r.count as nat), width) + " × "@ + r.code@ + " ("@ + r.name@ + ")\n"@
}

/// The lines of the rules `rules`, taken in the order `order`.
pub open spec fn fixed_rule_lines(rules: Seq<FixedRule>, order: Seq<usize>, width: nat) -> Seq<char>
    decreases order.len(),
{
    if order.len() == 0 {
        Seq::empty()
    } else {
        fixed_rule_lines(rules, order.drop_last(), width) + fixed_rule_line(
            rules[order.last() as int],
            width,
        )
    }
}

/// The lines of the files `files`, shown as `names`, taken in the order `order`, each followed
/// by its rules in the order `rule_orders` gives for it.
pub open spec fn fixed_file_lines(
    files: Seq<FixedFile>,
    names: Seq<String>,
    order: Seq<usize>,
    rule_orders: Seq<Seq<usize>>,
    width: nat,
) -> Seq<char>
    decreases order.len(),
{
    if order.len() == 0 {
        Seq::empty()
    } else {
        let f = order.last() as int;
        fixed_file_lines(files, names, order.drop_last(), rule_orders, width) + "- "@ + names[f]@
            + ":\n"@ + fixed_rule_lines(files[f].rules@, rule_orders[f], width)
    }
}

/// The counts of `rules`.
pub open spec fn rule_counts(rules: Seq<FixedRule>) -> Seq<usize> {
    rules.map_values(|r: FixedRule| r.count)
}

/// The file names of `files`.
pub open spec fn file_keys(files: Seq<FixedFile>) -> Seq<Seq<char>> {
    files.map_values(|f: FixedFile| f.filename@)
}

/// The fix summary of `fixed`, whose files are shown as `names`, when its files are taken in
/// the order `order` and the rules of each in the order `rule_orders` gives.
pub open spec fn fix_summary_with(
    fixed: FixMap,
    names: Seq<String>,
    order: Seq<usize>,
    rule_orders: Seq<Seq<usize>>,
) -> Seq<char> {
    let total = files_total(fixed.files@);
    "Fixed "@ + decimal(total) + " error"@ + plural_s(total) + ":\n"@ + fixed_file_lines(
        fixed.files@,
        names,
        order,
        rule_orders,
        decimal(max_fixed_count(fixed.files@)).len(),
    )
}

/// `order` and `rule_orders` are the orders of the fix summary: files by name, and the rules of
/// each file by decreasing count, both stable.
pub open spec fn fix_summary_orders(fixed: FixMap, order: Seq<usize>, rule_orders: Seq<Seq<usize>>) -> bool {
    &&& sorted_by_keys(order, file_keys(fixed.files@))
    &&& rule_orders.len() == fixed.files@.len()
    &&& forall|f: int|
        0 <= f < fixed.files@.len() ==> sorted_by_count_desc(
            #[trigger] rule_orders[f],
            rule_counts(fixed.files@[f].rules@),
        )
}

fn max_rule_count_of(rules: &Vec<FixedRule>) -> (m: usize)
    ensures
        m == max_rule_count(rules@),
{
    let mut m: usize = 0;
    let mut i: usize = 0;
    assert(rules@.take(0) =~= Seq::<FixedRule>::empty());
    while i < rules.len()
        invariant
            i <= rules@.len(),
            m == max_rule_count(rules@.take(i as int)),
        decreases rules@.len() - i,
    {
        assert(rules@.take(i + 1).drop_last() =~= rules@.take(i as int));
        if rules[i].count > m {
            m = rules[i].count;
        }
        i = i + 1;
    }
    assert(rules@.take(i as int) =~= rules@);
    m
}

fn push_rule_lines(out: &mut Vec<char>, rules: &Vec<FixedRule>, width: usize) -> (order: Ghost<Seq<usize>>)
    ensures
        sorted_by_count_desc(order@, rule_counts(rules@)),
        final(out)@ == old(out)@ + fixed_rule_lines(rules@, order@, width as nat),
{
    let mut counts: Vec<usize> = Vec::new();
    let mut i: usize = 0;
    while i < rules.len()
        invariant
            i <= rules@.len(),
            counts@ == rule_counts(rules@.take(i as int)),
        decreases rules@.len() - i,
    {
        counts.push(rules[i].count);
        assert(rule_counts(rules@.take(i + 1)) =~= rule_counts(rules@.take(i as int)).push(rules@[i as int].count));
        i = i + 1;
    }
    assert(rules@.take(i as int) =~= rules@);
    let order = stable_order_by_count_desc(&counts);
    let ghost start = out@;
    let mut k: usize = 0;
    while k < order.len()
        invariant
            k <= order@.len() == rules@.len(),
            sorted_by_count_desc(order@, rule_counts(rules@)),
            out@ == start + fixed_rule_lines(rules@, order@.take(k as int), width as nat),
        decreases order@.len() - k,
    {
        assert(order@[k as int] < rules@.len());
        let r = &rules[order[k]];
        push_str(out, "    ");
        let count = crate::write::decimal_string(r.count);
        push_padded_left(out, count.as_slice(), width);
        push_str(out, " × ");
        push_str(out, r.code.as_str());
        push_str(out, " (");
        push_str(out, r.name.as_str());
        push_str(out, ")\n");
        assert(order@.take(k + 1).drop_last() =~= order@.take(k as int));
        assert(order@.take(k + 1).last() == order@[k as int]);
        k = k + 1;
    }
    assert(order@.take(k as int) =~= order@);
    Ghost(order@)
}

/// Returns the fix summary of `fixed`, whose files are shown as `names`: the total, then each
/// file in order of name with its rules in order of decreasing count, counts padded to the
/// digits of the largest.
pub fn print_fix_summary(fixed: &FixMap, names: &Vec<String>) -> (s: String)
    requires
        0 < files_total(fixed.files@) <= usize::MAX,
        names@.len() == fixed.files@.len(),
    ensures
        exists|order: Seq<usize>, rule_orders: Seq<Seq<usize>>|
            fix_summary_orders(*fixed, order, rule_orders) && s@ == fix_summary_with(
                *fixed,
                names@,
                order,
                rule_orders,
            ),
{
    let total = fixed.total();
    let files = &fixed.files;
    let mut max: usize = 0;
    let mut keys: Vec<Vec<char>> = Vec::new();
    let mut i: usize = 0;
    assert(files@.take(0) =~= Seq::<FixedFile>::empty());
    while i < files.len()
        invariant
            i <= files@.len(),
            max == max_fixed_count(files@.take(i as int)),
            keys@.len() == i,
            forall|k: int| 0 <= k < i ==> (#[trigger] keys@[k])@ == files@[k].filename@,
        decreases files@.len() - i,
    {
        assert(files@.take(i + 1).drop_last() =~= files@.take(i as int));
        let m = max_rule_count_of(&files[i].rules);
        if m > max {
            max = m;
        }
        keys.push(chars_of(files[i].filename.as_str()));
        i = i + 1;
    }
    assert(files@.take(i as int) =~= files@);
    assert(keys@.map_values(|k: Vec<char>| k@) =~= file_keys(files@));
    let width = num_digits(max);
    let order = stable_order_by_key(&keys);
    let mut out: Vec<char> = Vec::new();
    push_str(&mut out, "Fixed ");
    push_decimal(&mut out, total);
    push_str(&mut out, " error");
    push_plural_s(&mut out, total);
    push_str(&mut out, ":\n");
    let ghost head = out@;
    let ghost mut rule_orders: Seq<Seq<usize>> = Seq::new(files@.len(), |f: int| Seq::<usize>::empty());
    let mut k: usize = 0;
    while k < order.len()
        invariant
            k <= order@.len() == files@.len() == names@.len(),
            sorted_by_keys(order@, file_keys(files@)),
            rule_orders.len() == files@.len(),
            forall|t: int| 0 <= t < k ==> sorted_by_count_desc(
                #[trigger] rule_orders[order@[t] as int],
                rule_counts(files@[order@[t] as int].rules@),
            ),
            out@ == head + fixed_file_lines(files@, names@, order@.take(k as int), rule_orders, width as nat),
        decreases order@.len() - k,
    {
        let f = order[k];
        assert(f < files@.len());
        let ghost before = out@;
        push_str(&mut out, "- ");
        push_str(&mut out, names[f].as_str());
        push_str(&mut out, ":\n");
        let ro = push_rule_lines(&mut out, &files[f].rules, width);
        let ghost old_orders = rule_orders;
        proof {
            rule_orders = rule_orders.update(f as int, ro@);
            assert forall|t: int| 0 <= t < k implies #[trigger] rule_orders[order@[t] as int] == old_orders[order@[t] as int] by {
                assert(order@[t] != order@[k as int]);
            }
            assert forall|t: int| 0 <= t < k + 1 implies sorted_by_count_desc(
                #[trigger] rule_orders[order@[t] as int],
                rule_counts(files@[order@[t] as int].rules@),
            ) by {
                if t < k {
                    assert(rule_orders[order@[t] as int] == old_orders[order@[t] as int]);
                }
            }
            assert(order@.take(k + 1).drop_last() =~= order@.take(k as int));
            assert(order@.take(k + 1).last() == order@[k as int]);
            lemma_file_lines_frame(files@, names@, order@.take(k as int), old_orders, rule_orders, width as nat, f as int);
        }
        k = k + 1;
    }
    assert(order@.take(k as int) =~= order@);
    proof {
        assert forall|f: int| 0 <= f < files@.len() implies sorted_by_count_desc(
            #[trigger] rule_orders[f],
            rule_counts(files@[f].rules@),
        ) by {
            assert(crate::order::lists(order@, f));
            let t = choose|t: int| 0 <= t < order@.len() && #[trigger] order@[t] == f;
            assert(rule_orders[order@[t] as int] == rule_orders[f]);
        }
        assert(fix_summary_orders(*fixed, order@, rule_orders));
    }
    string_of(out.as_slice())
}

proof fn lemma_file_lines_frame(
    files: Seq<FixedFile>,
    names: Seq<String>,
    order: Seq<usize>,
    a: Seq<Seq<usize>>,
    b: Seq<Seq<usize>>,
    width: nat,
    f: int,
)
    requires
        a.len() == b.len(),
        forall|t: int| 0 <= t < order.len() ==> order[t] != f,
        forall|g: int| 0 <= g < a.len() && g != f ==> a[g] == b[g],
        forall|t: int| 0 <= t < order.len() ==> order[t] < a.len(),
    ensures
        fixed_file_lines(files, names, order, a, width) == fixed_file_lines(files, names, order, b, width),
    decreases order.len(),
{
    if order.len() > 0 {
        lemma_file_lines_frame(files, names, order.drop_last(), a, b, width, f);
        assert(order.last() == order[order.len() - 1]);
    }
}

/// Whether `p` writes a fix summary for `results`.
pub open spec fn shows_fix_summary(p: Printer, results: CheckResults) -> bool {
    p.log_level != LogLevel::Silent && p.format.is_human() && p.flags.show_fix_summary
        && results.diagnostics.fixed.files@.len() > 0
}

/// What `p` writes after a check, once: the rendered diagnostics when violations are shown,
/// then for the formats read by people the fix summary (when asked for and something was fixed)
/// and the summary text; nothing at all when silent.
pub open spec fn write_once_with(
    p: Printer,
    results: CheckResults,
    rendered: Seq<char>,
    names: Seq<String>,
    order: Seq<usize>,
    rule_orders: Seq<Seq<usize>>,
) -> Seq<char> {
    let fixed = results.diagnostics.fixed;
    if p.log_level == LogLevel::Silent {
        Seq::empty()
    } else {
        let diagnostics = if p.flags.show_violations {
            rendered
        } else {
            Seq::empty()
        };
        let summaries = if p.format.is_human() {
            let fix_summary = if shows_fix_summary(p, results) {
                "\n"@ + fix_summary_with(fixed, names, order, rule_orders) + "\n"@
            } else {
                Seq::empty()
            };
            fix_summary + summary_text_of(p, results)
        } else {
            Seq::empty()
        };
        diagnostics + summaries
    }
}

impl Printer {
    /// Returns what is written once after a check (see [`write_once_with`]), given the
    /// diagnostics as rendered in this printer's format and the names by which the fixed files
    /// are shown.
    pub fn write_once(&self, results: &CheckResults, rendered: &str, names: &Vec<String>) -> (s: String)
        requires
            counts_fit(*results),
            names@.len() == results.diagnostics.fixed.files@.len(),
            results.diagnostics.fixed.files@.len() > 0 ==> files_total(results.diagnostics.fixed.files@) > 0,
        ensures
            shows_fix_summary(*self, *results) ==> exists|order: Seq<usize>, rule_orders: Seq<Seq<usize>>|
                fix_summary_orders(results.diagnostics.fixed, order, rule_orders) && s@
                    == write_once_with(*self, *results, rendered@, names@, order, rule_orders),
            !shows_fix_summary(*self, *results) ==> s@ == write_once_with(
                *self,
                *results,
                rendered@,
                names@,
                Seq::empty(),
                Seq::empty(),
            ),
    {
        let ghost fixed = results.diagnostics.fixed;
        let ghost mut order: Seq<usize> = Seq::empty();
        let ghost mut rule_orders: Seq<Seq<usize>> = Seq::empty();
        let mut out: Vec<char> = Vec::new();
        if let LogLevel::Silent = self.log_level {
            return string_of(out.as_slice());
        }
        if self.flags.show_violations {
            push_str(&mut out, rendered);
        }
        if self.format.is_human_readable() {
            if self.flags.show_fix_summary && !results.diagnostics.fixed.is_empty() {
                let summary = print_fix_summary(&results.diagnostics.fixed, names);
                proof {
                    let (o, r) = choose|o: Seq<usize>, r: Seq<Seq<usize>>|
                        fix_summary_orders(fixed, o, r) && summary@ == fix_summary_with(fixed, names@, o, r);
                    order = o;
                    rule_orders = r;
                }
                push_str(&mut out, "\n");
                push_str(&mut out, summary.as_str());
                push_str(&mut out, "\n");
            }
            let text = self.summary_text(results);
            push_str(&mut out, text.as_str());
        }
        assert(out@ =~= write_once_with(*self, *results, rendered@, names@, order, rule_orders));
        string_of(out.as_slice())
    }
}

} // verus!
