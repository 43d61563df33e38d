//! The decisions of a check run: whether to read standard input, how fixes are handled, how the
//! results of the files add up, which violations per-file ignores drop, and the exit status.
use vstd::prelude::*;
use crate::diagnostics::Diagnostic;
use crate::printer::{files_total, rules_total, CheckResults, Diagnostics, FixMap, FixedFile, FixedRule, Flags};
use crate::rules::Rule;
use crate::settings::FixMode;
use crate::text::str_eq;

verus! {

/// The sum of `s`.
pub open spec fn sum(s: Seq<nat>) -> nat
    decreases s.len(),
{
    if s.len() == 0 {
        0
    } else {
        sum(s.drop_last()) + s.last()
    }
}

proof fn lemma_sum_update(s: Seq<nat>, i: int, v: nat)
    requires
        0 <= i < s.len(),
    ensures
        sum(s.update(i, v)) + s[i] == sum(s) + v,
    decreases s.len(),
{
    if i < s.len() - 1 {
        assert(s.update(i, v).drop_last() =~= s.drop_last().update(i, v));
        lemma_sum_update(s.drop_last(), i, v);
    } else {
        assert(s.update(i, v).drop_last() =~= s.drop_last());
    }
}

proof fn lemma_sum_push(s: Seq<nat>, v: nat)
    ensures
        sum(s.push(v)) == sum(s) + v,
{
    assert(s.push(v).drop_last() =~= s);
}

/// The counts of `rules`.
pub open spec fn counts(rules: Seq<FixedRule>) -> Seq<nat> {
    rules.map_values(|r: FixedRule| r.count as nat)
}

/// The counts of `rules` of the rule with code `code`, and zero for the others.
pub open spec fn code_counts(rules: Seq<FixedRule>, code: Seq<char>) -> Seq<nat> {
    rules.map_values(|r: FixedRule| if r.code@ == code { r.count as nat } else { 0 })
}

/// The number of fixes of the rule with code `code` counted in `rules`.
pub open spec fn rule_count(rules: Seq<FixedRule>, code: Seq<char>) -> nat {
    sum(code_counts(rules, code))
}

/// The fixes counted per file in `files`.
pub open spec fn file_totals(files: Seq<FixedFile>) -> Seq<nat> {
    files.map_values(|f: FixedFile| rules_total(f.rules@))
}

/// The fixes of the rule with code `code` counted per file in `files`, for the file `name`
/// only.
pub open spec fn file_code_counts(files: Seq<FixedFile>, name: Seq<char>, code: Seq<char>) -> Seq<nat> {
    files.map_values(|f: FixedFile| if f.filename@ == name { rule_count(f.rules@, code) } else { 0 })
}

/// The number of fixes of the rule with code `code` counted for the file `name` in `files`.
pub open spec fn fix_count(files: Seq<FixedFile>, name: Seq<char>, code: Seq<char>) -> nat {
    sum(file_code_counts(files, name, code))
}

/// Whether `files` has an entry for the file `name`.
pub open spec fn has_file(files: Seq<FixedFile>, name: Seq<char>) -> bool {
    exists|i: int| 0 <= i < files.len() && (#[trigger] files[i]).filename@ == name
}

proof fn lemma_rules_total_sum(rules: Seq<FixedRule>)
    ensures
        rules_total(rules) == sum(counts(rules)),
    decreases rules.len(),
{
    if rules.len() > 0 {
        lemma_rules_total_sum(rules.drop_last());
        assert(counts(rules).drop_last() =~= counts(rules.drop_last()));
    }
}

proof fn lemma_files_total_sum(files: Seq<FixedFile>)
    ensures
        files_total(files) == sum(file_totals(files)),
    decreases files.len(),
{
    if files.len() > 0 {
        lemma_files_total_sum(files.drop_last());
        assert(file_totals(files).drop_last() =~= file_totals(files.drop_last()));
    }
}

/// Adds `count` fixes of the rule `code` (named `name`) in `rules`.
fn add_rule_fixes(rules: &mut Vec<FixedRule>, code: &String, name: &String, count: usize)
    requires
        rules_total(old(rules)@) + count <= usize::MAX,
    ensures
        forall|c: Seq<char>|
            #[trigger] rule_count(final(rules)@, c) == rule_count(old(rules)@, c) + if c == code@ {
                count as nat
            } else {
                0
            },
        rules_total(final(rules)@) == rules_total(old(rules)@) + count,
{
    proof {
        lemma_rules_total_sum(old(rules)@);
    }
    let mut i: usize = 0;
    while i < rules.len()
        invariant
            i <= rules@.len(),
            rules@ == old(rules)@,
            rules_total(old(rules)@) + count <= usize::MAX,
        decreases rules@.len() - i,
    {
        if str_eq(rules[i].code.as_str(), code.as_str()) {
            let ghost before = rules@;
            proof {
                let ts = counts(before);
                lemma_rules_total_sum(before);
                lemma_sum_update(ts, i as int, 0);
            }
            let n = rules[i].count + count;
            let updated = FixedRule { code: rules[i].code.clone(), name: rules[i].name.clone(), count: n };
            rules.set(i, updated);
            proof {
                assert(counts(rules@) =~= counts(before).update(i as int, n as nat));
                lemma_sum_update(counts(before), i as int, n as nat);
                lemma_rules_total_sum(rules@);
                assert forall|c: Seq<char>| #[trigger] rule_count(rules@, c) == rule_count(before, c) + if c == code@ {
                    count as nat
                } else {
                    0
                } by {
                    assert(code_counts(rules@, c) =~= code_counts(before, c).update(i as int, code_counts(rules@, c)[i as int]));
                    lemma_sum_update(code_counts(before, c), i as int, code_counts(rules@, c)[i as int]);
                }
            }
            return;
        }
        i = i + 1;
    }
    let ghost before = rules@;
    rules.push(FixedRule { code: code.clone(), name: name.clone(), count });
    proof {
        assert(counts(rules@) =~= counts(before).push(count as nat));
        lemma_sum_push(counts(before), count as nat);
        lemma_rules_total_sum(rules@);
        assert forall|c: Seq<char>| #[trigger] rule_count(rules@, c) == rule_count(before, c) + if c == code@ {
            count as nat
        } else {
            0
        } by {
            assert(code_counts(rules@, c) =~= code_counts(before, c).push(code_counts(rules@, c).last()));
            lemma_sum_push(code_counts(before, c), code_counts(rules@, c).last());
        }
    }
}

/// Returns the position of an entry for the file `filename` in `files`, adding an empty one
/// at the end when there is none.
fn file_entry(files: &mut Vec<FixedFile>, filename: &String) -> (i: usize)
    ensures
        i < final(files)@.len(),
        final(files)@[i as int].filename@ == filename@,
        has_file(old(files)@, filename@) ==> final(files)@ == old(files)@,
        !has_file(old(files)@, filename@) ==> final(files)@.len() == old(files)@.len() + 1 && final(files)@.drop_last()
            == old(files)@ && i == old(files)@.len() && final(files)@[i as int].rules@.len() == 0,
{
    let mut i: usize = 0;
    while i < files.len()
        invariant
            i <= files@.len(),
            files@ == old(files)@,
            forall|j: int| 0 <= j < i ==> (#[trigger] files@[j]).filename@ != filename@,
        decreases files@.len() - i,
    {
        if str_eq(files[i].filename.as_str(), filename.as_str()) {
            return i;
        }
        i = i + 1;
    }
    files.push(FixedFile { filename: filename.clone(), rules: Vec::new() });
    assert(files@.drop_last() =~= old(files)@);
    proof {
        assert forall|j: int| 0 <= j < old(files)@.len() implies (#[trigger] old(files)@[j]).filename@ != filename@ by {
            assert(files@[j] == old(files)@[j]);
        }
    }
    i
}

proof fn lemma_push_empty_file(files: Seq<FixedFile>, f: FixedFile)
    requires
        f.rules@.len() == 0,
    ensures
        files_total(files.push(f)) == files_total(files),
        forall|n: Seq<char>, c: Seq<char>| #[trigger] fix_count(files.push(f), n, c) == fix_count(files, n, c),
{
    assert(files.push(f).drop_last() =~= files);
    assert forall|n: Seq<char>, c: Seq<char>| #[trigger] fix_count(files.push(f), n, c) == fix_count(files, n, c) by {
        assert(file_code_counts(files.push(f), n, c) =~= file_code_counts(files, n, c).push(
            file_code_counts(files.push(f), n, c).last(),
        ));
        lemma_sum_push(file_code_counts(files, n, c), file_code_counts(files.push(f), n, c).last());
        assert(code_counts(f.rules@, c) =~= Seq::<nat>::empty());
    }
}

/// Adds `count` fixes of the rule `code` (named `name`) in the file `filename` to `files`.
fn add_file_fixes(files: &mut Vec<FixedFile>, filename: &String, code: &String, name: &String, count: usize)
    requires
        files_total(old(files)@) + count <= usize::MAX,
    ensures
        forall|n: Seq<char>, c: Seq<char>|
            #[trigger] fix_count(final(files)@, n, c) == fix_count(old(files)@, n, c) + if n == filename@ && c == code@ {
                count as nat
            } else {
                0
            },
        files_total(final(files)@) == files_total(old(files)@) + count,
        forall|n: Seq<char>| #[trigger] has_file(final(files)@, n) <==> has_file(old(files)@, n) || n == filename@,
{
    let ghost start = files@;
    let i = file_entry(files, filename);
    proof {
        if !has_file(start, filename@) {
            assert(files@ =~= start.push(files@.last()));
            lemma_push_empty_file(start, files@.last());
            assert forall|n: Seq<char>| #[trigger] has_file(files@, n) <==> has_file(start, n) || n == filename@ by {
                if has_file(start, n) {
                    let j = choose|j: int| 0 <= j < start.len() && (#[trigger] start[j]).filename@ == n;
                    assert(files@[j] == start[j]);
                }
                if has_file(files@, n) && n != filename@ {
                    let j = choose|j: int| 0 <= j < files@.len() && (#[trigger] files@[j]).filename@ == n;
                    assert(j < start.len());
                    assert(start[j] == files@[j]);
                }
                if n == filename@ {
                    assert(files@[i as int].filename@ == n);
                }
            }
        } else {
            let j = choose|j: int| 0 <= j < start.len() && (#[trigger] start[j]).filename@ == filename@;
        }
    }
    let ghost mid = files@;
    proof {
        lemma_files_total_sum(mid);
        lemma_sum_update(file_totals(mid), i as int, 0);
        assert(file_totals(mid)[i as int] == rules_total(mid[i as int].rules@));
    }
    let mut entry = files.remove(i);
    add_rule_fixes(&mut entry.rules, code, name, count);
    files.insert(i, entry);
    proof {
        assert(files@ =~= mid.update(i as int, entry));
        assert(file_totals(files@) =~= file_totals(mid).update(i as int, rules_total(entry.rules@)));
        lemma_sum_update(file_totals(mid), i as int, rules_total(entry.rules@));
        lemma_files_total_sum(files@);
        assert forall|n: Seq<char>, c: Seq<char>| #[trigger] fix_count(files@, n, c) == fix_count(mid, n, c) + if n
            == filename@ && c == code@ {
            count as nat
        } else {
            0
        } by {
            assert(file_code_counts(files@, n, c) =~= file_code_counts(mid, n, c).update(
                i as int,
                file_code_counts(files@, n, c)[i as int],
            ));
            lemma_sum_update(file_code_counts(mid, n, c), i as int, file_code_counts(files@, n, c)[i as int]);
        }
        assert forall|n: Seq<char>| #[trigger] has_file(files@, n) <==> has_file(mid, n) by {
            if has_file(mid, n) {
                let j = choose|j: int| 0 <= j < mid.len() && (#[trigger] mid[j]).filename@ == n;
                assert(files@[j].filename@ == n);
            }
            if has_file(files@, n) {
                let j = choose|j: int| 0 <= j < files@.len() && (#[trigger] files@[j]).filename@ == n;
                assert(mid[j].filename@ == n);
            }
        }
    }
}

proof fn lemma_sum_take(s: Seq<nat>, k: int)
    requires
        0 <= k <= s.len(),
    ensures
        sum(s.take(k)) <= sum(s),
        k < s.len() ==> sum(s.take(k + 1)) == sum(s.take(k)) + s[k],
    decreases s.len() - k,
{
    if k < s.len() {
        assert(s.take(k + 1).drop_last() =~= s.take(k));
        lemma_sum_take(s, k + 1);
    } else {
        assert(s.take(k) =~= s);
    }
}

/// Whether `files` has an entry for the file `name` that lists some rule.
pub open spec fn lists_file(files: Seq<FixedFile>, name: Seq<char>) -> bool {
    exists|i: int| 0 <= i < files.len() && (#[trigger] files[i]).filename@ == name && files[i].rules@.len() > 0
}

impl FixMap {
    /// Adds the fixes of `other` to these: the counts of each file and rule add up, and each
    /// file of `other` that lists some rule gets an entry here.
    pub fn add(&mut self, other: FixMap)
        requires
            files_total(old(self).files@) + files_total(other.files@) <= usize::MAX,
        ensures
            forall|n: Seq<char>, c: Seq<char>|
                #[trigger] fix_count(final(self).files@, n, c) == fix_count(old(self).files@, n, c) + fix_count(
                    other.files@,
                    n,
                    c,
                ),
            files_total(final(self).files@) == files_total(old(self).files@) + files_total(other.files@),
            forall|n: Seq<char>|
                #[trigger] has_file(final(self).files@, n) <==> has_file(old(self).files@, n) || lists_file(
                    other.files@,
                    n,
                ),
    {
        let ghost start = self.files@;
        let ghost os = other.files@;
        proof {
            lemma_files_total_sum(os);
        }
        let mut i: usize = 0;
        while i < other.files.len()
            invariant
                i <= os.len(),
                os == other.files@,
                files_total(start) + files_total(os) <= usize::MAX,
                files_total(os) == sum(file_totals(os)),
                forall|n: Seq<char>, c: Seq<char>|
                    #[trigger] fix_count(self.files@, n, c) == fix_count(start, n, c) + fix_count(os.take(i as int), n, c),
                files_total(self.files@) == files_total(start) + sum(file_totals(os).take(i as int)),
                forall|n: Seq<char>|
                    #[trigger] has_file(self.files@, n) <==> has_file(start, n) || lists_file(os.take(i as int), n),
            decreases os.len() - i,
        {
            let f = &other.files[i];
            proof {
                lemma_sum_take(file_totals(os), i as int);
                lemma_sum_take(file_totals(os), i + 1);
                assert(file_totals(os).take(i + 1) == file_totals(os.take(i + 1)));
                assert(file_totals(os)[i as int] == rules_total(f.rules@));
                lemma_rules_total_sum(f.rules@);
                assert forall|n: Seq<char>, c: Seq<char>| #[trigger] fix_count(os.take(i + 1), n, c) == fix_count(
                    os.take(i as int),
                    n,
                    c,
                ) + if f.filename@ == n {
                    rule_count(f.rules@, c)
                } else {
                    0
                } by {
                    assert(file_code_counts(os.take(i + 1), n, c) =~= file_code_counts(os.take(i as int), n, c).push(
                        if f.filename@ == n {
                            rule_count(f.rules@, c)
                        } else {
                            0
                        },
                    ));
                    lemma_sum_push(file_code_counts(os.take(i as int), n, c), if f.filename@ == n {
                        rule_count(f.rules@, c)
                    } else {
                        0
                    });
                }
                assert forall|n: Seq<char>| #[trigger] lists_file(os.take(i + 1), n) <==> lists_file(os.take(i as int), n) || (
                f.filename@ == n && f.rules@.len() > 0) by {
                    if lists_file(os.take(i as int), n) {
                        let j = choose|j: int| 0 <= j < i && (#[trigger] os.take(i as int)[j]).filename@ == n && os.take(
                            i as int,
                        )[j].rules@.len() > 0;
                        assert(os.take(i + 1)[j] == os[j]);
                    }
                    if f.filename@ == n && f.rules@.len() > 0 {
                        assert(os.take(i + 1)[i as int] == os[i as int]);
                    }
                    if lists_file(os.take(i + 1), n) {
                        let j = choose|j: int| 0 <= j < i + 1 && (#[trigger] os.take(i + 1)[j]).filename@ == n && os.take(
                            i + 1,
                        )[j].rules@.len() > 0;
                        if j < i {
                            assert(os.take(i as int)[j] == os[j]);
                        }
                    }
                }
            }
            if f.rules.len() > 0 {
                let ghost before = self.files@;
                let _ = file_entry(&mut self.files, &f.filename);
                proof {
                    if !has_file(before, f.filename@) {
                        assert(self.files@ =~= before.push(self.files@.last()));
                        lemma_push_empty_file(before, self.files@.last());
                    }
                    assert forall|n: Seq<char>| #[trigger] has_file(self.files@, n) <==> has_file(before, n) || n
                        == f.filename@ by {
                        if has_file(before, n) {
                            let j = choose|j: int| 0 <= j < before.len() && (#[trigger] before[j]).filename@ == n;
                            assert(self.files@[j] == before[j]);
                        }
                        if has_file(self.files@, n) && !has_file(before, n) {
                            let j = choose|j: int| 0 <= j < self.files@.len() && (#[trigger] self.files@[j]).filename@ == n;
                            if j < before.len() {
                                assert(before[j] == self.files@[j]);
                            }
                        }
                        if n == f.filename@ {
                            let j = choose|j: int| 0 <= j < self.files@.len() && (#[trigger] self.files@[j]).filename@ == n;
                        }
                    }
                }
                let ghost mid = self.files@;
                let mut j: usize = 0;
                while j < f.rules.len()
                    invariant
                        j <= f.rules@.len(),
                        *f == os[i as int],
                        i < os.len(),
                        files_total(mid) + rules_total(f.rules@) <= usize::MAX,
                        rules_total(f.rules@) == sum(counts(f.rules@)),
                        has_file(mid, f.filename@),
                        forall|n: Seq<char>, c: Seq<char>|
                            #[trigger] fix_count(self.files@, n, c) == fix_count(mid, n, c) + if n == f.filename@ {
                                rule_count(f.rules@.take(j as int), c)
                            } else {
                                0
                            },
                        files_total(self.files@) == files_total(mid) + sum(counts(f.rules@).take(j as int)),
                        forall|n: Seq<char>| #[trigger] has_file(self.files@, n) <==> has_file(mid, n),
                    decreases f.rules@.len() - j,
                {
                    let r = &f.rules[j];
                    proof {
                        lemma_sum_take(counts(f.rules@), j as int);
                        lemma_sum_take(counts(f.rules@), j + 1);
                        assert forall|c: Seq<char>| #[trigger] rule_count(f.rules@.take(j + 1), c) == rule_count(
                            f.rules@.take(j as int),
                            c,
                        ) + if r.code@ == c {
                            r.count as nat
                        } else {
                            0
                        } by {
                            assert(code_counts(f.rules@.take(j + 1), c) =~= code_counts(f.rules@.take(j as int), c).push(
                                if r.code@ == c {
                                    r.count as nat
                                } else {
                                    0
                                },
                            ));
                            lemma_sum_push(code_counts(f.rules@.take(j as int), c), if r.code@ == c {
                                r.count as nat
                            } else {
                                0
                            });
                        }
                    }
                    if r.count > 0 {
                        let ghost prev = self.files@;
                        add_file_fixes(&mut self.files, &f.filename, &r.code, &r.name, r.count);
                        proof {
                            assert forall|n: Seq<char>| #[trigger] has_file(self.files@, n) <==> has_file(mid, n) by {
                                assert(has_file(prev, n) <==> has_file(mid, n));
                                if n == f.filename@ {
                                    assert(has_file(mid, n));
                                }
                            }
                        }
                    }
                    j = j + 1;
                }
                proof {
                    assert(f.rules@.take(j as int) =~= f.rules@);
                    assert(counts(f.rules@).take(j as int) =~= counts(f.rules@));
                    assert(files_total(mid) == files_total(before));
                }
            }
            proof {
                assert(file_totals(os).take(i + 1) =~= file_totals(os.take(i + 1)));
                assert(file_totals(os.take(i + 1)) =~= file_totals(os.take(i as int)).push(rules_total(f.rules@)));
                lemma_sum_push(file_totals(os.take(i as int)), rules_total(f.rules@));
                assert(file_totals(os).take(i as int) =~= file_totals(os.take(i as int)));
                if f.rules@.len() == 0 {
                    assert forall|c: Seq<char>| #[trigger] rule_count(f.rules@, c) == 0 by {
                        assert(code_counts(f.rules@, c) =~= Seq::<nat>::empty());
                    }
                    assert(counts(f.rules@) =~= Seq::<nat>::empty());
                }
            }
            i = i + 1;
        }
        proof {
            assert(os.take(i as int) =~= os);
            assert(file_totals(os).take(i as int) =~= file_totals(os));
        }
    }
}

impl Diagnostics {
    /// Diagnostics made of `messages`, with no fixes.
    pub fn new(messages: Vec<Diagnostic>) -> (d: Self)
        ensures
            d.messages == messages,
            d.fixed.files@.len() == 0,
    {
        Diagnostics { messages, fixed: FixMap { files: Vec::new() } }
    }

    /// Returns whether there is neither a diagnostic nor a fix.
    pub fn is_empty(&self) -> (b: bool)
        ensures
            b == (self.messages@.len() == 0 && self.fixed.files@.len() == 0),
    {
        self.messages.len() == 0 && self.fixed.is_empty()
    }

    /// Adds the diagnostics of `other` after these, and its fixes to these (see
    /// [`FixMap::add`]).
    pub fn add(&mut self, other: Diagnostics)
        requires
            files_total(old(self).fixed.files@) + files_total(other.fixed.files@) <= usize::MAX,
        ensures
            final(self).messages@ == old(self).messages@ + other.messages@,
            forall|n: Seq<char>, c: Seq<char>|
                #[trigger] fix_count(final(self).fixed.files@, n, c) == fix_count(old(self).fixed.files@, n, c)
                    + fix_count(other.fixed.files@, n, c),
            files_total(final(self).fixed.files@) == files_total(old(self).fixed.files@) + files_total(
                other.fixed.files@,
            ),
            forall|n: Seq<char>|
                #[trigger] has_file(final(self).fixed.files@, n) <==> has_file(old(self).fixed.files@, n)
                    || lists_file(other.fixed.files@, n),
    {
        let Diagnostics { messages, fixed } = other;
        let mut messages = messages;
        self.messages.append(&mut messages);
        self.fixed.add(fixed);
    }
}

/// What checking one file came to.
#[derive(Debug, Clone)]
pub enum CheckStatus {
    /// The file was checked and nothing was found.
    NoViolations,
    /// The file was checked and these violations were found.
    Violations(Diagnostics),
    /// The file was skipped, with these diagnostics of why.
    Skipped(Diagnostics),
    /// The file was skipped without a diagnostic.
    SkippedNoDiagnostic,
}

/// The diagnostics that a status carries.
pub open spec fn status_diagnostics(status: CheckStatus) -> Option<Diagnostics> {
    match status {
        CheckStatus::Violations(d) => Some(d),
        CheckStatus::Skipped(d) => Some(d),
        _ => None,
    }
}

/// Whether a status counts a checked file (or else a skipped one).
pub open spec fn status_checked(status: CheckStatus) -> bool {
    status is NoViolations || status is Violations
}

impl CheckResults {
    /// Results with nothing found and no file counted.
    pub fn new() -> (r: Self)
        ensures
            r.diagnostics.messages@.len() == 0,
            r.diagnostics.fixed.files@.len() == 0,
            r.files_checked == 0,
            r.files_skipped == 0,
    {
        CheckResults {
            diagnostics: Diagnostics { messages: Vec::new(), fixed: FixMap { files: Vec::new() } },
            files_checked: 0,
            files_skipped: 0,
        }
    }

    /// The results of checking standard input: its diagnostics, and one file checked.
    pub fn from_stdin(diagnostics: Diagnostics) -> (r: Self)
        ensures
            r.diagnostics == diagnostics,
            r.files_checked == 1,
            r.files_skipped == 0,
    {
        CheckResults { diagnostics, files_checked: 1, files_skipped: 0 }
    }

    /// Adds the status of one more file: its diagnostics, if any, and one to the files checked
    /// or skipped.
    pub fn add(self, status: CheckStatus) -> (r: Self)
        requires
            self.files_checked < usize::MAX,
            self.files_skipped < usize::MAX,
            status_diagnostics(status) matches Some(d) ==> files_total(self.diagnostics.fixed.files@) + files_total(
                d.fixed.files@,
            ) <= usize::MAX,
        ensures
            r.files_checked == self.files_checked + if status_checked(status) {
                1int
            } else {
                0int
            },
            r.files_skipped == self.files_skipped + if status_checked(status) {
                0int
            } else {
                1int
            },
            match status_diagnostics(status) {
                Some(d) => {
                    &&& r.diagnostics.messages@ == self.diagnostics.messages@ + d.messages@
                    &&& forall|n: Seq<char>, c: Seq<char>|
                        #[trigger] fix_count(r.diagnostics.fixed.files@, n, c) == fix_count(
                            self.diagnostics.fixed.files@,
                            n,
                            c,
                        ) + fix_count(d.fixed.files@, n, c)
                    &&& files_total(r.diagnostics.fixed.files@) == files_total(self.diagnostics.fixed.files@)
                        + files_total(d.fixed.files@)
                },
                None => r.diagnostics == self.diagnostics,
            },
    {
        let mut r = self;
        match status {
            CheckStatus::NoViolations => r.files_checked = r.files_checked + 1,
            CheckStatus::Violations(d) => {
                r.diagnostics.add(d);
                r.files_checked = r.files_checked + 1;
            },
            CheckStatus::Skipped(d) => {
                r.diagnostics.add(d);
                r.files_skipped = r.files_skipped + 1;
            },
            CheckStatus::SkippedNoDiagnostic => r.files_skipped = r.files_skipped + 1,
        }
        r
    }

    /// Merges the results `other` into these: diagnostics one after the other, fixes and
    /// file counts added up.
    pub fn merge(self, other: CheckResults) -> (r: Self)
        requires
            self.files_checked + other.files_checked <= usize::MAX,
            self.files_skipped + other.files_skipped <= usize::MAX,
            files_total(self.diagnostics.fixed.files@) + files_total(other.diagnostics.fixed.files@) <= usize::MAX,
        ensures
            r.diagnostics.messages@ == self.diagnostics.messages@ + other.diagnostics.messages@,
            forall|n: Seq<char>, c: Seq<char>|
                #[trigger] fix_count(r.diagnostics.fixed.files@, n, c) == fix_count(self.diagnostics.fixed.files@, n, c)
                    + fix_count(other.diagnostics.fixed.files@, n, c),
            files_total(r.diagnostics.fixed.files@) == files_total(self.diagnostics.fixed.files@) + files_total(
                other.diagnostics.fixed.files@,
            ),
            r.files_checked == self.files_checked + other.files_checked,
            r.files_skipped == self.files_skipped + other.files_skipped,
    {
        let mut r = self;
        let CheckResults { diagnostics, files_checked, files_skipped } = other;
        r.diagnostics.add(diagnostics);
        r.files_checked = r.files_checked + files_checked;
        r.files_skipped = r.files_skipped + files_skipped;
        r
    }
}

/// Whether a check reads standard input: always when a name for it is given, else when the
/// only file is `-`.
pub open spec fn reads_stdin(files: Seq<String>, stdin_filename_given: bool) -> bool {
    stdin_filename_given || (files.len() == 1 && files[0]@ == "-"@)
}

/// Returns whether a check of the files `files` reads standard input (see [`reads_stdin`]).
pub fn is_stdin(files: &Vec<String>, stdin_filename_given: bool) -> (b: bool)
    ensures
        b == reads_stdin(files@, stdin_filename_given),
{
    if stdin_filename_given {
        return true;
    }
    files.len() == 1 && str_eq(files[0].as_str(), "-")
}

/// Returns how fixes are handled: applied with `--fix` or `--fix-only`, else only counted.
pub fn fix_mode_for(fix: bool, fix_only: bool) -> (m: FixMode)
    ensures
        m == if fix || fix_only {
            FixMode::Apply
        } else {
            FixMode::Generate
        },
{
    if fix || fix_only {
        FixMode::Apply
    } else {
        FixMode::Generate
    }
}

/// Returns whether the summary goes to standard error: when standard input is read and fixes
/// are applied or shown as a diff, as the fixed text goes to standard output.
pub fn summary_to_stderr(is_stdin: bool, fix_mode: FixMode) -> (b: bool)
    ensures
        b == (is_stdin && (fix_mode is Apply || fix_mode is Diff)),
{
    is_stdin && match fix_mode {
        FixMode::Apply | FixMode::Diff => true,
        FixMode::Generate => false,
    }
}

/// Returns what the printer shows: the violations unless only fixing, and a summary of the
/// fixes when asked.
pub fn printer_flags(fix_only: bool, show_fixes: bool) -> (f: Flags)
    ensures
        f.show_violations == !fix_only,
        f.show_fix_summary == show_fixes,
        !f.show_fix_diff,
{
    Flags { show_violations: !fix_only, show_fix_summary: show_fixes, show_fix_diff: false }
}

/// Whether a check run fails: never with `--exit-zero`; when only fixing, when asked to fail
/// on fixes and some were made; otherwise when violations remain, or, when asked to fail on
/// fixes, when some were made.
pub open spec fn fails(exit_zero: bool, fix_only: bool, exit_non_zero_on_fix: bool, fixed: bool, remaining: bool) -> bool {
    !exit_zero && if fix_only {
        exit_non_zero_on_fix && fixed
    } else if exit_non_zero_on_fix {
        fixed || remaining
    } else {
        remaining
    }
}

/// Returns whether a check run whose results are `diagnostics` fails (see [`fails`]).
pub fn exit_failure(exit_zero: bool, fix_only: bool, exit_non_zero_on_fix: bool, diagnostics: &Diagnostics) -> (b: bool)
    ensures
        b == fails(
            exit_zero,
            fix_only,
            exit_non_zero_on_fix,
            diagnostics.fixed.files@.len() > 0,
            diagnostics.messages@.len() > 0,
        ),
{
    let fixed = !diagnostics.fixed.is_empty();
    let remaining = diagnostics.messages.len() > 0;
    if exit_zero {
        false
    } else if fix_only {
        exit_non_zero_on_fix && fixed
    } else if exit_non_zero_on_fix {
        fixed || remaining
    } else {
        remaining
    }
}

/// Whether the diagnostic `d` is kept with the per-file ignores `ignored`: when it has no rule
/// or its rule is not ignored.
pub open spec fn kept(d: Diagnostic, ignored: Seq<Rule>) -> bool {
    match d.rule {
        Some(r) => !ignored.contains(r),
        None => true,
    }
}

/// The diagnostics of `ds` kept with the per-file ignores `ignored`, in order.
pub open spec fn kept_diagnostics(ds: Seq<Diagnostic>, ignored: Seq<Rule>) -> Seq<Diagnostic>
    decreases ds.len(),
{
    if ds.len() == 0 {
        Seq::empty()
    } else {
        kept_diagnostics(ds.drop_last(), ignored) + if kept(ds.last(), ignored) {
            seq![ds.last()]
        } else {
            Seq::empty()
        }
    }
}

fn rule_listed(rules: &Vec<Rule>, rule: Rule) -> (b: bool)
    ensures
        b == rules@.contains(rule),
{
    let mut i: usize = 0;
    while i < rules.len()
        invariant
            i <= rules@.len(),
            forall|j: int| 0 <= j < i ==> rules@[j] != rule,
        decreases rules@.len() - i,
    {
        if rules[i].0 == rule.0 {
            assert(rules@[i as int] == rule);
            return true;
        }
        i = i + 1;
    }
    false
}

/// Returns the diagnostics of `messages` that the per-file ignores `ignored` keep (see
/// [`kept`]), in order.
pub fn retain_not_ignored(messages: Vec<Diagnostic>, ignored: &Vec<Rule>) -> (r: Vec<Diagnostic>)
    ensures
        r@ == kept_diagnostics(messages@, ignored@),
{
    let mut r: Vec<Diagnostic> = Vec::new();
    let mut rest = messages;
    let ghost all = rest@;
    let mut i: usize = 0;
    let n = rest.len();
    assert(all.skip(0) =~= all);
    while rest.len() > 0
        invariant
            i + rest@.len() == all.len(),
            all.len() == n,
            rest@ == all.skip(i as int),
            r@ == kept_diagnostics(all.take(i as int), ignored@),
        decreases rest@.len(),
    {
        let d = rest.remove(0);
        assert(d == all[i as int]);
        assert(rest@ =~= all.skip(i + 1));
        let keep = match d.rule {
            Some(rule) => !rule_listed(ignored, rule),
            None => true,
        };
        assert(all.take(i + 1).drop_last() =~= all.take(i as int));
        if keep {
            r.push(d);
        }
        assert(r@ =~= kept_diagnostics(all.take(i + 1), ignored@));
        i = i + 1;
    }
    assert(all.take(i as int) =~= all);
    r
}

/// What became of one file.
#[derive(Debug, Clone)]
pub enum FileOutcome {
    /// It could not be read, for the reason given.
    Unreadable(String),
    /// It could not be processed, for the reason given.
    Failed(String),
    /// It was checked, with these results.
    Checked(Diagnostics),
}

/// The message of the I/O error diagnostic for a file that was not checked.
pub open spec fn io_error_text(outcome: FileOutcome) -> Option<Seq<char>> {
    match outcome {
        FileOutcome::Unreadable(e) => Some("Error opening file: "@ + e@),
        FileOutcome::Failed(m) => Some("Failed to process: "@ + m@),
        FileOutcome::Checked(_) => None,
    }
}

/// Returns the message of the I/O error diagnostic for a file that was not checked (see
/// [`io_error_text`]).
pub fn io_error_message(outcome: &FileOutcome) -> (r: Option<String>)
    ensures
        match r {
            Some(m) => io_error_text(*outcome) == Some(m@),
            None => io_error_text(*outcome) is None,
        },
{
    let (prefix, text) = match outcome {
        FileOutcome::Unreadable(e) => ("Error opening file: ", e),
        FileOutcome::Failed(m) => ("Failed to process: ", m),
        FileOutcome::Checked(_) => {
            return None;
        },
    };
    let mut out: Vec<char> = Vec::new();
    crate::write::push_str(&mut out, prefix);
    crate::write::push_str(&mut out, text.as_str());
    Some(crate::text::string_of(out.as_slice()))
}

/// Returns the status of a file from what became of it: checked with nothing found, checked
/// with violations (or fixes), or skipped, with the I/O error diagnostic `io_error` when that
/// rule is enabled (and none otherwise).
pub fn file_status(outcome: FileOutcome, io_error: Option<Diagnostic>) -> (s: CheckStatus)
    ensures
        match outcome {
            FileOutcome::Checked(d) => if d.messages@.len() == 0 && d.fixed.files@.len() == 0 {
                s is NoViolations
            } else {
                s == CheckStatus::Violations(d)
            },
            _ => match io_error {
                Some(e) => s matches CheckStatus::Skipped(d) && d.messages@ == seq![e] && d.fixed.files@.len() == 0,
                None => s is SkippedNoDiagnostic,
            },
        },
{
    match outcome {
        FileOutcome::Checked(d) => {
            if d.is_empty() {
                CheckStatus::NoViolations
            } else {
                CheckStatus::Violations(d)
            }
        },
        _ => match io_error {
            Some(e) => {
                let mut messages = Vec::new();
                messages.push(e);
                CheckStatus::Skipped(Diagnostics::new(messages))
            },
            None => CheckStatus::SkippedNoDiagnostic,
        },
    }
}

/// The entries of `files` that list some rule, in order.
pub open spec fn listing(files: Seq<FixedFile>) -> Seq<FixedFile>
    decreases files.len(),
{
    if files.len() == 0 {
        Seq::empty()
    } else {
        listing(files.drop_last()) + if files.last().rules@.len() > 0 {
            seq![files.last()]
        } else {
            Seq::empty()
        }
    }
}

impl FixMap {
    /// The fix map of the entries `files`, without those that list no rule.
    pub fn from_files(files: Vec<FixedFile>) -> (m: FixMap)
        ensures
            m.files@ == listing(files@),
    {
        let mut kept: Vec<FixedFile> = Vec::new();
        let mut rest = files;
        let ghost all = rest@;
        let n = rest.len();
        let mut i: usize = 0;
        assert(all.skip(0) =~= all);
        while rest.len() > 0
            invariant
                i + rest@.len() == all.len(),
                all.len() == n,
                rest@ == all.skip(i as int),
                kept@ == listing(all.take(i as int)),
            decreases rest@.len(),
        {
            let f = rest.remove(0);
            assert(f == all[i as int]);
            assert(rest@ =~= all.skip(i + 1));
            assert(all.take(i + 1).drop_last() =~= all.take(i as int));
            if f.rules.len() > 0 {
                kept.push(f);
            }
            assert(kept@ =~= listing(all.take(i + 1)));
            i = i + 1;
        }
        assert(all.take(i as int) =~= all);
        FixMap { files: kept }
    }
}

/// Returns what a check of standard input writes to standard output: when fixes are applied,
/// the fixed text if fixing succeeded, else the text read; nothing otherwise.
pub fn stdin_output(fix_mode: FixMode, transformed: Option<String>, source: String) -> (r: Option<String>)
    ensures
        r == match fix_mode {
            FixMode::Apply => Some(
                match transformed {
                    Some(t) => t,
                    None => source,
                },
            ),
            _ => None,
        },
{
    match fix_mode {
        FixMode::Apply => match transformed {
            Some(t) => Some(t),
            None => Some(source),
        },
        _ => None,
    }
}

/// The key by which diagnostics are sorted: whether the diagnostic is fatal, the name of its
/// file, and where its range starts.
pub type MessageKey = (bool, Seq<char>, Option<u32>);

/// Whether the diagnostic `d` has a primary annotation, whose file it is reported in.
pub open spec fn has_file_span(d: Diagnostic) -> bool {
    crate::diagnostics::first_primary(d.annotations@) is Some
}

/// The key of the diagnostic `d` (see [`MessageKey`]).
pub open spec fn message_key(d: Diagnostic) -> MessageKey {
    let i = crate::diagnostics::first_primary(d.annotations@).unwrap();
    let span = d.annotations@[i].span;
    (d.severity == crate::diagnostics::Severity::Fatal, span.file.name@, match span.range {
        Some(r) => Some(r.start),
        None => None,
    })
}

/// Whether the key `a` comes strictly before `b`: a diagnostic that is not fatal first, then by
/// file name, then by start, a diagnostic without a range first.
pub open spec fn key_lt(a: MessageKey, b: MessageKey) -> bool {
    (!a.0 && b.0) || (a.0 == b.0 && (crate::order::seq_lt(a.1, b.1) || (a.1 == b.1 && match (a.2, b.2) {
        (None, Some(_)) => true,
        (Some(x), Some(y)) => x < y,
        _ => false,
    })))
}

/// The order of keys is a strict total order.
pub proof fn lemma_key_lt_order(a: MessageKey, b: MessageKey, c: MessageKey)
    ensures
        !key_lt(a, a),
        key_lt(a, b) ==> !key_lt(b, a),
        key_lt(a, b) && key_lt(b, c) ==> key_lt(a, c),
        a != b ==> key_lt(a, b) || key_lt(b, a),
{
    crate::order::lemma_seq_lt_order(a.1, b.1, c.1);
    crate::order::lemma_seq_lt_order(b.1, a.1, c.1);
    crate::order::lemma_seq_lt_order(a.1, c.1, b.1);
    crate::order::lemma_seq_lt_order(b.1, c.1, a.1);
}

/// Whether position `p` comes before `q` in a stable order by the keys `keys`.
pub open spec fn message_before(keys: Seq<MessageKey>, p: int, q: int) -> bool {
    key_lt(keys[p], keys[q]) || (keys[p] == keys[q] && p < q)
}

/// `order` is the stable ascending order of the positions of `keys`.
pub open spec fn sorted_messages(order: Seq<usize>, keys: Seq<MessageKey>) -> bool {
    &&& crate::order::is_permutation(order, keys.len())
    &&& forall|k: int, l: int|
        0 <= k < l < order.len() ==> message_before(keys, #[trigger] order[k] as int, #[trigger] order[l] as int)
}

fn key_of(d: &Diagnostic) -> (k: (bool, Vec<char>, Option<u32>))
    requires
        has_file_span(*d),
    ensures
        (k.0, k.1@, k.2) == message_key(*d),
{
    let i = crate::diagnostics::find_primary(&d.annotations).unwrap();
    let span = &d.annotations[i].span;
    let start = match span.range {
        Some(r) => Some(r.start),
        None => None,
    };
    (d.severity.is_fatal(), crate::text::chars_of(span.file.name.as_str()), start)
}

fn key_lt_exec(a: &(bool, Vec<char>, Option<u32>), b: &(bool, Vec<char>, Option<u32>)) -> (r: bool)
    ensures
        r == key_lt((a.0, a.1@, a.2), (b.0, b.1@, b.2)),
{
    if a.0 != b.0 {
        return !a.0 && b.0;
    }
    if crate::order::chars_lt(a.1.as_slice(), b.1.as_slice()) {
        return true;
    }
    if !crate::order::chars_lt(b.1.as_slice(), a.1.as_slice()) {
        proof {
            crate::order::lemma_seq_lt_order(a.1@, b.1@, b.1@);
        }
        return match (a.2, b.2) {
            (None, Some(_)) => true,
            (Some(x), Some(y)) => x < y,
            _ => false,
        };
    }
    proof {
        crate::order::lemma_seq_lt_order(a.1@, b.1@, b.1@);
    }
    false
}

/// Returns the positions of `messages` in stable order of their keys (see [`key_lt`]).
pub fn message_order(messages: &Vec<Diagnostic>) -> (order: Vec<usize>)
    requires
        forall|i: int| 0 <= i < messages@.len() ==> has_file_span(#[trigger] messages@[i]),
    ensures
        sorted_messages(order@, messages@.map_values(|d: Diagnostic| message_key(d))),
{
    let ghost ks = messages@.map_values(|d: Diagnostic| message_key(d));
    let mut keys: Vec<(bool, Vec<char>, Option<u32>)> = Vec::new();
    let mut j: usize = 0;
    while j < messages.len()
        invariant
            j <= messages@.len(),
            keys@.len() == j,
            forall|i: int| 0 <= i < messages@.len() ==> has_file_span(#[trigger] messages@[i]),
            forall|i: int| 0 <= i < j ==> ((#[trigger] keys@[i]).0, keys@[i].1@, keys@[i].2) == message_key(messages@[i]),
        decreases messages@.len() - j,
    {
        keys.push(key_of(&messages[j]));
        j = j + 1;
    }
    let mut order: Vec<usize> = Vec::new();
    let mut i: usize = 0;
    while i < keys.len()
        invariant
            i <= keys@.len(),
            keys@.len() == messages@.len(),
            ks == messages@.map_values(|d: Diagnostic| message_key(d)),
            forall|m: int| 0 <= m < keys@.len() ==> ((#[trigger] keys@[m]).0, keys@[m].1@, keys@[m].2) == ks[m],
            order@.len() == i,
            forall|k: int| 0 <= k < i ==> (#[trigger] order@[k]) < i,
            forall|k: int, l: int| 0 <= k < l < i ==> order@[k] != order@[l],
            forall|v: int| 0 <= v < i ==> #[trigger] crate::order::lists(order@, v),
            forall|k: int, l: int|
                0 <= k < l < i ==> message_before(ks, #[trigger] order@[k] as int, #[trigger] order@[l] as int),
        decreases keys@.len() - i,
    {
        let mut pos: usize = 0;
        while pos < order.len() && !key_lt_exec(&keys[i], &keys[order[pos]])
            invariant
                i < keys@.len(),
                pos <= order@.len(),
                order@.len() == i,
                keys@.len() == ks.len(),
                forall|m: int| 0 <= m < keys@.len() ==> ((#[trigger] keys@[m]).0, keys@[m].1@, keys@[m].2) == ks[m],
                forall|k: int| 0 <= k < i ==> (#[trigger] order@[k]) < i,
                forall|k: int| 0 <= k < pos ==> !key_lt(ks[i as int], ks[#[trigger] order@[k] as int]),
            decreases i - pos,
        {
            let ghost b = order@[pos as int] as int;
            assert((keys@[b].0, keys@[b].1@, keys@[b].2) == ks[b]);
            pos = pos + 1;
        }
        let ghost before = order@;
        proof {
            if pos < i {
                let b = before[pos as int] as int;
                assert((keys@[b].0, keys@[b].1@, keys@[b].2) == ks[b]);
            }
            assert forall|k: int| pos <= k < i implies key_lt(ks[i as int], ks[#[trigger] before[k] as int]) by {
                if pos < i {
                    assert(key_lt(ks[i as int], ks[before[pos as int] as int]));
                    if k > pos {
                        assert(message_before(ks, before[pos as int] as int, before[k] as int));
                        lemma_key_lt_order(ks[i as int], ks[before[pos as int] as int], ks[before[k] as int]);
                    }
                }
            }
            assert forall|k: int| 0 <= k < pos implies message_before(ks, #[trigger] before[k] as int, i as int) by {
                lemma_key_lt_order(ks[before[k] as int], ks[i as int], ks[i as int]);
            }
        }
        order.insert(pos, i);
        proof {
            assert forall|k: int, l: int| 0 <= k < l < i + 1 implies message_before(
                ks,
                #[trigger] order@[k] as int,
                #[trigger] order@[l] as int,
            ) by {
                if l < pos {
                    assert(order@[k] == before[k] && order@[l] == before[l]);
                } else if l == pos {
                    assert(order@[k] == before[k]);
                } else if k < pos {
                    assert(order@[k] == before[k] && order@[l] == before[l - 1]);
                    assert(message_before(ks, before[k] as int, before[pos as int] as int));
                    if pos < i {
                        lemma_key_lt_order(ks[before[k] as int], ks[i as int], ks[before[l - 1] as int]);
                        lemma_key_lt_order(ks[before[k] as int], ks[before[pos as int] as int], ks[before[l - 1] as int]);
                    }
                } else if k == pos {
                    assert(order@[l] == before[l - 1]);
                } else {
                    assert(order@[k] == before[k - 1] && order@[l] == before[l - 1]);
                }
            }
            assert forall|k: int, l: int| 0 <= k < l < i + 1 implies order@[k] != order@[l] by {
                if k < pos && l < pos {
                } else if k < pos && l == pos {
                } else if k < pos {
                    assert(order@[l] == before[l - 1]);
                } else if k == pos {
                    assert(order@[l] == before[l - 1]);
                } else {
                    assert(order@[k] == before[k - 1] && order@[l] == before[l - 1]);
                }
            }
            assert forall|k: int| 0 <= k < i + 1 implies (#[trigger] order@[k]) < i + 1 by {
                if k < pos {
                    assert(order@[k] == before[k]);
                } else if k > pos {
                    assert(order@[k] == before[k - 1]);
                }
            }
            assert forall|v: int| 0 <= v < i + 1 implies #[trigger] crate::order::lists(order@, v) by {
                if v == i {
                    assert(order@[pos as int] == v);
                } else {
                    assert(crate::order::lists(before, v));
                    let k = choose|k: int| 0 <= k < before.len() && #[trigger] before[k] == v;
                    if k < pos {
                        assert(order@[k] == v);
                    } else {
                        assert(order@[k + 1] == v);
                    }
                }
            }
        }
        i = i + 1;
    }
    order
}

/// `ds` taken in the order `order`.
pub open spec fn reordered(ds: Seq<Diagnostic>, order: Seq<usize>) -> Seq<Diagnostic> {
    order.map_values(|i: usize| ds[i as int])
}

impl CheckResults {
    /// Sorts the diagnostics by their keys (see [`key_lt`]); diagnostics of equal keys keep
    /// their order.
    pub fn sort(&mut self)
        requires
            forall|i: int|
                0 <= i < old(self).diagnostics.messages@.len() ==> has_file_span(#[trigger] old(self).diagnostics.messages@[i]),
        ensures
            exists|order: Seq<usize>|
                sorted_messages(order, old(self).diagnostics.messages@.map_values(|d: Diagnostic| message_key(d)))
                    && final(self).diagnostics.messages@ == reordered(old(self).diagnostics.messages@, order),
            final(self).diagnostics.fixed == old(self).diagnostics.fixed,
            final(self).files_checked == old(self).files_checked,
            final(self).files_skipped == old(self).files_skipped,
    {
        let order = message_order(&self.diagnostics.messages);
        let ghost all = self.diagnostics.messages@;
        let mut rest: Vec<Diagnostic> = Vec::new();
        std::mem::swap(&mut rest, &mut self.diagnostics.messages);
        let n = rest.len();
        let mut slots: Vec<Option<Diagnostic>> = Vec::new();
        let mut j: usize = 0;
        assert(all.skip(0) =~= all);
        while rest.len() > 0
            invariant
                j + rest@.len() == n,
                all.len() == n,
                rest@ == all.skip(j as int),
                slots@.len() == j,
                forall|v: int| 0 <= v < j ==> (#[trigger] slots@[v]) == Some(all[v]),
            decreases rest@.len(),
        {
            let d = rest.remove(0);
            assert(rest@ =~= all.skip(j + 1));
            slots.push(Some(d));
            j = j + 1;
        }
        let mut out: Vec<Diagnostic> = Vec::new();
        let mut k: usize = 0;
        while k < order.len()
            invariant
                k <= order@.len(),
                order@.len() == n,
                all.len() == n,
                slots@.len() == n,
                crate::order::is_permutation(order@, n as nat),
                out@ == reordered(all, order@.take(k as int)),
                forall|v: int|
                    0 <= v < n ==> ((#[trigger] slots@[v]) == Some(all[v]) || (slots@[v] is None && exists|m: int|
                        0 <= m < k && order@[m] == v)),
                forall|m: int| 0 <= m < k ==> slots@[#[trigger] order@[m] as int] is None,
                forall|m: int| k <= m < n ==> slots@[#[trigger] order@[m] as int] == Some(all[order@[m] as int]),
            decreases order@.len() - k,
        {
            let v = order[k];
            let ghost pre = slots@;
            let d = slots.remove(v);
            slots.insert(v, None);
            assert(slots@ =~= pre.update(v as int, None));
            let d = d.unwrap();
            out.push(d);
            proof {
                assert(out@ =~= reordered(all, order@.take(k + 1)));
                assert forall|m: int| k + 1 <= m < n implies slots@[#[trigger] order@[m] as int] == Some(
                    all[order@[m] as int],
                ) by {
                    assert(order@[m] != order@[k as int]);
                }
                assert forall|m: int| 0 <= m < k + 1 implies slots@[#[trigger] order@[m] as int] is None by {
                    if m < k {
                        assert(order@[m] != order@[k as int] || slots@[order@[m] as int] is None);
                    }
                }
                assert forall|w: int|
                    0 <= w < n implies ((#[trigger] slots@[w]) == Some(all[w]) || (slots@[w] is None && exists|m: int|
                        0 <= m < k + 1 && order@[m] == w)) by {
                    if w == v {
                        assert(order@[k as int] == w);
                    } else {
                        assert(slots@[w] == pre[w]);
                    }
                }
            }
            k = k + 1;
        }
        assert(order@.take(k as int) =~= order@);
        self.diagnostics.messages = out;
    }
}

} // verus!
