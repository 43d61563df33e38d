//! Rules, sets of rules, and the table of enabled and fixable rules.
use vstd::prelude::*;

verus! {

/// The number of rule slots a [`RuleSet`] can hold: one per possible `u16` index.
pub const RULE_SLOTS: usize = 65536;

/// The number of 64-bit words needed to hold every rule slot.
pub const RULE_WORDS: usize = 1024;

/// A lint rule, identified by its index in the rule registry.
#[derive(Debug, Clone, Copy, PartialEq, Eq, Hash, PartialOrd, Ord, Structural)]
pub struct Rule(pub u16);

/// Whether bit `bit` of `word` is set.
pub open spec fn bit_set(word: u64, bit: u64) -> bool {
    (word >> bit) & 1u64 == 1u64
}

proof fn lemma_or_bit(x: u64, b: u64, c: u64)
    requires
        b < 64,
        c < 64,
    ensures
        bit_set(x | (1u64 << b), c) <==> (b == c || bit_set(x, c)),
{
    assert(((x | (1u64 << b)) >> c) & 1u64 == 1u64 <==> (b == c || (x >> c) & 1u64 == 1u64))
        by (bit_vector)
        requires
            b < 64,
            c < 64,
    ;
}

proof fn lemma_clear_bit(x: u64, b: u64, c: u64)
    requires
        b < 64,
        c < 64,
    ensures
        bit_set(x & !(1u64 << b), c) <==> (b != c && bit_set(x, c)),
{
    assert(((x & !(1u64 << b)) >> c) & 1u64 == 1u64 <==> (b != c && (x >> c) & 1u64 == 1u64))
        by (bit_vector)
        requires
            b < 64,
            c < 64,
    ;
}

proof fn lemma_zero_no_bits(c: u64)
    requires
        c < 64,
    ensures
        !bit_set(0u64, c),
{
    assert((0u64 >> c) & 1u64 != 1u64) by (bit_vector);
}

/// A set of rules, stored as a bitset with one bit per rule index.
#[derive(Debug, Clone)]
pub struct RuleSet {
    words: Vec<u64>,
}

/// Whether the bit words `words` hold the rule with index `index`.
pub open spec fn words_contain(words: Seq<u64>, index: u16) -> bool {
    let w = index as int / 64;
    let b = index as int % 64;
    w < words.len() && bit_set(words[w], b as u64)
}

impl RuleSet {
    /// The rules that this set holds.
    pub closed spec fn view(&self) -> Set<Rule> {
        Set::new(|r: Rule| words_contain(self.words@, r.0))
    }

    /// Whether the set holds `rule`.
    pub open spec fn has(&self, rule: Rule) -> bool {
        self.view().contains(rule)
    }

    /// Creates a set holding no rule.
    pub fn empty() -> (s: Self)
        ensures
            forall|r: Rule| !s.has(r),
    {
        RuleSet { words: Vec::new() }
    }

    /// Returns whether the set holds `rule`.
    pub fn contains(&self, rule: Rule) -> (b: bool)
        ensures
            b == self.has(rule),
    {
        let w = (rule.0 / 64) as usize;
        let b = (rule.0 % 64) as u64;
        if w < self.words.len() {
            (self.words[w] >> b) & 1u64 == 1u64
        } else {
            false
        }
    }

    /// Returns whether the set holds any of `rules`.
    pub fn any(&self, rules: &[Rule]) -> (b: bool)
        ensures
            b == exists|i: int| 0 <= i < rules@.len() && self.has(#[trigger] rules@[i]),
    {
        let mut i: usize = 0;
        while i < rules.len()
            invariant
                i <= rules@.len(),
                forall|j: int| 0 <= j < i ==> !self.has(#[trigger] rules@[j]),
            decreases rules@.len() - i,
        {
            if self.contains(rules[i]) {
                return true;
            }
            i = i + 1;
        }
        false
    }

    /// Adds `rule` to the set.
    pub fn insert(&mut self, rule: Rule)
        ensures
            forall|r: Rule| final(self).has(r) <==> (old(self).has(r) || r == rule),
    {
        let w = (rule.0 / 64) as usize;
        let b = (rule.0 % 64) as u64;
        let ghost old_words = self.words@;
        while self.words.len() <= w
            invariant
                w < RULE_WORDS,
                self.words@.len() >= old_words.len(),
                forall|i: int| 0 <= i < old_words.len() ==> self.words@[i] == old_words[i],
                forall|i: int| old_words.len() <= i < self.words@.len() ==> self.words@[i] == 0u64,
            decreases w + 1 - self.words@.len(),
        {
            self.words.push(0u64);
        }
        let ghost grown = self.words@;
        let word = self.words[w] | (1u64 << b);
        self.words.set(w, word);
        assert forall|r: Rule| self.has(r) <==> (old(self).has(r) || r == rule) by {
            let rw = r.0 as int / 64;
            let rb = r.0 as int % 64;
            if rw == w as int {
                lemma_or_bit(grown[w as int], b, rb as u64);
                if rw >= old_words.len() {
                    lemma_zero_no_bits(rb as u64);
                }
            } else if rw < grown.len() && rw >= old_words.len() {
                lemma_zero_no_bits(rb as u64);
            }
        }
    }

    /// Removes `rule` from the set.
    pub fn remove(&mut self, rule: Rule)
        ensures
            forall|r: Rule| final(self).has(r) <==> (old(self).has(r) && r != rule),
    {
        let w = (rule.0 / 64) as usize;
        let b = (rule.0 % 64) as u64;
        if w < self.words.len() {
            let ghost before = self.words@;
            let word = self.words[w] & !(1u64 << b);
            self.words.set(w, word);
            assert forall|r: Rule| self.has(r) <==> (old(self).has(r) && r != rule) by {
                let rw = r.0 as int / 64;
                let rb = r.0 as int % 64;
                if rw == w as int {
                    lemma_clear_bit(before[w as int], b, rb as u64);
                }
            }
        }
    }

    /// Returns the rules of the set in increasing order of index.
    pub fn iter(&self) -> (v: Vec<Rule>)
        ensures
            forall|i: int, j: int| 0 <= i < j < v@.len() ==> v@[i].0 < v@[j].0,
            forall|r: Rule| self.has(r) <==> v@.contains(r),
    {
        let mut v: Vec<Rule> = Vec::new();
        let mut i: usize = 0;
        while i < RULE_SLOTS
            invariant
                i <= RULE_SLOTS,
                forall|a: int, c: int| 0 <= a < c < v@.len() ==> v@[a].0 < v@[c].0,
                forall|a: int| 0 <= a < v@.len() ==> (v@[a].0 as int) < i,
                forall|r: Rule| (r.0 as int) < i ==> (self.has(r) <==> v@.contains(r)),
                forall|a: int| 0 <= a < v@.len() ==> self.has(#[trigger] v@[a]),
            decreases RULE_SLOTS - i,
        {
            let rule = Rule(i as u16);
            let ghost old_v = v@;
            if self.contains(rule) {
                v.push(rule);
            }
            assert forall|r: Rule| (r.0 as int) < i + 1 implies (self.has(r) <==> v@.contains(r)) by {
                if v@.contains(r) {
                    let k = choose|k: int| 0 <= k < v@.len() && v@[k] == r;
                    assert(self.has(v@[k]));
                }
                if self.has(r) {
                    if r.0 as int == i as int {
                        assert(r == rule);
                        assert(v@[v@.len() - 1] == r);
                    } else {
                        assert(old_v.contains(r));
                        let k = choose|k: int| 0 <= k < old_v.len() && old_v[k] == r;
                        assert(v@[k] == r);
                    }
                }
            }
            i = i + 1;
        }
        v
    }

    /// Creates a set holding exactly the given rules.
    pub fn from_rules(rules: &[Rule]) -> (s: Self)
        ensures
            forall|r: Rule| s.has(r) <==> rules@.contains(r),
    {
        let mut s = RuleSet::empty();
        let mut i: usize = 0;
        while i < rules.len()
            invariant
                i <= rules@.len(),
                forall|r: Rule|
                    s.has(r) <==> exists|k: int| 0 <= k < i && #[trigger] rules@[k] == r,
            decreases rules@.len() - i,
        {
            s.insert(rules[i]);
            assert forall|r: Rule|
                s.has(r) <==> exists|k: int| 0 <= k < i + 1 && #[trigger] rules@[k] == r by {
                if r == rules@[i as int] {
                    assert(rules@[i as int] == r);
                }
            }
            i = i + 1;
        }
        s
    }
}


/// A table to keep track of which rules are enabled and whether they should be fixed.
///
/// A rule that should be fixed is always enabled.
#[derive(Debug, Clone)]
pub struct RuleTable {
    enabled: RuleSet,
    should_fix: RuleSet,
}

impl RuleTable {
    /// The table is well formed: every rule that is fixed is enabled.
    pub closed spec fn wf(&self) -> bool {
        forall|r: Rule| self.should_fix.has(r) ==> self.enabled.has(r)
    }

    /// Whether `rule` is checked.
    pub closed spec fn is_enabled(&self, rule: Rule) -> bool {
        self.enabled.has(rule)
    }

    /// Whether violations of `rule` are fixed.
    pub closed spec fn is_fixed(&self, rule: Rule) -> bool {
        self.should_fix.has(rule)
    }

    /// Creates a new empty rule table.
    pub fn empty() -> (t: Self)
        ensures
            t.wf(),
            forall|r: Rule| !t.is_enabled(r) && !t.is_fixed(r),
    {
        RuleTable { enabled: RuleSet::empty(), should_fix: RuleSet::empty() }
    }

    /// Creates a table in which exactly the given rules are enabled, and all of them are fixed.
    pub fn from_rules(rules: &[Rule]) -> (t: Self)
        ensures
            t.wf(),
            forall|r: Rule| t.is_enabled(r) <==> rules@.contains(r),
            forall|r: Rule| t.is_fixed(r) <==> rules@.contains(r),
    {
        let enabled = RuleSet::from_rules(rules);
        let should_fix = RuleSet::from_rules(rules);
        RuleTable { enabled, should_fix }
    }

    /// Returns whether the given rule should be checked.
    pub fn enabled(&self, rule: Rule) -> (b: bool)
        ensures
            b == self.is_enabled(rule),
    {
        self.enabled.contains(rule)
    }

    /// Returns whether any of the given rules should be checked.
    pub fn any_enabled(&self, rules: &[Rule]) -> (b: bool)
        ensures
            b == exists|i: int| 0 <= i < rules@.len() && self.is_enabled(#[trigger] rules@[i]),
    {
        self.enabled.any(rules)
    }

    /// Returns whether violations of the given rule should be fixed.
    pub fn should_fix(&self, rule: Rule) -> (b: bool)
        requires
            self.wf(),
        ensures
            b == self.is_fixed(rule),
            b ==> self.is_enabled(rule),
    {
        self.should_fix.contains(rule)
    }

    /// Returns all enabled rules, in increasing order of index.
    pub fn iter_enabled(&self) -> (v: Vec<Rule>)
        ensures
            forall|i: int, j: int| 0 <= i < j < v@.len() ==> v@[i].0 < v@[j].0,
            forall|r: Rule| self.is_enabled(r) <==> v@.contains(r),
    {
        self.enabled.iter()
    }

    /// Enables the given rule, and marks it to be fixed if `should_fix` is set.
    pub fn enable(&mut self, rule: Rule, should_fix: bool)
        requires
            old(self).wf(),
        ensures
            final(self).wf(),
            forall|r: Rule| final(self).is_enabled(r) <==> (old(self).is_enabled(r) || r == rule),
            forall|r: Rule|
                final(self).is_fixed(r) <==> (old(self).is_fixed(r) || (should_fix && r == rule)),
            forall|r: Rule| final(self).is_fixed(r) ==> final(self).is_enabled(r),
    {
        self.enabled.insert(rule);
        if should_fix {
            self.should_fix.insert(rule);
        }
    }

    /// Disables the given rule, which is then not fixed either.
    pub fn disable(&mut self, rule: Rule)
        requires
            old(self).wf(),
        ensures
            final(self).wf(),
            forall|r: Rule| final(self).is_enabled(r) <==> (old(self).is_enabled(r) && r != rule),
            forall|r: Rule| final(self).is_fixed(r) <==> (old(self).is_fixed(r) && r != rule),
            forall|r: Rule| final(self).is_fixed(r) ==> final(self).is_enabled(r),
    {
        self.should_fix.remove(rule);
        self.enabled.remove(rule);
    }
}

/// The entrypoints (node kind ids) listed for `rule` in `table`: those of the first entry for
/// the rule, or none when the rule has no entry (it is not a rule on the syntax tree).
pub open spec fn entrypoints_of(table: Seq<(Rule, Vec<u16>)>, rule: Rule) -> Seq<u16>
    decreases table.len(),
{
    if table.len() == 0 {
        Seq::empty()
    } else if table[0].0 == rule {
        table[0].1@
    } else {
        entrypoints_of(table.drop_first(), rule)
    }
}

/// The number of times `x` occurs in `s`.
pub open spec fn occurrences<T>(s: Seq<T>, x: T) -> nat
    decreases s.len(),
{
    if s.len() == 0 {
        0
    } else {
        occurrences(s.drop_last(), x) + if s.last() == x {
            1nat
        } else {
            0nat
        }
    }
}

proof fn lemma_occurrences_push<T>(s: Seq<T>, y: T, x: T)
    ensures
        occurrences(s.push(y), x) == occurrences(s, x) + if y == x {
            1nat
        } else {
            0nat
        },
{
    assert(s.push(y).drop_last() =~= s);
}

proof fn lemma_occurrences_positive<T>(s: Seq<T>, x: T)
    ensures
        occurrences(s, x) > 0 <==> s.contains(x),
    decreases s.len(),
{
    if s.len() > 0 {
        lemma_occurrences_positive(s.drop_last(), x);
        if s.drop_last().contains(x) {
            let k = choose|k: int| 0 <= k < s.drop_last().len() && s.drop_last()[k] == x;
            assert(s[k] == x);
        }
        if s.contains(x) && s.last() != x {
            let k = choose|k: int| 0 <= k < s.len() && s[k] == x;
            assert(s.drop_last()[k] == x);
        }
    }
}

/// Returns the position of the first entry of `table` for `rule`, if any.
fn find_entry(table: &[(Rule, Vec<u16>)], rule: Rule) -> (r: Option<usize>)
    ensures
        match r {
            Some(i) => i < table@.len() && table@[i as int].0 == rule && entrypoints_of(table@, rule)
                == table@[i as int].1@,
            None => entrypoints_of(table@, rule) == Seq::<u16>::empty(),
        },
{
    let mut i: usize = 0;
    assert(table@.skip(0) =~= table@);
    while i < table.len()
        invariant
            i <= table@.len(),
            entrypoints_of(table@, rule) == entrypoints_of(table@.skip(i as int), rule),
        decreases table@.len() - i,
    {
        assert(table@.skip(i as int).drop_first() =~= table@.skip(i + 1));
        if table[i].0 == rule {
            return Some(i);
        }
        i = i + 1;
    }
    None
}

/// Returns the number of times `kind` occurs in `kinds`.
fn count_kind(kinds: &Vec<u16>, kind: u16) -> (n: usize)
    ensures
        n == occurrences(kinds@, kind),
{
    let mut n: usize = 0;
    let mut i: usize = 0;
    while i < kinds.len()
        invariant
            i <= kinds@.len(),
            n == occurrences(kinds@.subrange(0, i as int), kind),
            n <= i,
        decreases kinds@.len() - i,
    {
        proof {
            lemma_occurrences_push(kinds@.subrange(0, i as int), kinds@[i as int], kind);
            assert(kinds@.subrange(0, i + 1) =~= kinds@.subrange(0, i as int).push(kinds@[i as int]));
        }
        if kinds[i] == kind {
            n = n + 1;
        }
        i = i + 1;
    }
    assert(kinds@.subrange(0, kinds@.len() as int) =~= kinds@);
    n
}

/// Whether some enabled rule of `table` lists `kind` among its entrypoints.
pub open spec fn some_enabled_rule_runs_on(
    table: &RuleTable,
    entrypoints: Seq<(Rule, Vec<u16>)>,
    kind: u16,
) -> bool {
    exists|r: Rule| table.is_enabled(r) && #[trigger] entrypoints_of(entrypoints, r).contains(kind)
}

/// Whether `m` has an entry for `kind`.
pub open spec fn has_kind_entry(m: Seq<(u16, Vec<Rule>)>, kind: u16) -> bool {
    exists|i: int| 0 <= i < m.len() && #[trigger] m[i].0 == kind
}

/// Whether `x` is among the first `n` elements of `s`.
pub open spec fn in_prefix<T>(s: Seq<T>, n: int, x: T) -> bool {
    exists|d: int| 0 <= d < n && #[trigger] s[d] == x
}

/// Whether `rule` is among the first `n` elements of `rules`.
pub open spec fn seen_before(rules: Seq<Rule>, n: int, rule: Rule) -> bool {
    exists|k: int| 0 <= k < n && #[trigger] rules[k] == rule
}

/// The rules, in increasing order of index with repeats, run on nodes of kind `kind`: every
/// enabled rule occurs as many times as `kind` is listed among its entrypoints.
pub open spec fn runs_on_kind(
    table: &RuleTable,
    entrypoints: Seq<(Rule, Vec<u16>)>,
    kind: u16,
    rules: Seq<Rule>,
) -> bool {
    &&& forall|i: int, j: int| 0 <= i < j < rules.len() ==> rules[i].0 <= rules[j].0
    &&& forall|r: Rule|
        #[trigger] occurrences(rules, r) == if table.is_enabled(r) {
            occurrences(entrypoints_of(entrypoints, r), kind)
        } else {
            0
        }
}

proof fn lemma_occurs<T>(s: Seq<T>, i: int)
    requires
        0 <= i < s.len(),
    ensures
        occurrences(s, s[i]) > 0,
    decreases s.len(),
{
    if i < s.len() - 1 {
        lemma_occurs(s.drop_last(), i);
        assert(s.drop_last()[i] == s[i]);
    }
}

/// The rules that run on a node kind are enabled, and come in the order in which the table
/// lists its enabled rules (see [`RuleTable::iter_enabled`]): of two of them, the earlier one
/// stands no later in that list.
pub proof fn lemma_kind_rules_follow_enabled_order(
    table: &RuleTable,
    entrypoints: Seq<(Rule, Vec<u16>)>,
    kind: u16,
    rules: Seq<Rule>,
    enabled: Seq<Rule>,
    a: int,
    b: int,
    p: int,
    q: int,
)
    requires
        runs_on_kind(table, entrypoints, kind, rules),
        forall|i: int, j: int| 0 <= i < j < enabled.len() ==> enabled[i].0 < enabled[j].0,
        forall|r: Rule| table.is_enabled(r) <==> enabled.contains(r),
        0 <= a < b < rules.len(),
        0 <= p < enabled.len(),
        0 <= q < enabled.len(),
        enabled[p] == rules[a],
        enabled[q] == rules[b],
    ensures
        table.is_enabled(rules[a]),
        table.is_enabled(rules[b]),
        p <= q,
{
    lemma_occurs(rules, a);
    lemma_occurs(rules, b);
    assert(occurrences(rules, rules[a]) > 0);
    assert(occurrences(rules, rules[b]) > 0);
    if q < p {
        assert(enabled[q].0 < enabled[p].0);
    }
}

impl RuleTable {
    /// Returns the rules to run on nodes of `kind`, in increasing order of index (a rule
    /// repeats as often as `kind` is listed among its entrypoints).
    pub fn rules_for_kind(&self, entrypoints: &[(Rule, Vec<u16>)], kind: u16) -> (rules: Vec<Rule>)
        ensures
            runs_on_kind(self, entrypoints@, kind, rules@),
    {
        let enabled = self.iter_enabled();
        let mut rules: Vec<Rule> = Vec::new();
        let mut i: usize = 0;
        while i < enabled.len()
            invariant
                i <= enabled@.len(),
                forall|a: int, b: int| 0 <= a < b < enabled@.len() ==> enabled@[a].0 < enabled@[b].0,
                forall|r: Rule| self.is_enabled(r) <==> enabled@.contains(r),
                forall|a: int, b: int| 0 <= a < b < rules@.len() ==> rules@[a].0 <= rules@[b].0,
                i == 0 ==> rules@.len() == 0,
                i > 0 ==> forall|a: int|
                    0 <= a < rules@.len() ==> #[trigger] rules@[a].0 <= enabled@[i - 1].0,
                forall|r: Rule|
                    #[trigger] occurrences(rules@, r) == if seen_before(enabled@, i as int, r) {
                        occurrences(entrypoints_of(entrypoints@, r), kind)
                    } else {
                        0
                    },
            decreases enabled@.len() - i,
        {
            let rule = enabled[i];
            let count = match find_entry(entrypoints, rule) {
                Some(e) => count_kind(&entrypoints[e].1, kind),
                None => 0,
            };
            let ghost before = rules@;
            let mut c: usize = 0;
            while c < count
                invariant
                    c <= count,
                    rules@.len() == before.len() + c,
                    forall|a: int| 0 <= a < before.len() ==> rules@[a] == before[a],
                    forall|a: int| before.len() <= a < rules@.len() ==> rules@[a] == rule,
                    forall|a: int, b: int| 0 <= a < b < rules@.len() ==> rules@[a].0 <= rules@[b].0,
                    forall|a: int| 0 <= a < rules@.len() ==> #[trigger] rules@[a].0 <= rule.0,
                    forall|r: Rule|
                        #[trigger] occurrences(rules@, r) == occurrences(before, r) + if r == rule {
                            c as nat
                        } else {
                            0nat
                        },
                decreases count - c,
            {
                proof {
                    assert forall|r: Rule| #[trigger]
                        occurrences(rules@.push(rule), r) == occurrences(before, r) + if r == rule {
                            (c + 1) as nat
                        } else {
                            0nat
                        } by {
                        lemma_occurrences_push(rules@, rule, r);
                    }
                }
                rules.push(rule);
                c = c + 1;
            }
            proof {
                assert forall|r: Rule|
                    #[trigger] seen_before(enabled@, i + 1, r) <==> (seen_before(enabled@, i as int, r)
                        || r == rule) by {
                    if r == rule {
                        assert(enabled@[i as int] == r);
                    }
                    if seen_before(enabled@, i as int, r) {
                        let k = choose|k: int| 0 <= k < i && #[trigger] enabled@[k] == r;
                        assert(0 <= k < i + 1 && enabled@[k] == r);
                    }
                }
                assert(!seen_before(enabled@, i as int, rule));
            }
            i = i + 1;
        }
        assert forall|r: Rule| seen_before(enabled@, enabled@.len() as int, r) <==> self.is_enabled(r) by {
            if enabled@.contains(r) {
                let k = choose|k: int| 0 <= k < enabled@.len() && enabled@[k] == r;
                assert(0 <= k < enabled@.len() && enabled@[k] == r);
            }
        }
        rules
    }

    /// Returns, for every node kind on which some enabled rule runs, that kind together with the
    /// rules to run on it (see [`RuleTable::rules_for_kind`]). Every kind occurs once.
    pub fn ast_entrypoints(&self, entrypoints: &[(Rule, Vec<u16>)]) -> (m: Vec<(u16, Vec<Rule>)>)
        ensures
            forall|i: int, j: int| 0 <= i < j < m@.len() ==> m@[i].0 != m@[j].0,
            forall|i: int|
                0 <= i < m@.len() ==> runs_on_kind(self, entrypoints@, #[trigger] m@[i].0, m@[i].1@),
            forall|k: u16| #[trigger]
                some_enabled_rule_runs_on(self, entrypoints@, k) <==> has_kind_entry(m@, k),
    {
        let enabled = self.iter_enabled();
        let mut kinds: Vec<u16> = Vec::new();
        let mut i: usize = 0;
        while i < enabled.len()
            invariant
                i <= enabled@.len(),
                forall|r: Rule| self.is_enabled(r) <==> enabled@.contains(r),
                forall|a: int, b: int| 0 <= a < b < kinds@.len() ==> kinds@[a] != kinds@[b],
                forall|k: u16|
                    kinds@.contains(k) <==> exists|j: int|
                        0 <= j < i && #[trigger] entrypoints_of(entrypoints@, enabled@[j]).contains(k),
            decreases enabled@.len() - i,
        {
            if let Some(e) = find_entry(entrypoints, enabled[i]) {
                let eps = &entrypoints[e].1;
                let ghost before = kinds@;
                let mut c: usize = 0;
                while c < eps.len()
                    invariant
                        c <= eps@.len(),
                        forall|a: int, b: int| 0 <= a < b < kinds@.len() ==> kinds@[a] != kinds@[b],
                        forall|k: u16|
                            #[trigger] kinds@.contains(k) <==> (before.contains(k) || in_prefix(
                                eps@,
                                c as int,
                                k,
                            )),
                    decreases eps@.len() - c,
                {
                    let k = eps[c];
                    let mut found = false;
                    let mut q: usize = 0;
                    while q < kinds.len()
                        invariant
                            q <= kinds@.len(),
                            found <==> in_prefix(kinds@, q as int, k),
                        decreases kinds@.len() - q,
                    {
                        if kinds[q] == k {
                            found = true;
                        }
                        q = q + 1;
                    }
                    let ghost mid = kinds@;
                    assert(found <==> mid.contains(k)) by {
                        if found {
                            let a = choose|a: int| 0 <= a < mid.len() && #[trigger] mid[a] == k;
                            assert(mid[a] == k);
                        }
                        if mid.contains(k) {
                            let a = choose|a: int| 0 <= a < mid.len() && mid[a] == k;
                            assert(in_prefix(mid, mid.len() as int, k));
                        }
                    }
                    if !found {
                        kinds.push(k);
                    }
                    assert(kinds@.contains(k)) by {
                        if found {
                            let a = choose|a: int| 0 <= a < mid.len() && mid[a] == k;
                            assert(kinds@[a] == k);
                        } else {
                            assert(kinds@[kinds@.len() - 1] == k);
                        }
                    }
                    assert forall|x: u16|
                        #[trigger] kinds@.contains(x) <==> (before.contains(x) || in_prefix(
                            eps@,
                            c + 1,
                            x,
                        )) by {
                        assert(in_prefix(eps@, c + 1, x) <==> (in_prefix(eps@, c as int, x) || x == k))
                            by {
                            if x == k {
                                assert(eps@[c as int] == x);
                            }
                            if in_prefix(eps@, c + 1, x) {
                                let d = choose|d: int| 0 <= d < c + 1 && #[trigger] eps@[d] == x;
                                if d < c {
                                    assert(eps@[d] == x);
                                }
                            }
                            if in_prefix(eps@, c as int, x) {
                                let d = choose|d: int| 0 <= d < c && #[trigger] eps@[d] == x;
                                assert(eps@[d] == x);
                            }
                        }
                        assert(kinds@.contains(x) <==> (mid.contains(x) || x == k)) by {
                            if kinds@.contains(x) && x != k {
                                let a = choose|a: int| 0 <= a < kinds@.len() && kinds@[a] == x;
                                assert(mid[a] == x);
                            }
                            if mid.contains(x) {
                                let a = choose|a: int| 0 <= a < mid.len() && mid[a] == x;
                                assert(kinds@[a] == x);
                            }
                        }
                    }
                    c = c + 1;
                }
                assert forall|k: u16|
                    kinds@.contains(k) <==> exists|j: int|
                        0 <= j < i + 1 && #[trigger] entrypoints_of(entrypoints@, enabled@[j]).contains(k) by {
                    if in_prefix(eps@, eps@.len() as int, k) {
                        let d = choose|d: int| 0 <= d < eps@.len() && #[trigger] eps@[d] == k;
                        assert(entrypoints_of(entrypoints@, enabled@[i as int]).contains(k));
                    }
                    if entrypoints_of(entrypoints@, enabled@[i as int]).contains(k) {
                        let d = choose|d: int| 0 <= d < eps@.len() && eps@[d] == k;
                        assert(in_prefix(eps@, eps@.len() as int, k));
                    }
                    if exists|j: int|
                        0 <= j < i + 1 && #[trigger] entrypoints_of(entrypoints@, enabled@[j]).contains(k) {
                        let j = choose|j: int|
                            0 <= j < i + 1 && #[trigger] entrypoints_of(entrypoints@, enabled@[j]).contains(k);
                        if j < i {
                            assert(0 <= j < i && entrypoints_of(entrypoints@, enabled@[j]).contains(k));
                        }
                    }
                }
            } else {
                assert forall|k: u16|
                    kinds@.contains(k) <==> exists|j: int|
                        0 <= j < i + 1 && #[trigger] entrypoints_of(entrypoints@, enabled@[j]).contains(k) by {
                    if exists|j: int|
                        0 <= j < i + 1 && #[trigger] entrypoints_of(entrypoints@, enabled@[j]).contains(k) {
                        let j = choose|j: int|
                            0 <= j < i + 1 && #[trigger] entrypoints_of(entrypoints@, enabled@[j]).contains(k);
                        if j < i {
                            assert(0 <= j < i && entrypoints_of(entrypoints@, enabled@[j]).contains(k));
                        }
                    }
                }
            }
            i = i + 1;
        }
        let mut m: Vec<(u16, Vec<Rule>)> = Vec::new();
        let mut t: usize = 0;
        while t < kinds.len()
            invariant
                t <= kinds@.len(),
                m@.len() == t,
                forall|a: int| 0 <= a < t ==> #[trigger] m@[a].0 == kinds@[a],
                forall|a: int|
                    0 <= a < m@.len() ==> runs_on_kind(self, entrypoints@, #[trigger] m@[a].0, m@[a].1@),
            decreases kinds@.len() - t,
        {
            let rules = self.rules_for_kind(entrypoints, kinds[t]);
            m.push((kinds[t], rules));
            t = t + 1;
        }
        assert forall|k: u16|
            #[trigger] some_enabled_rule_runs_on(self, entrypoints@, k) <==> has_kind_entry(m@, k) by {
            if exists|r: Rule| self.is_enabled(r) && #[trigger] entrypoints_of(entrypoints@, r).contains(k) {
                let r = choose|r: Rule| self.is_enabled(r) && #[trigger] entrypoints_of(entrypoints@, r).contains(k);
                let j = choose|j: int| 0 <= j < enabled@.len() && enabled@[j] == r;
                assert(entrypoints_of(entrypoints@, enabled@[j]).contains(k));
                assert(kinds@.contains(k));
                let a = choose|a: int| 0 <= a < kinds@.len() && kinds@[a] == k;
                assert(m@[a].0 == k);
            }
            if exists|a: int| 0 <= a < m@.len() && #[trigger] m@[a].0 == k {
                let a = choose|a: int| 0 <= a < m@.len() && #[trigger] m@[a].0 == k;
                assert(kinds@[a] == k);
                assert(kinds@.contains(k));
                let j = choose|j: int|
                    0 <= j < enabled@.len() && #[trigger] entrypoints_of(entrypoints@, enabled@[j]).contains(k);
                assert(enabled@.contains(enabled@[j]));
            }
        }
        m
    }
}

/// A rule that is fixed is always enabled.
pub proof fn lemma_fixed_rules_are_enabled(table: RuleTable, rule: Rule)
    requires
        table.wf(),
        table.is_fixed(rule),
    ensures
        table.is_enabled(rule),
{
}

} // verus!
