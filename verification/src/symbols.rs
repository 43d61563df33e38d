//! Tables of the symbols declared in a scope, and a stack of them in which inner scopes shadow
//! outer ones.
use vstd::prelude::*;
use crate::ast::{ascii_lower, lower_char, ProcedureKind};
use crate::text::{chars_of, str_eq, string_of};

verus! {

/// What a named symbol is. A variable refers to its declaration statement in the table's list
/// of declarations, and records whether it is a dummy argument; a used item refers to its use
/// statement in the table's list of use statements.
#[derive(Debug, Clone, Copy, PartialEq, Eq, Structural)]
pub enum SymbolKind {
    Variable { declaration: usize, is_dummy: bool },
    Function,
    Subroutine,
    Type,
    Module,
    Program,
    UsedItem { statement: usize },
}

/// A named symbol: its name as written, and what it is.
#[derive(Debug, Clone)]
pub struct Symbol {
    pub name: String,
    pub kind: SymbolKind,
}

/// A symbol as its name and kind.
pub open spec fn symbol_view(s: Symbol) -> (Seq<char>, SymbolKind) {
    (s.name@, s.kind)
}

/// `s` with its ASCII letters in lowercase.
pub open spec fn lower(s: Seq<char>) -> Seq<char> {
    s.map_values(|c: char| ascii_lower(c))
}

/// Returns `s` with its ASCII letters in lowercase.
pub fn to_ascii_lowercase(s: &str) -> (r: String)
    ensures
        r@ == lower(s@),
{
    let cs = chars_of(s);
    let mut out: Vec<char> = Vec::new();
    let mut i: usize = 0;
    while i < cs.len()
        invariant
            i <= cs@.len(),
            cs@ == s@,
            out@ == lower(s@).take(i as int),
        decreases cs@.len() - i,
    {
        out.push(lower_char(cs[i]));
        assert(out@ =~= lower(s@).take(i + 1));
        i = i + 1;
    }
    assert(out@ =~= lower(s@));
    string_of(out.as_slice())
}

/// The symbol bound to `key` by the bindings `es`: the last binding of it.
pub open spec fn lookup(es: Seq<(Seq<char>, (Seq<char>, SymbolKind))>, key: Seq<char>) -> Option<(Seq<char>, SymbolKind)>
    decreases es.len(),
{
    if es.len() == 0 {
        None
    } else if es.last().0 == key {
        Some(es.last().1)
    } else {
        lookup(es.drop_last(), key)
    }
}

/// Bindings made one after the other: a later one replaces an earlier one of the same key.
pub proof fn lemma_lookup_concat(a: Seq<(Seq<char>, (Seq<char>, SymbolKind))>, b: Seq<(Seq<char>, (Seq<char>, SymbolKind))>, key: Seq<char>)
    ensures
        lookup(a + b, key) == match lookup(b, key) {
            Some(v) => Some(v),
            None => lookup(a, key),
        },
    decreases b.len(),
{
    if b.len() == 0 {
        assert(a + b =~= a);
    } else {
        assert((a + b).drop_last() =~= a + b.drop_last());
        lemma_lookup_concat(a, b.drop_last(), key);
    }
}

proof fn lemma_lookup_push(es: Seq<(Seq<char>, (Seq<char>, SymbolKind))>, x: (Seq<char>, (Seq<char>, SymbolKind)), key: Seq<char>)
    ensures
        lookup(es.push(x), key) == if x.0 == key {
            Some(x.1)
        } else {
            lookup(es, key)
        },
{
    assert(es.push(x).drop_last() =~= es);
}

proof fn lemma_lookup_update(es: Seq<(Seq<char>, (Seq<char>, SymbolKind))>, i: int, v: (Seq<char>, SymbolKind), key: Seq<char>)
    requires
        0 <= i < es.len(),
        forall|j: int| 0 <= j < es.len() && j != i ==> (#[trigger] es[j]).0 != es[i].0,
    ensures
        lookup(es.update(i, (es[i].0, v)), key) == if key == es[i].0 {
            Some(v)
        } else {
            lookup(es, key)
        },
    decreases es.len(),
{
    let es2 = es.update(i, (es[i].0, v));
    if i == es.len() - 1 {
        assert(es2.drop_last() =~= es.drop_last());
    } else {
        assert(es2.drop_last() =~= es.drop_last().update(i, (es[i].0, v)));
        assert(es.last().0 != es[i].0);
        lemma_lookup_update(es.drop_last(), i, v, key);
    }
}

proof fn lemma_lookup_absent(es: Seq<(Seq<char>, (Seq<char>, SymbolKind))>, key: Seq<char>)
    requires
        forall|j: int| 0 <= j < es.len() ==> (#[trigger] es[j]).0 != key,
    ensures
        lookup(es, key) is None,
    decreases es.len(),
{
    if es.len() > 0 {
        lemma_lookup_absent(es.drop_last(), key);
    }
}

/// The keys that the bindings `es` bind.
pub open spec fn keys(es: Seq<(Seq<char>, (Seq<char>, SymbolKind))>) -> Seq<Seq<char>> {
    es.map_values(|e: (Seq<char>, (Seq<char>, SymbolKind))| e.0)
}

proof fn lemma_lookup_some(es: Seq<(Seq<char>, (Seq<char>, SymbolKind))>, key: Seq<char>)
    ensures
        lookup(es, key) is Some <==> keys(es).contains(key),
    decreases es.len(),
{
    if es.len() > 0 {
        let n = es.len() - 1;
        let ks = keys(es);
        let ps = keys(es.drop_last());
        lemma_lookup_some(es.drop_last(), key);
        assert(ks[n] == es.last().0);
        if es.last().0 == key {
            assert(ks.contains(key));
        } else {
            if ps.contains(key) {
                let j = choose|j: int| 0 <= j < ps.len() && ps[j] == key;
                assert(ks[j] == key);
            }
            if ks.contains(key) {
                let j = choose|j: int| 0 <= j < ks.len() && ks[j] == key;
                assert(j != n);
                assert(ps[j] == key);
            }
        }
    } else {
        assert(!keys(es).contains(key));
    }
}

/// The parts of a scope that its symbol table is made from.
#[derive(Debug, Clone)]
pub struct Scope {
    /// Whether the scope is a function, a subroutine, or another scope.
    pub procedure: Option<ProcedureKind>,
    /// The identifiers among the procedure's parameters, as written.
    pub parameters: Vec<String>,
    /// For each use statement, the names of the items that it includes.
    pub use_statements: Vec<Vec<String>>,
    /// For each variable declaration, the names that it declares, as written.
    pub declarations: Vec<Vec<String>>,
    /// For a function whose statement gives its type, the name of its result.
    pub result_declaration: Option<String>,
    /// The internal procedures: their names and kinds.
    pub procedures: Vec<(String, ProcedureKind)>,
    /// The derived types, modules and programs defined in the scope: their names and kinds.
    pub definitions: Vec<(String, DefinitionKind)>,
}

/// The names of `strings`, each in lowercase.
pub open spec fn lowered(strings: Seq<String>) -> Seq<Seq<char>> {
    strings.map_values(|s: String| lower(s@))
}

/// The dummy arguments of a scope: its parameters, in lowercase, when it is a procedure.
pub open spec fn dummies_of(scope: Scope) -> Seq<Seq<char>> {
    if scope.procedure is Some {
        lowered(scope.parameters@)
    } else {
        Seq::empty()
    }
}

/// The bindings made by the `d`-th declaration, declaring `names` with the dummy arguments
/// `dummies`: each name, in lowercase, to a variable.
pub open spec fn declaration_bindings(names: Seq<String>, dummies: Seq<Seq<char>>, d: usize) -> Seq<(Seq<char>, (Seq<char>, SymbolKind))> {
    names.map_values(
        |n: String| (lower(n@), (n@, SymbolKind::Variable { declaration: d, is_dummy: dummies.contains(lower(n@)) })),
    )
}

/// The bindings made by the `u`-th use statement, including the items `items`: each item's
/// name, in lowercase, to the item.
pub open spec fn use_bindings(items: Seq<String>, u: usize) -> Seq<(Seq<char>, (Seq<char>, SymbolKind))> {
    items.map_values(|n: String| (lower(n@), (n@, SymbolKind::UsedItem { statement: u })))
}

/// The bindings made by the first `n` use statements of `uses`.
pub open spec fn uses_bindings(uses: Seq<Vec<String>>, n: int) -> Seq<(Seq<char>, (Seq<char>, SymbolKind))>
    decreases n,
{
    if n <= 0 {
        Seq::empty()
    } else {
        uses_bindings(uses, n - 1) + use_bindings(uses[n - 1]@, (n - 1) as usize)
    }
}

/// The bindings made by the first `n` declarations of `decls`, with the dummy arguments
/// `dummies`.
pub open spec fn decls_bindings(decls: Seq<Vec<String>>, dummies: Seq<Seq<char>>, n: int) -> Seq<
    (Seq<char>, (Seq<char>, SymbolKind)),
>
    decreases n,
{
    if n <= 0 {
        Seq::empty()
    } else {
        decls_bindings(decls, dummies, n - 1) + declaration_bindings(decls[n - 1]@, dummies, (n - 1) as usize)
    }
}

/// The bindings of named symbols, each under its name as written.
pub open spec fn named_bindings(named: Seq<(String, SymbolKind)>) -> Seq<(Seq<char>, (Seq<char>, SymbolKind))> {
    named.map_values(|d: (String, SymbolKind)| (d.0@, (d.0@, d.1)))
}

/// What a definition in a scope defines.
#[derive(Debug, Clone, Copy, PartialEq, Eq, Structural)]
pub enum DefinitionKind {
    Type,
    Module,
    Program,
}

/// The kind of symbol of a definition.
pub open spec fn definition_symbol(k: DefinitionKind) -> SymbolKind {
    match k {
        DefinitionKind::Type => SymbolKind::Type,
        DefinitionKind::Module => SymbolKind::Module,
        DefinitionKind::Program => SymbolKind::Program,
    }
}

/// The kind of symbol of a procedure.
pub open spec fn procedure_symbol(k: ProcedureKind) -> SymbolKind {
    match k {
        ProcedureKind::Function => SymbolKind::Function,
        ProcedureKind::Subroutine => SymbolKind::Subroutine,
    }
}

/// The bindings made for a scope, in order: the items of its use statements, the variables of
/// its declarations, the result of a typed function (a dummy argument of it), its internal
/// procedures, then its type, module and program definitions.
pub open spec fn scope_bindings(scope: Scope) -> Seq<(Seq<char>, (Seq<char>, SymbolKind))> {
    let n_decls = scope.declarations@.len();
    uses_bindings(scope.use_statements@, scope.use_statements@.len() as int) + decls_bindings(
        scope.declarations@,
        dummies_of(scope),
        n_decls as int,
    ) + (
    match scope.result_declaration {
        Some(r) => if scope.procedure == Some(ProcedureKind::Function) {
            seq![(lower(r@), (r@, SymbolKind::Variable { declaration: n_decls as usize, is_dummy: true }))]
        } else {
            Seq::empty()
        },
        None => Seq::empty(),
    }) + scope.procedures@.map_values(|p: (String, ProcedureKind)| (p.0@, (p.0@, procedure_symbol(p.1))))
        + scope.definitions@.map_values(|d: (String, DefinitionKind)| (d.0@, (d.0@, definition_symbol(d.1))))
}

/// The texts of the strings `v`.
pub open spec fn string_views(v: Seq<String>) -> Seq<Seq<char>> {
    Seq::new(v.len(), |i: int| v[i]@)
}

/// The texts of each list of strings of `v`.
pub open spec fn list_views(v: Seq<Vec<String>>) -> Seq<Seq<Seq<char>>> {
    Seq::new(v.len(), |i: int| string_views(v[i]@))
}

/// The symbols declared in a scope, by name; the variable declarations and use statements
/// they come from.
#[derive(Debug, Clone)]
pub struct SymbolTable {
    entries: Vec<(String, Symbol)>,
    declarations: Vec<Vec<String>>,
    use_statements: Vec<Vec<String>>,
}

impl SymbolTable {
    /// The table's bindings, by key.
    pub closed spec fn bindings(&self) -> Seq<(Seq<char>, (Seq<char>, SymbolKind))> {
        self.entries@.map_values(|e: (String, Symbol)| (e.0@, symbol_view(e.1)))
    }

    /// No name is bound twice.
    pub closed spec fn wf(&self) -> bool {
        forall|i: int, j: int|
            0 <= i < j < self.entries@.len() ==> (#[trigger] self.entries@[i]).0@ != (#[trigger] self.entries@[j]).0@
    }

    /// The symbol bound to `key`, if any.
    pub open spec fn find(&self, key: Seq<char>) -> Option<(Seq<char>, SymbolKind)> {
        lookup(self.bindings(), key)
    }

    /// The number of variable declarations recorded.
    pub closed spec fn declaration_count(&self) -> nat {
        self.declarations@.len()
    }

    /// The number of use statements recorded.
    pub closed spec fn use_statement_count(&self) -> nat {
        self.use_statements@.len()
    }

    /// The names declared by each variable declaration recorded, in order.
    pub closed spec fn declaration_lists(&self) -> Seq<Seq<Seq<char>>> {
        list_views(self.declarations@)
    }

    /// The items included by each use statement recorded, in order.
    pub closed spec fn use_lists(&self) -> Seq<Seq<Seq<char>>> {
        list_views(self.use_statements@)
    }

    /// Creates a table with no symbols.
    pub fn empty() -> (t: Self)
        ensures
            t.wf(),
            forall|k: Seq<char>| #[trigger] t.find(k) is None,
            t.declaration_count() == 0,
            t.use_statement_count() == 0,
            t.declaration_lists() == Seq::<Seq<Seq<char>>>::empty(),
            t.use_lists() == Seq::<Seq<Seq<char>>>::empty(),
    {
        let t = SymbolTable { entries: Vec::new(), declarations: Vec::new(), use_statements: Vec::new() };
        assert(t.bindings() =~= Seq::empty());
        assert(t.declaration_lists() =~= Seq::<Seq<Seq<char>>>::empty());
        assert(t.use_lists() =~= Seq::<Seq<Seq<char>>>::empty());
        t
    }

    /// Binds `key` to `symbol`, replacing what it was bound to.
    fn bind(&mut self, key: String, symbol: Symbol)
        requires
            old(self).wf(),
        ensures
            final(self).wf(),
            forall|k: Seq<char>|
                #[trigger] final(self).find(k) == if k == key@ {
                    Some(symbol_view(symbol))
                } else {
                    old(self).find(k)
                },
            final(self).declarations == old(self).declarations,
            final(self).use_statements == old(self).use_statements,
    {
        let ghost before = self.bindings();
        let mut i: usize = 0;
        while i < self.entries.len()
            invariant
                i <= self.entries@.len(),
                self.wf(),
                self.bindings() == before,
                self.declarations == old(self).declarations,
                self.use_statements == old(self).use_statements,
                before == old(self).bindings(),
                forall|j: int| 0 <= j < i ==> (#[trigger] self.entries@[j]).0@ != key@,
            decreases self.entries@.len() - i,
        {
            if str_eq(self.entries[i].0.as_str(), key.as_str()) {
                proof {
                    assert forall|j: int| 0 <= j < before.len() && j != i implies (#[trigger] before[j]).0 != before[i as int].0 by {
                        if j < i {
                            assert(self.entries@[j].0@ != self.entries@[i as int].0@);
                        } else {
                            assert(self.entries@[i as int].0@ != self.entries@[j].0@);
                        }
                    }
                }
                let ghost pre = self.entries@;
                self.entries.set(i, (key, symbol));
                proof {
                    assert(self.bindings() =~= before.update(i as int, (before[i as int].0, symbol_view(symbol))));
                    assert forall|a: int, b: int| 0 <= a < b < self.entries@.len() implies (#[trigger] self.entries@[a]).0@
                        != (#[trigger] self.entries@[b]).0@ by {
                        assert(pre[a].0@ != pre[b].0@);
                    }
                    assert forall|k: Seq<char>| #[trigger] self.find(k) == if k == key@ {
                        Some(symbol_view(symbol))
                    } else {
                        old(self).find(k)
                    } by {
                        lemma_lookup_update(before, i as int, symbol_view(symbol), k);
                    }
                }
                return;
            }
            i = i + 1;
        }
        let ghost pre = self.entries@;
        self.entries.push((key, symbol));
        proof {
            assert(self.bindings() =~= before.push((key@, symbol_view(symbol))));
            assert forall|k: Seq<char>| #[trigger] self.find(k) == if k == key@ {
                Some(symbol_view(symbol))
            } else {
                old(self).find(k)
            } by {
                lemma_lookup_push(before, (key@, symbol_view(symbol)), k);
            }
            assert forall|a: int, b: int| 0 <= a < b < self.entries@.len() implies (#[trigger] self.entries@[a]).0@
                != (#[trigger] self.entries@[b]).0@ by {
                if b < pre.len() {
                    assert(pre[a].0@ != pre[b].0@);
                } else {
                    assert(pre[a].0@ != key@);
                }
            }
        }
    }

    /// Records the declaration of the variables `names`, given the dummy arguments `dummy_vars`
    /// of the scope (in lowercase): each name is bound, in lowercase, to a variable of this
    /// declaration, a dummy argument when it is one of them.
    pub fn insert_from_decl_line(&mut self, names: Vec<String>, dummy_vars: &Vec<String>)
        requires
            old(self).wf(),
        ensures
            final(self).wf(),
            forall|k: Seq<char>|
                #[trigger] final(self).find(k) == match lookup(
                    declaration_bindings(names@, dummy_vars@.map_values(|s: String| s@), old(self).declaration_count() as usize),
                    k,
                ) {
                    Some(v) => Some(v),
                    None => old(self).find(k),
                },
            final(self).declaration_count() == old(self).declaration_count() + 1,
            final(self).use_statement_count() == old(self).use_statement_count(),
            final(self).declaration_lists() == old(self).declaration_lists().push(string_views(names@)),
            final(self).use_lists() == old(self).use_lists(),
    {
        let d = self.declarations.len();
        let ghost dummies = dummy_vars@.map_values(|s: String| s@);
        let ghost all = declaration_bindings(names@, dummies, d);
        let ghost start = self.bindings();
        let mut i: usize = 0;
        while i < names.len()
            invariant
                i <= names@.len(),
                d == self.declarations@.len(),
                d == old(self).declarations@.len(),
                self.declarations == old(self).declarations,
                self.use_statements == old(self).use_statements,
                self.wf(),
                all == declaration_bindings(names@, dummies, d),
                dummies == dummy_vars@.map_values(|s: String| s@),
                start == old(self).bindings(),
                forall|k: Seq<char>| #[trigger] self.find(k) == lookup(start + all.take(i as int), k),
            decreases names@.len() - i,
        {
            let key = to_ascii_lowercase(names[i].as_str());
            let is_dummy = contains_str(dummy_vars, key.as_str());
            let ghost prev = self.find(key@);
            self.bind(key, Symbol { name: names[i].clone(), kind: SymbolKind::Variable { declaration: d, is_dummy } });
            proof {
                assert(start + all.take(i + 1) =~= (start + all.take(i as int)).push(all[i as int]));
                assert forall|k: Seq<char>| #[trigger] self.find(k) == lookup(start + all.take(i + 1), k) by {
                    lemma_lookup_push(start + all.take(i as int), all[i as int], k);
                }
                assert(names@[i as int]@ == names[i as int]@);
            }
            i = i + 1;
        }
        assert(all.take(i as int) =~= all);
        let ghost pre = *self;
        let ghost pushed = string_views(names@);
        self.declarations.push(names);
        assert(self.declaration_lists() =~= old(self).declaration_lists().push(pushed));
        assert forall|k: Seq<char>| #[trigger] self.find(k) == match lookup(all, k) {
            Some(v) => Some(v),
            None => old(self).find(k),
        } by {
            assert(pre.find(k) == lookup(start + all.take(i as int), k));
            assert(self.bindings() == pre.bindings());
            lemma_lookup_concat(start, all, k);
        }
    }

    /// Records a use statement including the items `items`: each item's name is bound, in
    /// lowercase, to the item.
    pub fn insert_from_use_statement(&mut self, items: Vec<String>)
        requires
            old(self).wf(),
        ensures
            final(self).wf(),
            forall|k: Seq<char>|
                #[trigger] final(self).find(k) == match lookup(use_bindings(items@, old(self).use_statement_count() as usize), k) {
                    Some(v) => Some(v),
                    None => old(self).find(k),
                },
            final(self).use_statement_count() == old(self).use_statement_count() + 1,
            final(self).declaration_count() == old(self).declaration_count(),
            final(self).use_lists() == old(self).use_lists().push(string_views(items@)),
            final(self).declaration_lists() == old(self).declaration_lists(),
    {
        let u = self.use_statements.len();
        let ghost all = use_bindings(items@, u);
        let ghost start = self.bindings();
        let mut i: usize = 0;
        while i < items.len()
            invariant
                i <= items@.len(),
                u == self.use_statements@.len(),
                u == old(self).use_statements@.len(),
                self.use_statements == old(self).use_statements,
                self.declarations == old(self).declarations,
                self.wf(),
                all == use_bindings(items@, u),
                start == old(self).bindings(),
                forall|k: Seq<char>| #[trigger] self.find(k) == lookup(start + all.take(i as int), k),
            decreases items@.len() - i,
        {
            let key = to_ascii_lowercase(items[i].as_str());
            self.bind(key, Symbol { name: items[i].clone(), kind: SymbolKind::UsedItem { statement: u } });
            proof {
                assert(start + all.take(i + 1) =~= (start + all.take(i as int)).push(all[i as int]));
                assert forall|k: Seq<char>| #[trigger] self.find(k) == lookup(start + all.take(i + 1), k) by {
                    lemma_lookup_push(start + all.take(i as int), all[i as int], k);
                }
            }
            i = i + 1;
        }
        assert(all.take(i as int) =~= all);
        let ghost pre = *self;
        let ghost pushed = string_views(items@);
        self.use_statements.push(items);
        assert(self.use_lists() =~= old(self).use_lists().push(pushed));
        assert forall|k: Seq<char>| #[trigger] self.find(k) == match lookup(all, k) {
            Some(v) => Some(v),
            None => old(self).find(k),
        } by {
            assert(pre.find(k) == lookup(start + all.take(i as int), k));
            assert(self.bindings() == pre.bindings());
            lemma_lookup_concat(start, all, k);
        }
    }

    /// Binds each of `named`, in order, under its name as written.
    fn bind_named(&mut self, named: Vec<(String, SymbolKind)>)
        requires
            old(self).wf(),
        ensures
            final(self).wf(),
            forall|k: Seq<char>|
                #[trigger] final(self).find(k) == match lookup(named_bindings(named@), k) {
                    Some(v) => Some(v),
                    None => old(self).find(k),
                },
            final(self).declaration_count() == old(self).declaration_count(),
            final(self).use_statement_count() == old(self).use_statement_count(),
            final(self).declaration_lists() == old(self).declaration_lists(),
            final(self).use_lists() == old(self).use_lists(),
    {
        let ghost all = named_bindings(named@);
        let ghost start = self.bindings();
        let mut i: usize = 0;
        while i < named.len()
            invariant
                i <= named@.len(),
                self.declarations == old(self).declarations,
                self.use_statements == old(self).use_statements,
                self.wf(),
                all == named_bindings(named@),
                start == old(self).bindings(),
                forall|k: Seq<char>| #[trigger] self.find(k) == lookup(start + all.take(i as int), k),
            decreases named@.len() - i,
        {
            let name = named[i].0.clone();
            self.bind(named[i].0.clone(), Symbol { name, kind: named[i].1 });
            proof {
                assert(start + all.take(i + 1) =~= (start + all.take(i as int)).push(all[i as int]));
                assert forall|k: Seq<char>| #[trigger] self.find(k) == lookup(start + all.take(i + 1), k) by {
                    lemma_lookup_push(start + all.take(i as int), all[i as int], k);
                }
            }
            i = i + 1;
        }
        assert(all.take(i as int) =~= all);
        assert forall|k: Seq<char>| #[trigger] self.find(k) == match lookup(all, k) {
            Some(v) => Some(v),
            None => old(self).find(k),
        } by {
            lemma_lookup_concat(start, all, k);
        }
    }

    /// Returns the symbol bound to `name`, if any.
    pub fn get(&self, name: &str) -> (r: Option<&Symbol>)
        requires
            self.wf(),
        ensures
            match r {
                Some(s) => self.find(name@) == Some(symbol_view(*s)),
                None => self.find(name@) is None,
            },
    {
        let mut i: usize = 0;
        while i < self.entries.len()
            invariant
                i <= self.entries@.len(),
                self.wf(),
                forall|j: int| 0 <= j < i ==> (#[trigger] self.entries@[j]).0@ != name@,
            decreases self.entries@.len() - i,
        {
            if str_eq(self.entries[i].0.as_str(), name) {
                proof {
                    let bs = self.bindings();
                    assert forall|j: int| 0 <= j < bs.len() && j != i implies (#[trigger] bs[j]).0 != bs[i as int].0 by {
                        if j < i {
                            assert(self.entries@[j].0@ != self.entries@[i as int].0@);
                        } else {
                            assert(self.entries@[i as int].0@ != self.entries@[j].0@);
                        }
                    }
                    lemma_lookup_update(bs, i as int, bs[i as int].1, name@);
                    assert(bs.update(i as int, (bs[i as int].0, bs[i as int].1)) =~= bs);
                }
                return Some(&self.entries[i].1);
            }
            i = i + 1;
        }
        proof {
            lemma_lookup_absent(self.bindings(), name@);
        }
        None
    }

    /// The names bound in the table.
    pub open spec fn names(&self) -> Set<Seq<char>> {
        Set::new(|k: Seq<char>| self.find(k) is Some)
    }

    proof fn lemma_names(&self)
        requires
            self.wf(),
        ensures
            keys(self.bindings()).no_duplicates(),
            keys(self.bindings()).to_set() == self.names(),
            keys(self.bindings()).len() == self.entries@.len(),
    {
        let ks = keys(self.bindings());
        assert forall|i: int, j: int| 0 <= i < ks.len() && 0 <= j < ks.len() && i != j implies ks[i] != ks[j] by {
            if i < j {
                assert(self.entries@[i].0@ != self.entries@[j].0@);
            } else {
                assert(self.entries@[j].0@ != self.entries@[i].0@);
            }
        }
        assert forall|k: Seq<char>| ks.to_set().contains(k) <==> self.names().contains(k) by {
            lemma_lookup_some(self.bindings(), k);
        }
        assert(ks.to_set() =~= self.names());
    }

    /// Returns the number of names bound in the table.
    pub fn len(&self) -> (n: usize)
        requires
            self.wf(),
        ensures
            n == self.names().len(),
    {
        proof {
            self.lemma_names();
            keys(self.bindings()).unique_seq_to_set();
        }
        self.entries.len()
    }

    /// Returns the names bound in the table, each once, with the symbols they are bound to.
    pub fn iter(&self) -> (r: Vec<(String, Symbol)>)
        requires
            self.wf(),
        ensures
            r@.len() == self.names().len(),
            forall|i: int| 0 <= i < r@.len() ==> self.find((#[trigger] r@[i]).0@) == Some(symbol_view(r@[i].1)),
            forall|i: int, j: int| 0 <= i < j < r@.len() ==> (#[trigger] r@[i]).0@ != (#[trigger] r@[j]).0@,
    {
        proof {
            self.lemma_names();
            keys(self.bindings()).unique_seq_to_set();
        }
        let mut r: Vec<(String, Symbol)> = Vec::new();
        let mut i: usize = 0;
        while i < self.entries.len()
            invariant
                i <= self.entries@.len(),
                self.wf(),
                r@.len() == i,
                forall|j: int| 0 <= j < i ==> (#[trigger] r@[j]).0@ == self.entries@[j].0@ && r@[j].1 == self.entries@[j].1,
            decreases self.entries@.len() - i,
        {
            r.push((self.entries[i].0.clone(), copy_symbol(&self.entries[i].1)));
            i = i + 1;
        }
        proof {
            let bs = self.bindings();
            assert forall|i: int| 0 <= i < r@.len() implies self.find((#[trigger] r@[i]).0@) == Some(symbol_view(r@[i].1)) by {
                assert forall|j: int| 0 <= j < bs.len() && j != i implies (#[trigger] bs[j]).0 != bs[i].0 by {
                    if j < i {
                        assert(self.entries@[j].0@ != self.entries@[i].0@);
                    } else {
                        assert(self.entries@[i].0@ != self.entries@[j].0@);
                    }
                }
                lemma_lookup_update(bs, i, bs[i].1, r@[i].0@);
                assert(bs.update(i, (bs[i].0, bs[i].1)) =~= bs);
            }
        }
        r
    }

    /// Returns the names bound in the table, each once.
    pub fn iter_names(&self) -> (r: Vec<String>)
        requires
            self.wf(),
        ensures
            r@.len() == self.names().len(),
            forall|i: int| 0 <= i < r@.len() ==> self.names().contains(#[trigger] r@[i]@),
            forall|i: int, j: int| 0 <= i < j < r@.len() ==> (#[trigger] r@[i])@ != (#[trigger] r@[j])@,
    {
        let all = self.iter();
        let mut r: Vec<String> = Vec::new();
        let mut i: usize = 0;
        while i < all.len()
            invariant
                i <= all@.len(),
                r@.len() == i,
                forall|j: int| 0 <= j < i ==> (#[trigger] r@[j])@ == all@[j].0@,
            decreases all@.len() - i,
        {
            r.push(all[i].0.clone());
            i = i + 1;
        }
        proof {
            assert forall|i: int| 0 <= i < r@.len() implies self.names().contains(#[trigger] r@[i]@) by {
                assert(self.find(all@[i].0@) is Some);
            }
            assert forall|i: int, j: int| 0 <= i < j < r@.len() implies (#[trigger] r@[i])@ != (#[trigger] r@[j])@ by {
                assert(all@[i].0@ != all@[j].0@);
            }
        }
        r
    }

    /// Returns the symbols of the table, one per bound name.
    pub fn iter_symbols(&self) -> (r: Vec<Symbol>)
        requires
            self.wf(),
        ensures
            r@.len() == self.names().len(),
            exists|ks: Seq<Seq<char>>|
                #[trigger] ks.len() == r@.len() && (forall|i: int, j: int|
                    0 <= i < j < ks.len() ==> #[trigger] ks[i] != #[trigger] ks[j]) && forall|i: int|
                    0 <= i < r@.len() ==> self.find(#[trigger] ks[i]) == Some(symbol_view(r@[i])),
    {
        let all = self.iter();
        let mut r: Vec<Symbol> = Vec::new();
        let mut i: usize = 0;
        while i < all.len()
            invariant
                i <= all@.len(),
                r@.len() == i,
                forall|j: int| 0 <= j < i ==> (#[trigger] r@[j]) == all@[j].1,
            decreases all@.len() - i,
        {
            r.push(copy_symbol(&all[i].1));
            i = i + 1;
        }
        proof {
            let ks = Seq::new(all@.len(), |i: int| all@[i].0@);
            assert forall|i: int| 0 <= i < r@.len() implies self.find(#[trigger] ks[i]) == Some(symbol_view(r@[i])) by {
                assert(self.find(all@[i].0@) == Some(symbol_view(all@[i].1)));
                assert(r@[i] == all@[i].1);
            }
            assert forall|i: int, j: int| 0 <= i < j < ks.len() implies #[trigger] ks[i] != #[trigger] ks[j] by {
                assert(all@[i].0@ != all@[j].0@);
            }
            assert(ks.len() == r@.len());
        }
        r
    }

    /// Returns the names declared by each variable declaration recorded, in order.
    pub fn iter_decl_lines(&self) -> (r: &Vec<Vec<String>>)
        ensures
            r@.len() == self.declaration_count(),
            list_views(r@) == self.declaration_lists(),
    {
        &self.declarations
    }

    /// Returns the items included by each use statement recorded, in order.
    pub fn iter_use_statements(&self) -> (r: &Vec<Vec<String>>)
        ensures
            r@.len() == self.use_statement_count(),
            list_views(r@) == self.use_lists(),
    {
        &self.use_statements
    }

    /// Creates the table of a scope: binds the items of its use statements, the variables of
    /// its declarations and of a typed function's result, its internal procedures, and its
    /// type, module and program definitions, in that order, a later binding of a name
    /// replacing an earlier one (see [`scope_bindings`]).
    pub fn new(scope: &Scope) -> (t: Self)
        ensures
            t.wf(),
            forall|k: Seq<char>| #[trigger] t.find(k) == lookup(scope_bindings(*scope), k),
            t.declaration_count() == scope.declarations@.len() + if scope.procedure == Some(ProcedureKind::Function)
                && scope.result_declaration is Some {
                1int
            } else {
                0int
            },
            t.use_statement_count() == scope.use_statements@.len(),
            t.use_lists() == list_views(scope.use_statements@),
            t.declaration_lists() == list_views(scope.declarations@) + match (scope.procedure, scope.result_declaration) {
                (Some(ProcedureKind::Function), Some(r)) => seq![seq![r@]],
                _ => Seq::empty(),
            },
    {
        let mut t = SymbolTable::empty();
        let dummies = dummy_names(scope);
        let ghost d = dummies_of(*scope);
        let ghost uses = scope.use_statements@;
        let ghost decls = scope.declarations@;
        let mut k: usize = 0;
        while k < scope.use_statements.len()
            invariant
                k <= uses.len(),
                uses == scope.use_statements@,
                t.wf(),
                t.use_statement_count() == k,
                t.declaration_count() == 0,
                t.use_lists() == list_views(uses.take(k as int)),
                t.declaration_lists() == Seq::<Seq<Seq<char>>>::empty(),
                forall|key: Seq<char>| #[trigger] t.find(key) == lookup(uses_bindings(uses, k as int), key),
            decreases uses.len() - k,
        {
            t.insert_from_use_statement(scope.use_statements[k].clone());
            proof {
                assert(list_views(uses.take(k + 1)) =~= list_views(uses.take(k as int)).push(string_views(uses[k as int]@)));
                assert forall|key: Seq<char>| #[trigger] t.find(key) == lookup(uses_bindings(uses, k + 1), key) by {
                    lemma_lookup_concat(uses_bindings(uses, k as int), use_bindings(uses[k as int]@, k), key);
                }
            }
            k = k + 1;
        }
        let ghost ub = uses_bindings(uses, uses.len() as int);
        let mut k: usize = 0;
        while k < scope.declarations.len()
            invariant
                k <= decls.len(),
                decls == scope.declarations@,
                d == dummies@.map_values(|s: String| s@),
                t.wf(),
                t.use_statement_count() == uses.len(),
                t.declaration_count() == k,
                t.use_lists() == list_views(uses),
                t.declaration_lists() == list_views(decls.take(k as int)),
                forall|key: Seq<char>| #[trigger] t.find(key) == lookup(ub + decls_bindings(decls, d, k as int), key),
            decreases decls.len() - k,
        {
            t.insert_from_decl_line(scope.declarations[k].clone(), &dummies);
            proof {
                assert(list_views(decls.take(k + 1)) =~= list_views(decls.take(k as int)).push(string_views(decls[k as int]@)));
                let x = declaration_bindings(decls[k as int]@, d, k);
                assert(ub + decls_bindings(decls, d, k + 1) =~= (ub + decls_bindings(decls, d, k as int)) + x);
                assert forall|key: Seq<char>| #[trigger] t.find(key) == lookup(ub + decls_bindings(decls, d, k + 1), key) by {
                    lemma_lookup_concat(ub + decls_bindings(decls, d, k as int), x, key);
                }
            }
            k = k + 1;
        }
        let ghost db = ub + decls_bindings(decls, d, decls.len() as int);
        let ghost rb: Seq<(Seq<char>, (Seq<char>, SymbolKind))> = Seq::empty();
        if let (Some(ProcedureKind::Function), Some(r)) = (scope.procedure, &scope.result_declaration) {
            let mut names: Vec<String> = Vec::new();
            names.push(r.clone());
            let mut result_dummies: Vec<String> = Vec::new();
            result_dummies.push(to_ascii_lowercase(r.as_str()));
            let ghost before = t;
            let ghost named_views = string_views(names@);
            t.insert_from_decl_line(names, &result_dummies);
            proof {
                assert(named_views =~= seq![r@]);
                rb = seq![(lower(r@), (r@, SymbolKind::Variable { declaration: decls.len() as usize, is_dummy: true }))];
                let x = declaration_bindings(names@, result_dummies@.map_values(|s: String| s@), decls.len() as usize);
                assert(result_dummies@.map_values(|s: String| s@)[0] == lower(r@));
                assert(x =~= rb);
                assert forall|key: Seq<char>| #[trigger] t.find(key) == lookup(db + rb, key) by {
                    lemma_lookup_concat(db, rb, key);
                }
            }
        } else {
            assert(db + rb =~= db);
        }
        let mut named: Vec<(String, SymbolKind)> = Vec::new();
        let mut i: usize = 0;
        while i < scope.procedures.len()
            invariant
                i <= scope.procedures@.len(),
                named_bindings(named@) == scope.procedures@.take(i as int).map_values(
                    |p: (String, ProcedureKind)| (p.0@, (p.0@, procedure_symbol(p.1))),
                ),
            decreases scope.procedures@.len() - i,
        {
            let kind = match scope.procedures[i].1 {
                ProcedureKind::Function => SymbolKind::Function,
                ProcedureKind::Subroutine => SymbolKind::Subroutine,
            };
            let ghost pn = named@;
            let name = scope.procedures[i].0.clone();
            named.push((name, kind));
            let ghost p = scope.procedures@[i as int];
            assert(named_bindings(named@) =~= named_bindings(pn).push((p.0@, (p.0@, procedure_symbol(p.1)))));
            assert(scope.procedures@.take(i + 1).map_values(
                |p: (String, ProcedureKind)| (p.0@, (p.0@, procedure_symbol(p.1))),
            ) =~= scope.procedures@.take(i as int).map_values(
                |p: (String, ProcedureKind)| (p.0@, (p.0@, procedure_symbol(p.1))),
            ).push((p.0@, (p.0@, procedure_symbol(p.1)))));
            i = i + 1;
        }
        let ghost pb = named_bindings(named@);
        assert(scope.procedures@.take(i as int) =~= scope.procedures@);
        let ghost before_procs = db + rb;
        t.bind_named(named);
        let mut defs: Vec<(String, SymbolKind)> = Vec::new();
        let mut i: usize = 0;
        while i < scope.definitions.len()
            invariant
                i <= scope.definitions@.len(),
                named_bindings(defs@) == scope.definitions@.take(i as int).map_values(
                    |d: (String, DefinitionKind)| (d.0@, (d.0@, definition_symbol(d.1))),
                ),
            decreases scope.definitions@.len() - i,
        {
            let kind = match scope.definitions[i].1 {
                DefinitionKind::Type => SymbolKind::Type,
                DefinitionKind::Module => SymbolKind::Module,
                DefinitionKind::Program => SymbolKind::Program,
            };
            let ghost pn = defs@;
            let name = scope.definitions[i].0.clone();
            defs.push((name, kind));
            let ghost q = scope.definitions@[i as int];
            assert(named_bindings(defs@) =~= named_bindings(pn).push((q.0@, (q.0@, definition_symbol(q.1)))));
            assert(scope.definitions@.take(i + 1).map_values(
                |d: (String, DefinitionKind)| (d.0@, (d.0@, definition_symbol(d.1))),
            ) =~= scope.definitions@.take(i as int).map_values(
                |d: (String, DefinitionKind)| (d.0@, (d.0@, definition_symbol(d.1))),
            ).push((q.0@, (q.0@, definition_symbol(q.1)))));
            i = i + 1;
        }
        let ghost fb = named_bindings(defs@);
        assert(scope.definitions@.take(i as int) =~= scope.definitions@);
        t.bind_named(defs);
        proof {
            assert(scope_bindings(*scope) =~= before_procs + pb + fb);
            assert forall|key: Seq<char>| #[trigger] t.find(key) == lookup(scope_bindings(*scope), key) by {
                lemma_lookup_concat(before_procs, pb, key);
                lemma_lookup_concat(before_procs + pb, fb, key);
            }
        }
        t
    }
}

/// The symbol bound to `key` in the stack of tables `tables`: in the last table that binds it.
pub open spec fn stack_find(tables: Seq<SymbolTable>, key: Seq<char>) -> Option<(Seq<char>, SymbolKind)>
    decreases tables.len(),
{
    if tables.len() == 0 {
        None
    } else {
        match tables.last().find(key) {
            Some(v) => Some(v),
            None => stack_find(tables.drop_last(), key),
        }
    }
}

/// A stack of symbol tables, one per enclosing scope; names are looked up from the innermost.
#[derive(Debug, Clone)]
pub struct SymbolTables {
    tables: Vec<SymbolTable>,
}

impl SymbolTables {
    /// The tables, outermost first.
    pub closed spec fn view(&self) -> Seq<SymbolTable> {
        self.tables@
    }

    /// Every table binds each name at most once.
    pub open spec fn wf(&self) -> bool {
        forall|i: int| 0 <= i < self@.len() ==> (#[trigger] self@[i]).wf()
    }

    /// Creates an empty stack.
    pub fn new() -> (s: Self)
        ensures
            s@ == Seq::<SymbolTable>::empty(),
    {
        SymbolTables { tables: Vec::new() }
    }

    /// Pushes the table of an inner scope.
    pub fn push_table(&mut self, table: SymbolTable)
        ensures
            final(self)@ == old(self)@.push(table),
    {
        self.tables.push(table);
    }

    /// Removes and returns the innermost table, if any.
    pub fn pop_table(&mut self) -> (r: Option<SymbolTable>)
        ensures
            old(self)@.len() == 0 ==> r is None && final(self)@ == old(self)@,
            old(self)@.len() > 0 ==> r == Some(old(self)@.last()) && final(self)@ == old(self)@.drop_last(),
    {
        self.tables.pop()
    }

    /// Returns the symbol that `name` (in any case of its ASCII letters) names: the binding of
    /// its lowercase form in the innermost table that binds it.
    pub fn get(&self, name: &str) -> (r: Option<&Symbol>)
        requires
            self.wf(),
        ensures
            match r {
                Some(s) => stack_find(self@, lower(name@)) == Some(symbol_view(*s)),
                None => stack_find(self@, lower(name@)) is None,
            },
    {
        let key = to_ascii_lowercase(name);
        let mut i = self.tables.len();
        assert(self@.take(i as int) =~= self@);
        while i > 0
            invariant
                i <= self@.len(),
                self.wf(),
                key@ == lower(name@),
                stack_find(self@, key@) == stack_find(self@.take(i as int), key@),
            decreases i,
        {
            let table = &self.tables[i - 1];
            assert(self@.take(i as int).drop_last() =~= self@.take(i - 1));
            assert(self@.take(i as int).last() == self@[i - 1]);
            match table.get(key.as_str()) {
                Some(s) => {
                    return Some(s);
                },
                None => {},
            }
            i = i - 1;
        }
        None
    }

    /// Returns the variable that `name` (in any case of its ASCII letters) names: the symbol
    /// of [`get`](Self::get) when it is a variable; none when it is not, as it hides the
    /// variables of outer scopes.
    pub fn get_var(&self, name: &str) -> (r: Option<&Symbol>)
        requires
            self.wf(),
        ensures
            match r {
                Some(s) => stack_find(self@, lower(name@)) == Some(symbol_view(*s)) && s.kind is Variable,
                None => !(stack_find(self@, lower(name@)) matches Some(v) && v.1 is Variable),
            },
    {
        match self.get(name) {
            Some(s) => match s.kind {
                SymbolKind::Variable { .. } => Some(s),
                _ => None,
            },
            None => None,
        }
    }
}

/// A name bound by the innermost table of a stack is what the stack binds it to; otherwise the
/// stack binds it as the tables around it do.
pub proof fn lemma_inner_scope_shadows(tables: Seq<SymbolTable>, inner: SymbolTable, key: Seq<char>)
    ensures
        stack_find(tables.push(inner), key) == match inner.find(key) {
            Some(v) => Some(v),
            None => stack_find(tables, key),
        },
{
    assert(tables.push(inner).drop_last() =~= tables);
}

/// Pushing a table and popping it leaves the stack as it was.
pub proof fn lemma_push_pop(tables: Seq<SymbolTable>, inner: SymbolTable)
    ensures
        tables.push(inner).len() > 0,
        tables.push(inner).last() == inner,
        tables.push(inner).drop_last() == tables,
{
    assert(tables.push(inner).drop_last() =~= tables);
}

/// A lookup gives the same result for two names that differ only in the case of their ASCII
/// letters: it lowercases the name it is given. Entries stay keyed as they were inserted, so an
/// internal procedure or a definition whose name has capitals is not found this way.
pub proof fn lemma_lookup_ignores_case(tables: Seq<SymbolTable>, a: Seq<char>, b: Seq<char>)
    requires
        crate::ast::eq_ascii_case(a, b),
    ensures
        stack_find(tables, lower(a)) == stack_find(tables, lower(b)),
{
    assert(lower(a) =~= lower(b));
}

fn copy_symbol(s: &Symbol) -> (r: Symbol)
    ensures
        r == *s,
{
    Symbol { name: s.name.clone(), kind: s.kind }
}

fn contains_str(v: &Vec<String>, s: &str) -> (b: bool)
    ensures
        b == v@.map_values(|x: String| x@).contains(s@),
{
    let mut i: usize = 0;
    while i < v.len()
        invariant
            i <= v@.len(),
            forall|j: int| 0 <= j < i ==> (#[trigger] v@[j])@ != s@,
        decreases v@.len() - i,
    {
        if str_eq(v[i].as_str(), s) {
            assert(v@.map_values(|x: String| x@)[i as int] == s@);
            return true;
        }
        i = i + 1;
    }
    proof {
        let vs = v@.map_values(|x: String| x@);
        assert forall|j: int| 0 <= j < vs.len() implies #[trigger] vs[j] != s@ by {
            assert(v@[j]@ != s@);
        }
    }
    false
}

fn dummy_names(scope: &Scope) -> (d: Vec<String>)
    ensures
        d@.map_values(|s: String| s@) == dummies_of(*scope),
{
    let mut d: Vec<String> = Vec::new();
    if scope.procedure.is_some() {
        let mut i: usize = 0;
        while i < scope.parameters.len()
            invariant
                i <= scope.parameters@.len(),
                scope.procedure is Some,
                d@.map_values(|s: String| s@) == lowered(scope.parameters@).take(i as int),
            decreases scope.parameters@.len() - i,
        {
            let x = to_ascii_lowercase(scope.parameters[i].as_str());
            let ghost pd = d@;
            d.push(x);
            assert(d@.map_values(|s: String| s@) =~= pd.map_values(|s: String| s@).push(x@));
            assert(lowered(scope.parameters@).take(i + 1) =~= lowered(scope.parameters@).take(i as int).push(
                lower(scope.parameters@[i as int]@),
            ));
            i = i + 1;
        }
        assert(lowered(scope.parameters@).take(i as int) =~= lowered(scope.parameters@));
    } else {
        assert(d@.map_values(|s: String| s@) =~= Seq::<Seq<char>>::empty());
    }
    d
}

/// Whether the binding `x` of a scope with `n_decls` declarations and the parameters `params`,
/// if it is a variable of one of the declarations, is a dummy argument exactly when its name
/// equals a parameter but for the case of ASCII letters.
pub open spec fn dummy_matches_parameter(x: (Seq<char>, (Seq<char>, SymbolKind)), n_decls: int, params: Seq<String>) -> bool {
    x.1.1 matches SymbolKind::Variable { declaration, is_dummy } ==> (declaration < n_decls ==> (is_dummy
        <==> exists|p: int| 0 <= p < params.len() && crate::ast::eq_ascii_case(x.1.0, #[trigger] params[p]@)))
}

proof fn lemma_lower_eq(a: Seq<char>, b: Seq<char>)
    ensures
        lower(a) == lower(b) <==> crate::ast::eq_ascii_case(a, b),
{
    if crate::ast::eq_ascii_case(a, b) {
        assert(lower(a) =~= lower(b));
    }
    if lower(a) == lower(b) {
        assert(lower(a).len() == a.len() && lower(b).len() == b.len());
        assert forall|i: int| 0 <= i < a.len() implies ascii_lower(#[trigger] a[i]) == ascii_lower(b[i]) by {
            assert(lower(a)[i] == ascii_lower(a[i]));
            assert(lower(b)[i] == ascii_lower(b[i]));
        }
    }
}

proof fn lemma_lookup_member(es: Seq<(Seq<char>, (Seq<char>, SymbolKind))>, key: Seq<char>)
    ensures
        lookup(es, key) matches Some(v) ==> exists|i: int| 0 <= i < es.len() && #[trigger] es[i] == (key, v),
    decreases es.len(),
{
    if es.len() > 0 {
        lemma_lookup_member(es.drop_last(), key);
        if es.last().0 == key {
            assert(es[es.len() - 1] == (key, es.last().1));
        } else if let Some(v) = lookup(es.drop_last(), key) {
            let i = choose|i: int| 0 <= i < es.drop_last().len() && #[trigger] es.drop_last()[i] == (key, v);
            assert(es[i] == (key, v));
        }
    }
}

proof fn lemma_uses_not_variables(uses: Seq<Vec<String>>, n: int)
    requires
        0 <= n <= uses.len(),
    ensures
        forall|i: int| 0 <= i < uses_bindings(uses, n).len() ==> (#[trigger] uses_bindings(uses, n)[i]).1.1 is UsedItem,
    decreases n,
{
    if n > 0 {
        lemma_uses_not_variables(uses, n - 1);
        let a = uses_bindings(uses, n - 1);
        let b = use_bindings(uses[n - 1]@, (n - 1) as usize);
        assert forall|i: int| 0 <= i < uses_bindings(uses, n).len() implies (#[trigger] uses_bindings(uses, n)[i]).1.1 is UsedItem by {
            if i < a.len() {
                assert((a + b)[i] == a[i]);
            } else {
                assert((a + b)[i] == b[i - a.len()]);
            }
        }
    }
}

proof fn lemma_decls_dummies(decls: Seq<Vec<String>>, dummies: Seq<Seq<char>>, n: int)
    requires
        0 <= n <= decls.len(),
    ensures
        forall|i: int|
            0 <= i < decls_bindings(decls, dummies, n).len() ==> {
                let x = #[trigger] decls_bindings(decls, dummies, n)[i];
                x.1.1 matches SymbolKind::Variable { declaration, is_dummy } && declaration < n && is_dummy
                    == dummies.contains(lower(x.1.0))
            },
    decreases n,
{
    if n > 0 {
        lemma_decls_dummies(decls, dummies, n - 1);
        let a = decls_bindings(decls, dummies, n - 1);
        let b = declaration_bindings(decls[n - 1]@, dummies, (n - 1) as usize);
        assert forall|i: int| 0 <= i < decls_bindings(decls, dummies, n).len() implies {
            let x = #[trigger] decls_bindings(decls, dummies, n)[i];
            x.1.1 matches SymbolKind::Variable { declaration, is_dummy } && declaration < n && is_dummy
                == dummies.contains(lower(x.1.0))
        } by {
            if i < a.len() {
                assert((a + b)[i] == a[i]);
            } else {
                assert((a + b)[i] == b[i - a.len()]);
            }
        }
    }
}

/// In the symbol table of a procedure, a variable of one of its declarations is a dummy
/// argument exactly when its name equals one of the procedure's parameters but for the case of
/// ASCII letters (see [`SymbolTable::new`], whose table finds what [`scope_bindings`] binds).
pub proof fn lemma_dummy_arguments_ignore_case(scope: Scope, key: Seq<char>)
    requires
        scope.procedure is Some,
        scope.declarations@.len() <= usize::MAX,
    ensures
        lookup(scope_bindings(scope), key) matches Some(v) ==> dummy_matches_parameter(
            (key, v),
            scope.declarations@.len() as int,
            scope.parameters@,
        ),
{
    let es = scope_bindings(scope);
    let n_decls = scope.declarations@.len() as int;
    let params = scope.parameters@;
    let dummies = dummies_of(scope);
    let a = uses_bindings(scope.use_statements@, scope.use_statements@.len() as int);
    let b = decls_bindings(scope.declarations@, dummies, n_decls);
    let c: Seq<(Seq<char>, (Seq<char>, SymbolKind))> = match scope.result_declaration {
        Some(r) => if scope.procedure == Some(ProcedureKind::Function) {
            seq![(lower(r@), (r@, SymbolKind::Variable { declaration: n_decls as usize, is_dummy: true }))]
        } else {
            Seq::empty()
        },
        None => Seq::empty(),
    };
    let d = scope.procedures@.map_values(|p: (String, ProcedureKind)| (p.0@, (p.0@, procedure_symbol(p.1))));
    let e = scope.definitions@.map_values(|d: (String, DefinitionKind)| (d.0@, (d.0@, definition_symbol(d.1))));
    assert(es == a + b + c + d + e);
    lemma_uses_not_variables(scope.use_statements@, scope.use_statements@.len() as int);
    lemma_decls_dummies(scope.declarations@, dummies, n_decls);
    lemma_lookup_member(es, key);
    if let Some(v) = lookup(es, key) {
        let i = choose|i: int| 0 <= i < es.len() && #[trigger] es[i] == (key, v);
        if i < a.len() {
            assert(es[i] == a[i]);
        } else if i < a.len() + b.len() {
            assert(es[i] == b[i - a.len()]);
            let x = b[i - a.len()];
            if let SymbolKind::Variable { declaration, is_dummy } = x.1.1 {
                let name = x.1.0;
                if is_dummy {
                    let p = choose|p: int| 0 <= p < dummies.len() && dummies[p] == lower(name);
                    assert(dummies[p] == lower(params[p]@));
                    lemma_lower_eq(name, params[p]@);
                }
                if exists|p: int| 0 <= p < params.len() && crate::ast::eq_ascii_case(name, #[trigger] params[p]@) {
                    let p = choose|p: int| 0 <= p < params.len() && crate::ast::eq_ascii_case(name, #[trigger] params[p]@);
                    lemma_lower_eq(name, params[p]@);
                    assert(dummies[p] == lower(name));
                }
            }
        } else if i < a.len() + b.len() + c.len() {
            assert(es[i] == c[i - a.len() - b.len()]);
            assert(dummy_matches_parameter(es[i], n_decls, params));
        } else if i < a.len() + b.len() + c.len() + d.len() {
            assert(es[i] == d[i - a.len() - b.len() - c.len()]);
        } else {
            assert(es[i] == e[i - a.len() - b.len() - c.len() - d.len()]);
        }
    }
}

} // verus!
