//! Facts about Fortran syntax read from node text and kinds: plain number types, intents,
//! procedure kinds and attributes.
use vstd::prelude::*;
use crate::text::{chars_of, string_of};

verus! {

/// `c` in lowercase, for ASCII letters; any other character unchanged.
pub open spec fn ascii_lower(c: char) -> char {
    if 'A' <= c <= 'Z' {
        ((c as u32) + 32) as char
    } else {
        c
    }
}

/// Whether `a` and `b` are equal but for the case of ASCII letters.
pub open spec fn eq_ascii_case(a: Seq<char>, b: Seq<char>) -> bool {
    a.len() == b.len() && forall|i: int| 0 <= i < a.len() ==> ascii_lower(#[trigger] a[i]) == ascii_lower(b[i])
}

pub(crate) fn lower_char(c: char) -> (r: char)
    ensures
        r == ascii_lower(c),
{
    if 'A' <= c && c <= 'Z' {
        let u = (c as u32) + 32;
        assert(u <= 0x7f);
        char_from_ascii(u)
    } else {
        c
    }
}

fn char_from_ascii(u: u32) -> (c: char)
    requires
        u <= 0x7f,
    ensures
        c as u32 == u,
{
    let b = u as u8;
    b as char
}

/// Returns whether `a` and `b` are equal but for the case of ASCII letters.
pub fn eq_ignore_ascii_case(a: &str, b: &str) -> (r: bool)
    ensures
        r == eq_ascii_case(a@, b@),
{
    let x = chars_of(a);
    let y = chars_of(b);
    if x.len() != y.len() {
        return false;
    }
    let mut i: usize = 0;
    while i < x.len()
        invariant
            i <= x@.len() == y@.len(),
            x@ == a@,
            y@ == b@,
            forall|j: int| 0 <= j < i ==> ascii_lower(#[trigger] x@[j]) == ascii_lower(y@[j]),
        decreases x@.len() - i,
    {
        if lower_char(x[i]) != lower_char(y[i]) {
            return false;
        }
        i = i + 1;
    }
    true
}

/// Whether `dtype` names a number type whose kind can be given: `integer`, `real`, `logical` or
/// `complex`, in any case (no character but an ASCII letter lowercases to one of their letters,
/// so this is their lowercase comparison).
pub open spec fn is_plain_number(dtype: Seq<char>) -> bool {
    eq_ascii_case(dtype, "integer"@) || eq_ascii_case(dtype, "real"@) || eq_ascii_case(
        dtype,
        "logical"@,
    ) || eq_ascii_case(dtype, "complex"@)
}

/// Returns whether `dtype` names a number type whose kind can be given (`double precision`
/// and `double complex` cannot).
pub fn dtype_is_plain_number(dtype: &str) -> (b: bool)
    ensures
        b == is_plain_number(dtype@),
{
    eq_ignore_ascii_case(dtype, "integer") || eq_ignore_ascii_case(dtype, "real")
        || eq_ignore_ascii_case(dtype, "logical") || eq_ignore_ascii_case(dtype, "complex")
}

/// `s` without `&` and carriage returns, and with line feeds made spaces.
pub open spec fn without_line_breaks(s: Seq<char>) -> Seq<char>
    decreases s.len(),
{
    if s.len() == 0 {
        Seq::empty()
    } else {
        let c = s.last();
        let rest = without_line_breaks(s.drop_last());
        if c == '&' || c == '\r' {
            rest
        } else if c == '\n' {
            rest.push(' ')
        } else {
            rest.push(c)
        }
    }
}

/// Returns `src` joined onto one line: continuation ampersands and carriage returns removed,
/// line feeds replaced by spaces.
pub fn strip_line_breaks(src: &str) -> (s: String)
    ensures
        s@ == without_line_breaks(src@),
{
    let v = chars_of(src);
    let mut out: Vec<char> = Vec::new();
    let mut i: usize = 0;
    while i < v.len()
        invariant
            i <= v@.len(),
            v@ == src@,
            out@ == without_line_breaks(v@.take(i as int)),
        decreases v@.len() - i,
    {
        let c = v[i];
        if c == '&' || c == '\r' {
        } else if c == '\n' {
            out.push(' ');
        } else {
            out.push(c);
        }
        assert(v@.take(i + 1).drop_last() =~= v@.take(i as int));
        i = i + 1;
    }
    assert(v@.take(i as int) =~= v@);
    string_of(out.as_slice())
}

proof fn lemma_push_contains(s: Seq<Seq<char>>, x: Seq<char>, y: Seq<char>)
    ensures
        s.push(x).contains(y) == (s.contains(y) || x == y),
{
    if s.contains(y) {
        let i = choose|i: int| 0 <= i < s.len() && s[i] == y;
        assert(s.push(x)[i] == y);
    }
    if x == y {
        assert(s.push(x)[s.len() as int] == y);
    }
    if s.push(x).contains(y) {
        let i = choose|i: int| 0 <= i < s.push(x).len() && s.push(x)[i] == y;
        if i < s.len() {
            assert(s[i] == y);
        }
    }
}

/// The intent of a dummy argument.
#[derive(Debug, Clone, Copy, PartialEq, Eq, Structural)]
pub enum Intent {
    In,
    Out,
    InOut,
}

impl Intent {
    /// The intent given by an intent node whose children have the kinds `kinds`: in-out when it
    /// says `inout` or both `in` and `out`, in when it says `in`, and out otherwise.
    pub open spec fn of_kinds(kinds: Seq<Seq<char>>) -> Intent {
        if kinds.contains("inout"@) || (kinds.contains("in"@) && kinds.contains("out"@)) {
            Intent::InOut
        } else if kinds.contains("in"@) {
            Intent::In
        } else {
            Intent::Out
        }
    }

    /// Returns the intent given by an intent node whose children have the kinds `kinds`.
    pub fn from_child_kinds(kinds: &Vec<String>) -> (i: Intent)
        ensures
            i == Intent::of_kinds(kinds@.map_values(|k: String| k@)),
    {
        let ghost ks = kinds@.map_values(|k: String| k@);
        let mut has_inout = false;
        let mut has_in = false;
        let mut has_out = false;
        let mut j: usize = 0;
        while j < kinds.len()
            invariant
                j <= kinds@.len(),
                ks == kinds@.map_values(|k: String| k@),
                has_inout == ks.take(j as int).contains("inout"@),
                has_in == ks.take(j as int).contains("in"@),
                has_out == ks.take(j as int).contains("out"@),
            decreases kinds@.len() - j,
        {
            let k = kinds[j].as_str();
            assert(ks.take(j + 1) =~= ks.take(j as int).push(ks[j as int]));
            proof {
                lemma_push_contains(ks.take(j as int), ks[j as int], "inout"@);
                lemma_push_contains(ks.take(j as int), ks[j as int], "in"@);
                lemma_push_contains(ks.take(j as int), ks[j as int], "out"@);
            }
            if crate::text::str_eq(k, "inout") {
                has_inout = true;
            }
            if crate::text::str_eq(k, "in") {
                has_in = true;
            }
            if crate::text::str_eq(k, "out") {
                has_out = true;
            }
            j = j + 1;
        }
        assert(ks.take(j as int) =~= ks);
        if has_inout || (has_in && has_out) {
            Intent::InOut
        } else if has_in {
            Intent::In
        } else {
            Intent::Out
        }
    }
}

/// An attribute that a procedure's statement may have.
#[derive(Debug, Clone, Copy, PartialEq, Eq, Structural)]
pub enum ProcedureAttributeKind {
    Elemental,
    Impure,
    Module,
    NonRecursive,
    Pure,
    Recursive,
    Simple,
}

impl ProcedureAttributeKind {
    /// The attribute written `s`, in any case.
    pub open spec fn parsed(s: Seq<char>) -> Option<ProcedureAttributeKind> {
        if eq_ascii_case(s, "elemental"@) {
            Some(ProcedureAttributeKind::Elemental)
        } else if eq_ascii_case(s, "impure"@) {
            Some(ProcedureAttributeKind::Impure)
        } else if eq_ascii_case(s, "module"@) {
            Some(ProcedureAttributeKind::Module)
        } else if eq_ascii_case(s, "non_recursive"@) {
            Some(ProcedureAttributeKind::NonRecursive)
        } else if eq_ascii_case(s, "pure"@) {
            Some(ProcedureAttributeKind::Pure)
        } else if eq_ascii_case(s, "recursive"@) {
            Some(ProcedureAttributeKind::Recursive)
        } else if eq_ascii_case(s, "simple"@) {
            Some(ProcedureAttributeKind::Simple)
        } else {
            None
        }
    }

    /// Returns the attribute written `s` (its name in snake case, in any case), if any.
    pub fn from_str(s: &str) -> (r: Option<ProcedureAttributeKind>)
        ensures
            r == ProcedureAttributeKind::parsed(s@),
    {
        if eq_ignore_ascii_case(s, "elemental") {
            Some(ProcedureAttributeKind::Elemental)
        } else if eq_ignore_ascii_case(s, "impure") {
            Some(ProcedureAttributeKind::Impure)
        } else if eq_ignore_ascii_case(s, "module") {
            Some(ProcedureAttributeKind::Module)
        } else if eq_ignore_ascii_case(s, "non_recursive") {
            Some(ProcedureAttributeKind::NonRecursive)
        } else if eq_ignore_ascii_case(s, "pure") {
            Some(ProcedureAttributeKind::Pure)
        } else if eq_ignore_ascii_case(s, "recursive") {
            Some(ProcedureAttributeKind::Recursive)
        } else if eq_ignore_ascii_case(s, "simple") {
            Some(ProcedureAttributeKind::Simple)
        } else {
            None
        }
    }
}

/// Whether a procedure is a function or a subroutine.
#[derive(Debug, Clone, Copy, PartialEq, Eq, Structural)]
pub enum ProcedureKind {
    Function,
    Subroutine,
}

impl ProcedureKind {
    /// Returns the kind written `s` (`function` or `subroutine`, in any case), if any.
    pub fn from_str(s: &str) -> (r: Option<ProcedureKind>)
        ensures
            r == if eq_ascii_case(s@, "function"@) {
                Some(ProcedureKind::Function)
            } else if eq_ascii_case(s@, "subroutine"@) {
                Some(ProcedureKind::Subroutine)
            } else {
                None
            },
    {
        if eq_ignore_ascii_case(s, "function") {
            Some(ProcedureKind::Function)
        } else if eq_ignore_ascii_case(s, "subroutine") {
            Some(ProcedureKind::Subroutine)
        } else {
            None
        }
    }
}

} // verus!
