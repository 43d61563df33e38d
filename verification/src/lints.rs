//! The checks of the syntax-tree rules: declarations without `::`, and magic numbers in array
//! sizes and I/O units.
use vstd::prelude::*;
use crate::ast::eq_ascii_case;
use crate::diagnostics::{Applicability, Edit, Fix};
use crate::range::TextRange;
use crate::text::{chars_of, str_eq, string_of};
use crate::write::{decimal, push_decimal, push_str};

verus! {

/// The message of a declaration without `::`.
pub open spec fn missing_double_colon_message() -> Seq<char> {
    "variable declaration missing '::'"@
}

/// Returns the message of a declaration without `::`.
pub fn missing_double_colon_text() -> (s: &'static str)
    ensures
        s@ == missing_double_colon_message(),
{
    "variable declaration missing '::'"
}

/// Returns the title of the fix of a declaration without `::`.
pub fn missing_double_colon_fix_title() -> (s: &'static str)
    ensures
        s@ == "Add '::'"@,
{
    "Add '::'"
}

/// Whether none of the texts `children` is `::`.
pub open spec fn lacks_double_colon(children: Seq<String>) -> bool {
    forall|i: int| 0 <= i < children.len() ==> (#[trigger] children[i])@ != "::"@
}

/// Returns the fix of a variable declaration whose children have the texts `children` and
/// whose first declarator starts at `first_declarator` (if it has one): when no child is `::`,
/// the safe insertion of `:: ` before the first declarator; nothing otherwise.
pub fn missing_double_colon(children: &Vec<String>, first_declarator: Option<u32>) -> (r: Option<Fix>)
    ensures
        match r {
            Some(f) => {
                &&& lacks_double_colon(children@)
                &&& first_declarator matches Some(start)
                &&& f.applicability == Applicability::Safe
                &&& f.edits@.len() == 1
                &&& f.edits@[0].content is Some
                &&& f.edits@[0].content.unwrap()@ == ":: "@
                &&& f.edits@[0].range == (TextRange { start, end: start })
            },
            None => !lacks_double_colon(children@) || first_declarator is None,
        },
{
    let mut i: usize = 0;
    while i < children.len()
        invariant
            i <= children@.len(),
            forall|j: int| 0 <= j < i ==> (#[trigger] children@[j])@ != "::"@,
        decreases children@.len() - i,
    {
        if str_eq(children[i].as_str(), "::") {
            return None;
        }
        i = i + 1;
    }
    match first_declarator {
        Some(start) => {
            let content = crate::text::string_of(chars_of(":: ").as_slice());
            Some(Fix::safe_edit(Edit::insertion(content, start)))
        },
        None => None,
    }
}

/// Whether `c` is a decimal digit.
pub open spec fn is_digit(c: char) -> bool {
    '0' <= c <= '9'
}

/// The value of the decimal digits `s`.
pub open spec fn digits_value(s: Seq<char>) -> nat
    decreases s.len(),
{
    if s.len() == 0 {
        0
    } else {
        digits_value(s.drop_last()) * 10 + ((s.last() as u32) - ('0' as u32)) as nat
    }
}

/// The integer that `s` reads as (as `str::parse::<i32>`): an optional sign, then one or more
/// decimal digits, whose value fits in an `i32`.
pub open spec fn parsed_i32(s: Seq<char>) -> Option<i32> {
    let ds = unsigned_part(s);
    let v: int = if s.len() > 0 && s[0] == '-' {
        -(digits_value(ds) as int)
    } else {
        digits_value(ds) as int
    };
    if ds.len() > 0 && all_digits(ds) && i32::MIN <= v <= i32::MAX {
        Some(v as i32)
    } else {
        None
    }
}

/// `s` without a leading sign.
pub open spec fn unsigned_part(s: Seq<char>) -> Seq<char> {
    if s.len() > 0 && (s[0] == '-' || s[0] == '+') {
        s.drop_first()
    } else {
        s
    }
}

/// Whether every character of `ds` is a decimal digit.
pub open spec fn all_digits(ds: Seq<char>) -> bool {
    forall|i: int| 0 <= i < ds.len() ==> is_digit(#[trigger] ds[i])
}

proof fn lemma_digits_value_grows(s: Seq<char>, i: int)
    requires
        0 <= i <= s.len(),
        forall|k: int| 0 <= k < s.len() ==> is_digit(#[trigger] s[k]),
    ensures
        digits_value(s.take(i)) <= digits_value(s),
    decreases s.len() - i,
{
    if i < s.len() {
        lemma_digits_value_grows(s, i + 1);
        assert(s.take(i + 1).drop_last() =~= s.take(i));
    } else {
        assert(s.take(i) =~= s);
    }
}

/// Returns the integer that `s` reads as (see [`parsed_i32`]), if any.
pub fn parse_i32(s: &str) -> (r: Option<i32>)
    ensures
        r == parsed_i32(s@),
{
    let cs = chars_of(s);
    let neg = cs.len() > 0 && cs[0] == '-';
    let start: usize = if cs.len() > 0 && (cs[0] == '-' || cs[0] == '+') {
        1
    } else {
        0
    };
    let ghost ds = unsigned_part(s@);
    assert(ds =~= cs@.skip(start as int));
    if start >= cs.len() {
        return None;
    }
    let limit: u64 = if neg {
        2147483648
    } else {
        2147483647
    };
    let mut acc: u64 = 0;
    let mut i: usize = start;
    while i < cs.len()
        invariant
            start <= i <= cs@.len(),
            cs@ == s@,
            ds == cs@.skip(start as int),
            ds == unsigned_part(s@),
            neg == (s@.len() > 0 && s@[0] == '-'),
            limit == if neg {
                2147483648u64
            } else {
                2147483647u64
            },
            acc == digits_value(ds.take(i - start)),
            acc <= limit,
            limit <= 2147483648,
            forall|k: int| 0 <= k < i - start ==> is_digit(#[trigger] ds[k]),
        decreases cs@.len() - i,
    {
        let c = cs[i];
        if !('0' <= c && c <= '9') {
            proof {
                assert(ds[i - start] == c);
                assert(!is_digit(ds[i - start]));
                assert(!all_digits(ds));
            }
            return None;
        }
        let d = (c as u32 - '0' as u32) as u64;
        assert(ds.take(i + 1 - start).drop_last() =~= ds.take(i - start));
        assert(ds.take(i + 1 - start).last() == c);
        let next = acc * 10 + d;
        if next > limit {
            proof {
                assert forall|k: int| 0 <= k < i + 1 - start implies is_digit(#[trigger] ds.take(i + 1 - start)[k]) by {
                    if k < i - start {
                        assert(ds.take(i + 1 - start)[k] == ds[k]);
                    }
                }
                assert(digits_value(ds.take(i + 1 - start)) == next);
                if all_digits(ds) {
                    lemma_digits_value_grows(ds, i + 1 - start);
                    assert(digits_value(ds) > limit);
                }
            }
            return None;
        }
        acc = next;
        i = i + 1;
    }
    assert(ds.take(i - start) =~= ds);
    if neg {
        Some((0 - acc as i64) as i32)
    } else {
        Some(acc as i32)
    }
}

/// An entry of an array's size: a number, an extent `X:Y` with its number bounds, or something
/// else. A number comes with its text and range.
#[derive(Debug, Clone)]
pub enum SizeEntry {
    Number(String, TextRange),
    Extent(Vec<(String, TextRange)>),
    Other,
}

/// The number literals of the size entries `entries`, in order.
pub open spec fn size_literals(entries: Seq<SizeEntry>) -> Seq<(String, TextRange)>
    decreases entries.len(),
{
    if entries.len() == 0 {
        Seq::empty()
    } else {
        size_literals(entries.drop_last()) + match entries.last() {
            SizeEntry::Number(t, r) => seq![(t, r)],
            SizeEntry::Extent(bounds) => bounds@,
            SizeEntry::Other => Seq::empty(),
        }
    }
}

/// Whether `v` is a size that needs no name: 0 to 4.
pub open spec fn allowed_literal(v: int) -> bool {
    0 <= v <= 4
}

/// The magic numbers among the literals `lits`, with their ranges, in order.
pub open spec fn magic_numbers(lits: Seq<(String, TextRange)>) -> Seq<(i32, TextRange)>
    decreases lits.len(),
{
    if lits.len() == 0 {
        Seq::empty()
    } else {
        let v = parsed_i32(lits.last().0@).unwrap();
        magic_numbers(lits.drop_last()) + if allowed_literal(v as int) {
            Seq::empty()
        } else {
            seq![(v, lits.last().1)]
        }
    }
}

/// A literal as its value and range.
pub open spec fn literal_value() -> spec_fn((String, TextRange)) -> (i32, TextRange) {
    |l: (String, TextRange)| (parsed_i32(l.0@).unwrap(), l.1)
}

/// Whether a value lies outside 0 to 4.
pub open spec fn outside_zero_to_four() -> spec_fn((i32, TextRange)) -> bool {
    |p: (i32, TextRange)| p.0 < 0 || p.0 > 4
}

/// The magic numbers of an array size are its literals whose values lie outside 0 to 4, each
/// with its range, in the order of the literals: none is dropped and none is added.
pub proof fn lemma_magic_numbers_outside_zero_to_four(lits: Seq<(String, TextRange)>)
    ensures
        magic_numbers(lits) == lits.map_values(literal_value()).filter(outside_zero_to_four()),
    decreases lits.len(),
{
    reveal(Seq::filter);
    if lits.len() > 0 {
        lemma_magic_numbers_outside_zero_to_four(lits.drop_last());
        let vs = lits.map_values(literal_value());
        assert(vs.drop_last() =~= lits.drop_last().map_values(literal_value()));
        assert(vs.last() == literal_value()(lits.last()));
    } else {
        assert(lits.map_values(literal_value()) =~= Seq::<(i32, TextRange)>::empty());
    }
}

/// Whether a type qualifier whose first child has the text `name` gives a dimension (the
/// keyword in any case).
pub fn is_dimension_qualifier(name: &str) -> (b: bool)
    ensures
        b == eq_ascii_case(name@, "dimension"@),
{
    crate::ast::eq_ignore_ascii_case(name, "dimension")
}

/// Returns the magic numbers of an array size with the entries `entries`: the values of its
/// number literals, directly or as bounds of an extent, other than 0 to 4, with their ranges,
/// in order. Every literal reads as an `i32`.
pub fn magic_numbers_in_size(entries: &Vec<SizeEntry>) -> (r: Vec<(i32, TextRange)>)
    requires
        forall|i: int| 0 <= i < size_literals(entries@).len() ==> parsed_i32(#[trigger] size_literals(entries@)[i].0@) is Some,
    ensures
        r@ == magic_numbers(size_literals(entries@)),
{
    let ghost lits = size_literals(entries@);
    let mut r: Vec<(i32, TextRange)> = Vec::new();
    let mut i: usize = 0;
    while i < entries.len()
        invariant
            i <= entries@.len(),
            lits == size_literals(entries@),
            forall|k: int| 0 <= k < lits.len() ==> parsed_i32(#[trigger] lits[k].0@) is Some,
            r@ == magic_numbers(size_literals(entries@.take(i as int))),
        decreases entries@.len() - i,
    {
        let ghost prefix = size_literals(entries@.take(i as int));
        assert(entries@.take(i + 1).drop_last() =~= entries@.take(i as int));
        let ghost added = size_literals(entries@.take(i + 1));
        assert(added == prefix + match entries@[i as int] {
            SizeEntry::Number(t, rg) => seq![(t, rg)],
            SizeEntry::Extent(bounds) => bounds@,
            SizeEntry::Other => Seq::empty(),
        });
        proof {
            lemma_size_literals_prefix(entries@, i + 1);
        }
        let bounds: Vec<(String, TextRange)> = match &entries[i] {
            SizeEntry::Number(t, rg) => {
                let mut v = Vec::new();
                v.push((t.clone(), *rg));
                v
            },
            SizeEntry::Extent(bs) => copy_literals(bs),
            SizeEntry::Other => Vec::new(),
        };
        assert(added == prefix + bounds@);
        let mut k: usize = 0;
        while k < bounds.len()
            invariant
                k <= bounds@.len(),
                added == prefix + bounds@,
                forall|m: int| 0 <= m < added.len() ==> parsed_i32(#[trigger] added[m].0@) is Some,
                r@ == magic_numbers(prefix + bounds@.take(k as int)),
            decreases bounds@.len() - k,
        {
            assert(added[prefix.len() + k] == bounds@[k as int]);
            let v = parse_i32(bounds[k].0.as_str()).unwrap();
            assert((prefix + bounds@.take(k + 1)).drop_last() =~= prefix + bounds@.take(k as int));
            assert((prefix + bounds@.take(k + 1)).last() == bounds@[k as int]);
            if !(0 <= v && v <= 4) {
                r.push((v, bounds[k].1));
            }
            k = k + 1;
        }
        assert(bounds@.take(k as int) =~= bounds@);
        i = i + 1;
    }
    assert(entries@.take(i as int) =~= entries@);
    r
}

proof fn lemma_size_literals_prefix(entries: Seq<SizeEntry>, n: int)
    requires
        0 <= n <= entries.len(),
    ensures
        forall|k: int|
            0 <= k < size_literals(entries.take(n)).len() ==> #[trigger] size_literals(entries.take(n))[k]
                == size_literals(entries)[k],
        size_literals(entries.take(n)).len() <= size_literals(entries).len(),
    decreases entries.len() - n,
{
    if n < entries.len() {
        lemma_size_literals_prefix(entries, n + 1);
        assert(entries.take(n + 1).drop_last() =~= entries.take(n));
        let a = size_literals(entries.take(n));
        let b = size_literals(entries.take(n + 1));
        assert(b == a + match entries.take(n + 1).last() {
            SizeEntry::Number(t, r) => seq![(t, r)],
            SizeEntry::Extent(bounds) => bounds@,
            SizeEntry::Other => Seq::empty(),
        });
        assert forall|k: int| 0 <= k < a.len() implies #[trigger] a[k] == size_literals(entries)[k] by {
            assert(a[k] == b[k]);
        }
    } else {
        assert(entries.take(n) =~= entries);
    }
}

fn copy_literals(v: &Vec<(String, TextRange)>) -> (r: Vec<(String, TextRange)>)
    ensures
        r@ == v@,
{
    let mut r: Vec<(String, TextRange)> = Vec::new();
    let mut i: usize = 0;
    while i < v.len()
        invariant
            i <= v@.len(),
            r@ == v@.take(i as int),
        decreases v@.len() - i,
    {
        r.push((v[i].0.clone(), v[i].1));
        assert(r@ =~= v@.take(i + 1));
        i = i + 1;
    }
    assert(v@.take(i as int) =~= v@);
    r
}

/// The decimal text of `v`, with a `-` when it is negative.
pub open spec fn int_text(v: int) -> Seq<char> {
    if v < 0 {
        "-"@ + decimal((-v) as nat)
    } else {
        decimal(v as nat)
    }
}

fn push_int(out: &mut Vec<char>, v: i32)
    ensures
        final(out)@ == old(out)@ + int_text(v as int),
{
    if v < 0 {
        push_str(out, "-");
        let m = (0 - (v as i64)) as usize;
        let ghost mid = out@;
        push_decimal(out, m);
    } else {
        push_decimal(out, v as usize);
    }
}

/// The message for the magic number `value` in an array size.
pub open spec fn magic_number_message(value: i32) -> Seq<char> {
    "Magic number in array size, consider replacing "@ + int_text(value as int) + " with named `parameter`"@
}

/// Returns the message for the magic number `value` in an array size.
pub fn magic_number_text(value: i32) -> (s: String)
    ensures
        s@ == magic_number_message(value),
{
    let mut out: Vec<char> = Vec::new();
    push_str(&mut out, "Magic number in array size, consider replacing ");
    push_int(&mut out, value);
    push_str(&mut out, " with named `parameter`");
    string_of(out.as_slice())
}

/// The message for the magic unit `value` in an I/O statement.
pub open spec fn magic_io_unit_message(value: i32) -> Seq<char> {
    "Magic unit '"@ + int_text(value as int) + "' in IO statement"@
}

/// Returns the message for the magic unit `value` in an I/O statement.
pub fn magic_io_unit_text(value: i32) -> (s: String)
    ensures
        s@ == magic_io_unit_message(value),
{
    let mut out: Vec<char> = Vec::new();
    push_str(&mut out, "Magic unit '");
    push_int(&mut out, value);
    push_str(&mut out, "' in IO statement");
    string_of(out.as_slice())
}

/// Returns the title of the fix of a magic unit.
pub fn magic_io_unit_fix_title() -> (s: &'static str)
    ensures
        s@ == "Replace with named variable"@,
{
    "Replace with named variable"
}

/// Returns the unit that the literal `text` of an I/O statement names: the integer it reads
/// as, or zero when it reads as none.
pub fn io_unit_value(text: &str) -> (v: i32)
    ensures
        v == match parsed_i32(text@) {
            Some(x) => x,
            None => 0,
        },
{
    match parse_i32(text) {
        Some(x) => x,
        None => 0,
    }
}

} // verus!
