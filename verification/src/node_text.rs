//! Showing the text of a syntax node on one line: invisible characters and quote delimiters
//! escaped.
use vstd::prelude::*;
use crate::text::{chars_of, string_of};
use crate::write::push_str;

verus! {

/// The escape of an invisible character `c` (or of a backslash), if it has one.
pub open spec fn invisible_escape(c: char) -> Option<Seq<char>> {
    if c == '\n' {
        Some("\\n"@)
    } else if c == '\r' {
        Some("\\r"@)
    } else if c == '\t' {
        Some("\\t"@)
    } else if c == '\0' {
        Some("\\0"@)
    } else if c == '\\' {
        Some("\\\\"@)
    } else if c == '\x0b' {
        Some("\\v"@)
    } else if c == '\x0c' {
        Some("\\f"@)
    } else {
        None
    }
}

/// The escape of a quote delimiter `c`, if it is one.
pub open spec fn delimiter_escape(c: char) -> Option<Seq<char>> {
    if c == '`' {
        Some("\\`"@)
    } else if c == '"' {
        Some("\\\""@)
    } else {
        None
    }
}

/// How `c` is shown: escaped when it is invisible or a delimiter, as itself otherwise.
pub open spec fn shown_char(c: char) -> Seq<char> {
    match invisible_escape(c) {
        Some(e) => e,
        None => match delimiter_escape(c) {
            Some(e) => e,
            None => seq![c],
        },
    }
}

/// How `s` is shown, character by character.
pub open spec fn shown_text(s: Seq<char>) -> Seq<char>
    decreases s.len(),
{
    if s.len() == 0 {
        Seq::empty()
    } else {
        shown_text(s.drop_last()) + shown_char(s.last())
    }
}

/// Returns the escape of the invisible character `c` (or of a backslash), if it has one.
pub fn escape_invisible(c: char) -> (r: Option<&'static str>)
    ensures
        match r {
            Some(e) => invisible_escape(c) == Some(e@),
            None => invisible_escape(c) is None,
        },
{
    proof {
        reveal_strlit("\\n");
        reveal_strlit("\\r");
        reveal_strlit("\\t");
        reveal_strlit("\\0");
        reveal_strlit("\\\\");
        reveal_strlit("\\v");
        reveal_strlit("\\f");
    }
    if c == '\n' {
        Some("\\n")
    } else if c == '\r' {
        Some("\\r")
    } else if c == '\t' {
        Some("\\t")
    } else if c == '\0' {
        Some("\\0")
    } else if c == '\\' {
        Some("\\\\")
    } else if c == '\x0b' {
        Some("\\v")
    } else if c == '\x0c' {
        Some("\\f")
    } else {
        None
    }
}

/// Returns the escape of the quote delimiter `c`, if it is one.
pub fn escape_delimiter(c: char) -> (r: Option<&'static str>)
    ensures
        match r {
            Some(e) => delimiter_escape(c) == Some(e@),
            None => delimiter_escape(c) is None,
        },
{
    proof {
        reveal_strlit("\\`");
        reveal_strlit("\\\"");
    }
    if c == '`' {
        Some("\\`")
    } else if c == '"' {
        Some("\\\"")
    } else {
        None
    }
}

/// Returns `source` with its invisible characters and quote delimiters escaped (see
/// [`shown_text`]).
pub fn render_node_text(source: &str) -> (s: String)
    ensures
        s@ == shown_text(source@),
{
    let cs = chars_of(source);
    let mut out: Vec<char> = Vec::new();
    let mut i: usize = 0;
    assert(cs@.take(0) =~= Seq::<char>::empty());
    while i < cs.len()
        invariant
            i <= cs@.len(),
            cs@ == source@,
            out@ == shown_text(cs@.take(i as int)),
        decreases cs@.len() - i,
    {
        let c = cs[i];
        match escape_invisible(c) {
            Some(e) => push_str(&mut out, e),
            None => match escape_delimiter(c) {
                Some(e) => push_str(&mut out, e),
                None => out.push(c),
            },
        }
        assert(cs@.take(i + 1).drop_last() =~= cs@.take(i as int));
        assert(out@ =~= shown_text(cs@.take(i + 1)));
        i = i + 1;
    }
    assert(cs@.take(i as int) =~= cs@);
    string_of(out.as_slice())
}

/// The codes `cs` without those equal to the one before them.
pub open spec fn without_repeats(cs: Seq<Seq<char>>) -> Seq<Seq<char>>
    decreases cs.len(),
{
    if cs.len() == 0 {
        Seq::empty()
    } else if cs.len() > 1 && cs.last() == cs[cs.len() - 2] {
        without_repeats(cs.drop_last())
    } else {
        without_repeats(cs.drop_last()).push(cs.last())
    }
}

/// The codes `cs` joined by `, `.
pub open spec fn joined(cs: Seq<Seq<char>>) -> Seq<char>
    decreases cs.len(),
{
    if cs.len() == 0 {
        Seq::empty()
    } else if cs.len() == 1 {
        cs[0]
    } else {
        joined(cs.drop_last()) + ", "@ + cs.last()
    }
}

/// The codes `keys` in the order `order`.
pub open spec fn in_order(keys: Seq<Seq<char>>, order: Seq<usize>) -> Seq<Seq<char>> {
    Seq::new(order.len(), |i: int| keys[order[i] as int])
}

/// Returns the codes `codes` sorted, each once, joined by `, `.
pub fn collect_rule_codes(codes: &Vec<String>) -> (s: String)
    ensures
        exists|order: Seq<usize>|
            #[trigger] crate::order::sorted_by_keys(order, crate::symbols::string_views(codes@)) && s@ == joined(
                without_repeats(in_order(crate::symbols::string_views(codes@), order)),
            ),
{
    let ghost keys_view = crate::symbols::string_views(codes@);
    let mut keys: Vec<Vec<char>> = Vec::new();
    let mut i: usize = 0;
    while i < codes.len()
        invariant
            i <= codes@.len(),
            keys_view == crate::symbols::string_views(codes@),
            keys@.len() == i,
            keys@.map_values(|k: Vec<char>| k@) =~= keys_view.take(i as int),
        decreases codes@.len() - i,
    {
        let key = chars_of(codes[i].as_str());
        assert(key@ == keys_view[i as int]);
        keys.push(key);
        assert(keys@.map_values(|k: Vec<char>| k@) =~= keys_view.take(i + 1));
        i = i + 1;
    }
    assert(keys_view.take(i as int) =~= keys_view);
    let order = crate::order::stable_order_by_key(&keys);
    let ghost sorted = in_order(keys_view, order@);
    let mut out: Vec<char> = Vec::new();
    let mut kept: usize = 0;
    let mut k: usize = 0;
    assert(sorted.take(0) =~= Seq::<Seq<char>>::empty());
    while k < order.len()
        invariant
            k <= order@.len(),
            order@.len() == keys@.len(),
            crate::order::is_permutation(order@, keys@.len()),
            keys@.map_values(|x: Vec<char>| x@) == keys_view,
            sorted == in_order(keys_view, order@),
            kept == without_repeats(sorted.take(k as int)).len(),
            kept <= k,
            out@ == joined(without_repeats(sorted.take(k as int))),
        decreases order@.len() - k,
    {
        let cur = &keys[order[k]];
        assert(cur@ == sorted[k as int]);
        let repeat = k > 0 && crate::text::str_eq(
            string_of(cur.as_slice()).as_str(),
            string_of(keys[order[k - 1]].as_slice()).as_str(),
        );
        proof {
            assert(sorted.take(k + 1).drop_last() =~= sorted.take(k as int));
            if k > 0 {
                assert(sorted.take(k + 1)[k - 1] == sorted[k - 1]);
            }
        }
        let ghost w = without_repeats(sorted.take(k as int));
        let ghost before = out@;
        if !repeat {
            if kept > 0 {
                push_str(&mut out, ", ");
            }
            crate::text::push_all(&mut out, cur.as_slice());
            kept = kept + 1;
            proof {
                assert(without_repeats(sorted.take(k + 1)) == w.push(sorted[k as int]));
                assert(w.push(sorted[k as int]).drop_last() =~= w);
                if w.len() == 0 {
                    assert(out@ =~= joined(w.push(sorted[k as int])));
                } else {
                    assert(out@ =~= before + ", "@ + sorted[k as int]);
                }
            }
        } else {
            assert(without_repeats(sorted.take(k + 1)) == w);
        }
        k = k + 1;
    }
    assert(sorted.take(k as int) =~= sorted);
    string_of(out.as_slice())
}

} // verus!
