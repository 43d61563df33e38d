//! Edits to variable declarations: removing one item of a comma-separated statement, and adding
//! an attribute.
use vstd::prelude::*;
use crate::diagnostics::Edit;
use crate::edits::{deletion_range, edit_delete};
use crate::range::TextRange;
use crate::source::{locatable, SourceFile};
use crate::text::string_of;
use crate::write::push_str;

verus! {

/// Why an item could not be removed.
#[derive(Debug, Clone, Copy, PartialEq, Eq, Structural)]
pub enum RemovalError {
    /// The item is followed by others but by no comma.
    NoTrailingComma,
}

/// Whether `r` is another item than `item` that starts before it.
pub open spec fn is_before(r: TextRange, item: TextRange) -> bool {
    r != item && r.start < item.start
}

/// Whether `r` is another item than `item` that does not start before it.
pub open spec fn is_after(r: TextRange, item: TextRange) -> bool {
    r != item && r.start >= item.start
}

/// Whether some item of `children` comes after `item`.
pub open spec fn has_after(children: Seq<TextRange>, item: TextRange) -> bool {
    exists|i: int| 0 <= i < children.len() && is_after(#[trigger] children[i], item)
}

/// The largest end of the items of `children` before `item`, if any.
pub open spec fn last_end_before(children: Seq<TextRange>, item: TextRange) -> Option<u32>
    decreases children.len(),
{
    if children.len() == 0 {
        None
    } else {
        let rest = last_end_before(children.drop_last(), item);
        let c = children.last();
        if is_before(c, item) {
            match rest {
                Some(e) => Some(if c.end > e { c.end } else { e }),
                None => Some(c.end),
            }
        } else {
            rest
        }
    }
}

/// The range deleted to remove `item` from a statement whose items are `children`: from its
/// start to the end of the comma after it (`next_comma_end`) when other items follow it; else
/// from the last end of the items before it to its end; else the whole statement, as deleted by
/// [`deletion_range`].
pub open spec fn removal(
    children: Seq<TextRange>,
    item: TextRange,
    next_comma_end: Option<u32>,
    statement: TextRange,
    file: SourceFile,
) -> Result<TextRange, RemovalError> {
    if has_after(children, item) {
        match next_comma_end {
            Some(e) => Ok(TextRange { start: item.start, end: e }),
            None => Err(RemovalError::NoTrailingComma),
        }
    } else {
        match last_end_before(children, item) {
            Some(e) => Ok(TextRange { start: e, end: item.end }),
            None => Ok(deletion_range(file.text@, file.index, statement)),
        }
    }
}

/// Returns the deletion that removes `item` from the statement `statement` whose items are
/// `children`, with the end of the comma after `item`, if there is one (see [`removal`]).
pub fn remove_from_comma_sep_stmt(
    item: TextRange,
    statement: TextRange,
    children: &Vec<TextRange>,
    next_comma_end: Option<u32>,
    file: &SourceFile,
) -> (r: Result<Edit, RemovalError>)
    requires
        file.wf(),
        !has_after(children@, item) && last_end_before(children@, item) is None ==> statement.start <= statement.end
            && locatable(*file, statement.start as int) && locatable(*file, statement.end as int),
    ensures
        match (r, removal(children@, item, next_comma_end, statement, *file)) {
            (Ok(e), Ok(range)) => e.content is None && e.range == range,
            (Err(a), Err(b)) => a == b,
            _ => false,
        },
{
    let mut after = false;
    let mut last: Option<u32> = None;
    let mut i: usize = 0;
    while i < children.len()
        invariant
            i <= children@.len(),
            after == exists|j: int| 0 <= j < i && is_after(#[trigger] children@[j], item),
            last == last_end_before(children@.take(i as int), item),
        decreases children@.len() - i,
    {
        let c = children[i];
        assert(children@.take(i + 1).drop_last() =~= children@.take(i as int));
        let other = !(c.start == item.start && c.end == item.end);
        if other && c.start >= item.start {
            after = true;
        }
        if other && c.start < item.start {
            last = match last {
                Some(e) => Some(if c.end > e { c.end } else { e }),
                None => Some(c.end),
            };
        }
        proof {
            if exists|j: int| 0 <= j < i + 1 && is_after(#[trigger] children@[j], item) {
                let j = choose|j: int| 0 <= j < i + 1 && is_after(#[trigger] children@[j], item);
                if j == i {
                    assert(after);
                }
            }
        }
        i = i + 1;
    }
    assert(children@.take(i as int) =~= children@);
    if after {
        match next_comma_end {
            Some(e) => Ok(Edit::range_deletion(TextRange { start: item.start, end: e })),
            None => Err(RemovalError::NoTrailingComma),
        }
    } else {
        match last {
            Some(e) => Ok(Edit::range_deletion(TextRange { start: e, end: item.end })),
            None => {
                proof {
                    crate::source::lemma_end_boundary(*file);
                }
                Ok(edit_delete(file.text.as_slice(), &file.index, statement))
            },
        }
    }
}

/// The text inserted to add the attribute `attribute` to a declaration: a comma and the
/// attribute, and ` ::` when the declaration has no `::`.
pub open spec fn attribute_text(attribute: Seq<char>, has_colon: bool) -> Seq<char> {
    ", "@ + attribute + if has_colon {
        Seq::empty()
    } else {
        " ::"@
    }
}

/// Returns the insertion that adds `attribute` to a declaration whose type ends at `type_end`,
/// whose last attribute, if any, ends at `last_attribute_end`, and which has `::` or not: the
/// text of [`attribute_text`] after the last attribute, or else after the type.
pub fn add_attribute_to_var_decl(type_end: u32, last_attribute_end: Option<u32>, has_colon: bool, attribute: &str) -> (e: Edit)
    ensures
        e.content is Some,
        e.content.unwrap()@ == attribute_text(attribute@, has_colon),
        ({
            let at = match last_attribute_end {
                Some(a) => a,
                None => type_end,
            };
            e.range == (TextRange { start: at, end: at })
        }),
{
    let start = match last_attribute_end {
        Some(a) => a,
        None => type_end,
    };
    let mut text: Vec<char> = Vec::new();
    push_str(&mut text, ", ");
    push_str(&mut text, attribute);
    if !has_colon {
        push_str(&mut text, " ::");
    }
    proof {
        if has_colon {
            assert(text@ =~= attribute_text(attribute@, has_colon));
        } else {
            assert(text@ =~= attribute_text(attribute@, has_colon));
        }
    }
    Edit::insertion(string_of(text.as_slice()), start)
}

} // verus!
