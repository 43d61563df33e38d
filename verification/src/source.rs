//! Source files: a name, the text, and the index of its lines; and the line and column of an
//! offset in them.
use vstd::prelude::*;
use crate::edits::{boundary, indexes, line_of, lemma_line_of, lemma_pos_of, pos_of};
use crate::line_index::{
    is_char_line_start, line_start_offset, offset_at, starts_of_lines, LineIndex,
};
use crate::text::{at_byte, char_pos_of_byte, chars_of, string_of, utf8_len};

verus! {

/// A named source text with the index of its lines.
#[derive(Debug, Clone)]
pub struct SourceFile {
    pub name: String,
    pub text: Vec<char>,
    pub index: LineIndex,
}

/// A one-based line and column.
#[derive(Debug, Clone, Copy, PartialEq, Eq, Structural)]
pub struct LineColumn {
    pub line: usize,
    pub column: usize,
}

impl LineColumn {
    /// The start of a file: line one, column one.
    pub fn start() -> (lc: Self)
        ensures
            lc.line == 1 && lc.column == 1,
    {
        LineColumn { line: 1, column: 1 }
    }
}

impl SourceFile {
    /// The file's index describes its lines exactly.
    pub open spec fn wf(&self) -> bool {
        &&& indexes(self.index, self.text@)
        &&& starts_of_lines(self.text@, self.index.starts(), self.text@.len() as int)
    }

    /// Creates the file `name` with the text `text`.
    pub fn new(name: String, text: &str) -> (f: Self)
        requires
            utf8_len(text@) <= u32::MAX,
        ensures
            f.name == name,
            f.text@ == text@,
            f.wf(),
    {
        let chars = chars_of(text);
        let index = LineIndex::from_chars(chars.as_slice());
        proof {
            assert forall|k: int| 0 <= k < index.starts().len() implies boundary(
                chars@,
                #[trigger] index.starts()[k] as int,
            ) by {
                assert(line_start_offset(chars@, index.starts()[k] as int, chars@.len() as int));
                let p = choose|p: int|
                    0 <= p <= chars@.len() && is_char_line_start(chars@, p) && index.starts()[k]
                        == offset_at(chars@, p);
                reveal(offset_at);
                assert(at_byte(chars@, p, index.starts()[k] as int));
            }
        }
        SourceFile { name, text: chars, index }
    }

    /// Returns whether the file's index is the one its text gives; then the file is well
    /// formed.
    pub fn check_wf(&self) -> (b: bool)
        ensures
            b ==> self.wf(),
    {
        let text = string_of(self.text.as_slice());
        if !crate::text::utf8_len_fits_u32(self.text.as_slice()) {
            return false;
        }
        let fresh = SourceFile::new(string_of(self.text.as_slice()), text.as_str());
        self.index.same_as(&fresh.index)
    }

    /// Returns the file's name.
    pub fn name(&self) -> (s: &str)
        ensures
            s@ == self.name@,
    {
        self.name.as_str()
    }
}

/// The end of the text of a well-formed file is where no character starts but the text ends.
pub proof fn lemma_end_boundary(file: SourceFile)
    requires
        file.wf(),
    ensures
        boundary(file.text@, file.index.len() as int),
{
    assert(file.text@.take(file.text@.len() as int) =~= file.text@);
    assert(at_byte(file.text@, file.text@.len() as int, file.index.len() as int));
}

/// Whether `offset` can be located in `file`: it lies within the text, where a character starts.
pub open spec fn locatable(file: SourceFile, offset: int) -> bool {
    offset <= file.index.len() && boundary(file.text@, offset)
}

/// Whether the text of `file` starts with a byte order mark.
pub open spec fn starts_with_bom(file: SourceFile) -> bool {
    file.text@.len() > 0 && file.text@[0] == '\u{feff}'
}

/// The one-based line and column of `offset` in `file`: the line on which it lies, and one more
/// than the number of characters before it on that line (not counting a byte order mark at the
/// start of the first line).
pub open spec fn line_column_of(file: SourceFile, offset: int) -> LineColumn {
    let line = line_of(file.index, offset);
    let start = file.index.starts()[line - 1];
    let chars = pos_of(file.text@, offset) - pos_of(file.text@, start as int);
    let column = if line == 1 && starts_with_bom(file) && chars > 0 {
        chars - 1
    } else {
        chars
    };
    LineColumn { line: line as usize, column: (column + 1) as usize }
}

proof fn lemma_len_le_utf8(s: Seq<char>)
    ensures
        s.len() <= utf8_len(s),
    decreases s.len(),
{
    if s.len() > 0 {
        lemma_len_le_utf8(s.drop_first());
    }
}

/// Returns the line and column of `offset` in `file` (see [`line_column_of`]).
pub fn line_column(file: &SourceFile, offset: u32) -> (lc: LineColumn)
    requires
        file.wf(),
        locatable(*file, offset as int),
        file.text@.len() < usize::MAX,
    ensures
        lc == line_column_of(*file, offset as int),
{
    let line = file.index.line_index(offset);
    let start = file.index.line_start(line);
    proof {
        lemma_line_of(file.index, offset as int, line as int);
        assert(boundary(file.text@, file.index.starts()[line - 1] as int));
    }
    let p = char_pos_of_byte(file.text.as_slice(), offset as usize);
    let q = char_pos_of_byte(file.text.as_slice(), start as usize);
    match (p, q) {
        (Some(p), Some(q)) => {
            proof {
                lemma_pos_of(file.text@, p as int, offset as int);
                lemma_pos_of(file.text@, q as int, start as int);
                if p < q {
                    crate::text::lemma_utf8_len_take_increasing(file.text@, p as int, q as int);
                }
            }
            proof {
                lemma_len_le_utf8(file.text@);
            }
            let chars = p - q;
            let bom = file.text.len() > 0 && file.text[0] == '\u{feff}';
            let column = if line == 1 && bom && chars > 0 {
                chars - 1
            } else {
                chars
            };
            LineColumn { line, column: column + 1 }
        },
        _ => {
            proof {
                assert(false);
            }
            LineColumn::start()
        },
    }
}

} // verus!
