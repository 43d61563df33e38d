//! Line numbers of byte offsets in a source text, and filters that keep offsets on given lines.
use vstd::prelude::*;
use crate::range::TextRange;
use vstd::string::StringSliceAdditionalSpecFns;
use crate::text::utf8_len;

verus! {

/// Whether a line starts at byte `i` of `bytes`: `i` is zero, or the byte before it ends a
/// line (a line feed, or a carriage return not followed by a line feed).
pub open spec fn is_line_start(bytes: Seq<u8>, i: int) -> bool {
    i == 0 || (1 <= i <= bytes.len() && (bytes[i - 1] == 10u8 || (bytes[i - 1] == 13u8 && !(i
        < bytes.len() && bytes[i] == 10u8))))
}

/// Whether a line starts at character position `p` of `t`: `p` is zero, or the character before
/// it ends a line (a line feed, or a carriage return not followed by a line feed).
pub open spec fn is_char_line_start(t: Seq<char>, p: int) -> bool {
    p == 0 || (1 <= p <= t.len() && (t[p - 1] == '\n' || (t[p - 1] == '\r' && !(p < t.len() && t[p]
        == '\n'))))
}

/// The byte offset of character position `p` of `t`: the length of the encoding of the
/// characters before it.
#[verifier::opaque]
pub open spec fn offset_at(t: Seq<char>, p: int) -> nat {
    utf8_len(t.take(p))
}

proof fn lemma_offset_increasing(t: Seq<char>, p: int, q: int)
    requires
        0 <= p < q <= t.len(),
    ensures
        offset_at(t, p) < offset_at(t, q),
{
    reveal(offset_at);
    crate::text::lemma_utf8_len_take_increasing(t, p, q);
}

/// Whether `v` is one of `starts`.
pub open spec fn listed(starts: Seq<u32>, v: int) -> bool {
    exists|k: int| 0 <= k < starts.len() && starts[k] == v
}

/// Whether `v` is the offset of a line start among the first `n` + 1 positions of `t`.
pub open spec fn line_start_offset(t: Seq<char>, v: int, n: int) -> bool {
    exists|p: int| 0 <= p <= n && is_char_line_start(t, p) && v == offset_at(t, p)
}

/// `starts` are exactly the byte offsets of the line starts among the first `n` + 1 character
/// positions of `t` (see [`is_char_line_start`]).
pub open spec fn starts_of_lines(t: Seq<char>, starts: Seq<u32>, n: int) -> bool {
    &&& forall|p: int|
        0 <= p <= n ==> (is_char_line_start(t, p) <==> #[trigger] listed(starts, offset_at(t, p) as int))
    &&& forall|k: int| 0 <= k < starts.len() ==> #[trigger] line_start_offset(t, starts[k] as int, n)
}

proof fn lemma_starts_step(t: Seq<char>, before: Seq<u32>, after: Seq<u32>, i: int, breaks: bool)
    requires
        0 <= i < t.len(),
        starts_of_lines(t, before, i),
        forall|a: int| 0 <= a < before.len() ==> before[a] <= offset_at(t, i),
        breaks == is_char_line_start(t, i + 1),
        offset_at(t, i) < offset_at(t, i + 1) <= u32::MAX,
        after == if breaks {
            before.push(offset_at(t, i + 1) as u32)
        } else {
            before
        },
    ensures
        starts_of_lines(t, after, i + 1),
{
    assert forall|p: int|
        0 <= p <= i + 1 implies (is_char_line_start(t, p) <==> #[trigger] listed(after, offset_at(t, p) as int)) by {
        if p <= i {
            if p < i {
                lemma_offset_increasing(t, p, i);
            }
            if listed(before, offset_at(t, p) as int) {
                let k = choose|k: int| 0 <= k < before.len() && before[k] == offset_at(t, p);
                assert(after[k] == before[k]);
            }
            if listed(after, offset_at(t, p) as int) {
                let k = choose|k: int| 0 <= k < after.len() && after[k] == offset_at(t, p);
                if k < before.len() {
                    assert(before[k] == after[k]);
                }
            }
        } else {
            if breaks {
                assert(after[after.len() - 1] == offset_at(t, p));
            } else if listed(after, offset_at(t, p) as int) {
                let k = choose|k: int| 0 <= k < after.len() && after[k] == offset_at(t, p);
                assert(before[k] <= offset_at(t, i));
            }
        }
    }
    assert forall|k: int| 0 <= k < after.len() implies #[trigger] line_start_offset(t, after[k] as int, i + 1) by {
        if k < before.len() {
            assert(after[k] == before[k]);
            assert(line_start_offset(t, before[k] as int, i));
            let p = choose|p: int| 0 <= p <= i && is_char_line_start(t, p) && before[k] == offset_at(t, p);
            assert(0 <= p <= i + 1 && is_char_line_start(t, p) && after[k] == offset_at(t, p));
        } else {
            assert(0 <= i + 1 <= i + 1 && is_char_line_start(t, i + 1) && after[k] == offset_at(t, i + 1));
        }
    }
}

/// The offsets at which the lines of a text start.
#[derive(Debug, Clone)]
pub struct LineIndex {
    line_starts: Vec<u32>,
    text_len: u32,
}

impl LineIndex {
    /// The offsets at which lines start, in increasing order.
    pub closed spec fn starts(&self) -> Seq<u32> {
        self.line_starts@
    }

    /// The length in bytes of the indexed text.
    pub closed spec fn len(&self) -> u32 {
        self.text_len
    }

    /// The index is well formed: the first line starts at zero, and line starts increase and lie
    /// within the text.
    pub closed spec fn wf(&self) -> bool {
        &&& self.line_starts@.len() > 0
        &&& self.line_starts@[0] == 0
        &&& forall|i: int, j: int|
            0 <= i < j < self.line_starts@.len() ==> self.line_starts@[i] < self.line_starts@[j]
        &&& forall|i: int| 0 <= i < self.line_starts@.len() ==> self.line_starts@[i] <= self.text_len
    }

    /// Builds the index of `text`: a line starts at offset zero and after each line feed, and
    /// after each carriage return that is not followed by a line feed.
    pub fn from_source_text(text: &str) -> (idx: Self)
        requires
            text@.len() <= u32::MAX,
            text.spec_bytes().len() <= u32::MAX,
        ensures
            idx.wf(),
            idx.len() == text.spec_bytes().len(),
            forall|i: int|
                0 <= i <= text.spec_bytes().len() ==> (is_line_start(text.spec_bytes(), i) <==> exists|k: int|
                    0 <= k < idx.starts().len() && idx.starts()[k] == i),
    {
        let bytes = text.as_bytes();
        let n = bytes.len();
        let mut starts: Vec<u32> = Vec::new();
        starts.push(0);
        let mut i: usize = 0;
        assert(starts@[0] == 0);
        assert(exists|a: int| 0 <= a < starts@.len() && starts@[a] == 0);
        while i < n
            invariant
                n == bytes@.len(),
                bytes@ == text.spec_bytes(),
                n <= u32::MAX,
                i <= n,
                starts@.len() > 0,
                starts@[0] == 0,
                forall|a: int, b: int| 0 <= a < b < starts@.len() ==> starts@[a] < starts@[b],
                forall|a: int| 0 <= a < starts@.len() ==> starts@[a] <= i,
                forall|k: int|
                    0 <= k <= i ==> (is_line_start(bytes@, k) <==> exists|a: int|
                        0 <= a < starts@.len() && starts@[a] == k),
            decreases n - i,
        {
            let b = bytes[i];
            let ghost before = starts@;
            let breaks = b == 10u8 || (b == 13u8 && !(i + 1 < n && bytes[i + 1] == 10u8));
            if breaks {
                starts.push((i + 1) as u32);
            }
            assert forall|k: int|
                0 <= k <= i + 1 implies (is_line_start(bytes@, k) <==> exists|a: int|
                    0 <= a < starts@.len() && starts@[a] == k) by {
                if k <= i {
                    if exists|a: int| 0 <= a < before.len() && before[a] == k {
                        let a = choose|a: int| 0 <= a < before.len() && before[a] == k;
                        assert(starts@[a] == k);
                    }
                    if exists|a: int| 0 <= a < starts@.len() && starts@[a] == k {
                        let a = choose|a: int| 0 <= a < starts@.len() && starts@[a] == k;
                        if a < before.len() {
                            assert(before[a] == k);
                        }
                    }
                } else {
                    if breaks {
                        assert(starts@[starts@.len() - 1] == k);
                    } else {
                        if exists|a: int| 0 <= a < starts@.len() && starts@[a] == k {
                            let a = choose|a: int| 0 <= a < starts@.len() && starts@[a] == k;
                            assert(before[a] <= i);
                        }
                    }
                }
            }
            i = i + 1;
        }
        let idx = LineIndex { line_starts: starts, text_len: n as u32 };
        assert forall|k: int|
            0 <= k <= text.spec_bytes().len() implies (is_line_start(text.spec_bytes(), k) <==> exists|a: int|
                0 <= a < idx.starts().len() && idx.starts()[a] == k) by {
            if exists|a: int| 0 <= a < starts@.len() && starts@[a] == k {
                let a = choose|a: int| 0 <= a < starts@.len() && starts@[a] == k;
                assert(idx.starts()[a] == k);
            }
        }
        idx
    }

    /// Builds the index of the text made of the characters `text`: a line starts at offset zero
    /// and after each line feed, and after each carriage return that is not followed by a line
    /// feed; offsets count the bytes of the UTF-8 encoding.
    #[verifier::rlimit(40)]
    pub fn from_chars(text: &[char]) -> (idx: Self)
        requires
            utf8_len(text@) <= u32::MAX,
        ensures
            idx.wf(),
            idx.len() == utf8_len(text@),
            starts_of_lines(text@, idx.starts(), text@.len() as int),
    {
        let mut starts: Vec<u32> = Vec::new();
        starts.push(0);
        let mut i: usize = 0;
        let mut off: u32 = 0;
        assert(text@.take(0) =~= Seq::<char>::empty());
        assert(is_char_line_start(text@, 0));
        assert(starts@[0] == offset_at(text@, 0)) by {
            reveal(offset_at);
        }
        assert(listed(starts@, offset_at(text@, 0) as int));
        assert(line_start_offset(text@, starts@[0] as int, 0));
        while i < text.len()
            invariant
                i <= text@.len(),
                utf8_len(text@) <= u32::MAX,
                off == utf8_len(text@.take(i as int)),
                starts@.len() > 0,
                starts@[0] == 0,
                forall|a: int, b: int| 0 <= a < b < starts@.len() ==> starts@[a] < starts@[b],
                forall|a: int| 0 <= a < starts@.len() ==> starts@[a] <= off,
                starts_of_lines(text@, starts@, i as int),
            decreases text@.len() - i,
        {
            proof {
                crate::text::lemma_utf8_len_take_step_pub(text@, i as int);
                assert(text@.take(i + 1) =~= text@.subrange(0, i + 1));
                crate::text::lemma_utf8_len_subrange(text@, 0, i + 1);
            }
            let c = text[i];
            let next = off + crate::text::char_utf8_len(c) as u32;
            let breaks = c == '\n' || (c == '\r' && !(i + 1 < text.len() && text[i + 1] == '\n'));
            let ghost before = starts@;
            if breaks {
                starts.push(next);
            }
            proof {
                lemma_offset_increasing(text@, i as int, i + 1);
                reveal(offset_at);
                lemma_starts_step(text@, before, starts@, i as int, breaks);
            }
            off = next;
            i = i + 1;
        }
        assert(text@.take(i as int) =~= text@);
        LineIndex { line_starts: starts, text_len: off }
    }

    /// Returns whether this index lists the same line starts and length as `other`.
    pub fn same_as(&self, other: &LineIndex) -> (b: bool)
        ensures
            b == (self.starts() == other.starts() && self.len() == other.len()),
            b ==> (other.wf() ==> self.wf()),
    {
        if self.text_len != other.text_len || self.line_starts.len() != other.line_starts.len() {
            return false;
        }
        let mut i: usize = 0;
        while i < self.line_starts.len()
            invariant
                i <= self.line_starts@.len(),
                self.line_starts@.len() == other.line_starts@.len(),
                forall|k: int| 0 <= k < i ==> self.line_starts@[k] == other.line_starts@[k],
            decreases self.line_starts@.len() - i,
        {
            if self.line_starts[i] != other.line_starts[i] {
                return false;
            }
            i = i + 1;
        }
        assert(self.line_starts@ =~= other.line_starts@);
        true
    }

    /// Returns the length in bytes of the indexed text.
    pub fn len_exec(&self) -> (n: u32)
        ensures
            n == self.len(),
    {
        self.text_len
    }

    /// Returns the number of lines.
    pub fn line_count(&self) -> (n: usize)
        ensures
            n == self.starts().len(),
    {
        self.line_starts.len()
    }

    /// Returns the (one-based) line on which `offset` lies: the last line starting at or before
    /// it.
    pub fn line_index(&self, offset: u32) -> (line: usize)
        requires
            self.wf(),
        ensures
            1 <= line <= self.starts().len(),
            self.starts()[line - 1] <= offset,
            line < self.starts().len() ==> offset < self.starts()[line as int],
    {
        let mut lo: usize = 0;
        let mut hi: usize = self.line_starts.len();
        while lo + 1 < hi
            invariant
                self.wf(),
                0 <= lo < hi <= self.line_starts@.len(),
                self.line_starts@[lo as int] <= offset,
                hi < self.line_starts@.len() ==> offset < self.line_starts@[hi as int],
            decreases hi - lo,
        {
            let mid = lo + (hi - lo) / 2;
            if self.line_starts[mid] <= offset {
                lo = mid;
            } else {
                hi = mid;
            }
        }
        lo + 1
    }

    /// Returns the offset at which the (one-based) line `line` starts, or the length of the text
    /// for the line just past the last one.
    pub fn line_start(&self, line: usize) -> (offset: u32)
        requires
            1 <= line <= self.starts().len() + 1,
        ensures
            offset == if line - 1 < self.starts().len() {
                self.starts()[line - 1]
            } else {
                self.len()
            },
    {
        let row = line - 1;
        if row == self.line_starts.len() {
            self.text_len
        } else {
            self.line_starts[row]
        }
    }

    /// Returns the offset at which the (one-based) line `line` ends, its line terminator
    /// included: where the next line starts, or the length of the text for the last line.
    pub fn line_end(&self, line: usize) -> (offset: u32)
        requires
            1 <= line,
        ensures
            offset == if line < self.starts().len() {
                self.starts()[line as int]
            } else {
                self.len()
            },
    {
        if line >= self.line_starts.len() {
            self.text_len
        } else {
            self.line_starts[line]
        }
    }

    /// In a well-formed index, line starts strictly increase and lie within the text.
    pub proof fn lemma_wf(&self)
        requires
            self.wf(),
        ensures
            self.starts().len() > 0,
            self.starts()[0] == 0,
            forall|i: int, j: int|
                0 <= i < j < self.starts().len() ==> self.starts()[i] < self.starts()[j],
            forall|i: int| 0 <= i < self.starts().len() ==> self.starts()[i] <= self.len(),
    {
    }
}

/// A range of (one-based) lines, both ends included.
#[derive(Debug, Clone, Copy, PartialEq, Eq)]
pub struct LineRange {
    pub start: usize,
    pub end: usize,
}

/// The offsets a line filter keeps for a file.
#[derive(Debug, Clone)]
pub struct FilterSet {
    pub inner: Vec<TextRange>,
}

/// The byte range that the line range `r` covers in a text indexed by `idx`.
pub open spec fn covered(idx: LineIndex, r: LineRange) -> TextRange {
    TextRange {
        start: if r.start - 1 < idx.starts().len() {
            idx.starts()[r.start - 1]
        } else {
            idx.len()
        },
        end: if r.end < idx.starts().len() {
            idx.starts()[r.end as int]
        } else {
            idx.len()
        },
    }
}

impl FilterSet {
    /// Builds the set of offsets of the given line ranges of a text indexed by `index`: the
    /// whole text when there are no ranges.
    pub fn from_line_ranges(ranges: &[LineRange], index: &LineIndex) -> (f: Self)
        requires
            index.wf(),
            forall|i: int|
                0 <= i < ranges@.len() ==> 1 <= #[trigger] ranges@[i].start <= ranges@[i].end
                    && ranges@[i].start <= index.starts().len() + 1,
        ensures
            ranges@.len() == 0 ==> f.inner@ == seq![TextRange { start: 0, end: index.len() }],
            ranges@.len() > 0 ==> f.inner@.len() == ranges@.len() && forall|i: int|
                0 <= i < ranges@.len() ==> #[trigger] f.inner@[i] == covered(*index, ranges@[i]),
    {
        let mut inner: Vec<TextRange> = Vec::new();
        if ranges.len() == 0 {
            inner.push(TextRange { start: 0, end: index.text_len });
            return FilterSet { inner };
        }
        let mut i: usize = 0;
        while i < ranges.len()
            invariant
                index.wf(),
                forall|k: int|
                    0 <= k < ranges@.len() ==> 1 <= #[trigger] ranges@[k].start <= ranges@[k].end
                        && ranges@[k].start <= index.starts().len() + 1,
                i <= ranges@.len(),
                inner@.len() == i,
                forall|k: int| 0 <= k < i ==> #[trigger] inner@[k] == covered(*index, ranges@[k]),
            decreases ranges@.len() - i,
        {
            let r = ranges[i];
            let start = index.line_start(r.start);
            let end = index.line_end(r.end);
            inner.push(TextRange { start, end });
            i = i + 1;
        }
        FilterSet { inner }
    }

    /// Returns whether the set holds `offset` (the ends of ranges included).
    pub fn contains(&self, offset: u32) -> (b: bool)
        ensures
            b == exists|i: int|
                0 <= i < self.inner@.len() && #[trigger] self.inner@[i].start <= offset
                    && offset <= self.inner@[i].end,
    {
        let mut i: usize = 0;
        while i < self.inner.len()
            invariant
                i <= self.inner@.len(),
                forall|k: int|
                    0 <= k < i ==> !(#[trigger] self.inner@[k].start <= offset && offset
                        <= self.inner@[k].end),
            decreases self.inner@.len() - i,
        {
            if self.inner[i].contains_inclusive(offset) {
                return true;
            }
            i = i + 1;
        }
        false
    }

    /// Returns whether some range of the set holds all of `other`.
    pub fn contains_range(&self, other: TextRange) -> (b: bool)
        ensures
            b == exists|i: int|
                0 <= i < self.inner@.len() && #[trigger] self.inner@[i].start <= other.start
                    && other.end <= self.inner@[i].end,
    {
        let mut i: usize = 0;
        while i < self.inner.len()
            invariant
                i <= self.inner@.len(),
                forall|k: int|
                    0 <= k < i ==> !(#[trigger] self.inner@[k].start <= other.start && other.end
                        <= self.inner@[k].end),
            decreases self.inner@.len() - i,
        {
            if self.inner[i].contains_range(other) {
                return true;
            }
            i = i + 1;
        }
        false
    }
}

/// The lines to check in one file: all of them when no ranges are given.
#[derive(Debug, Clone)]
pub struct LineFilter {
    pub name: String,
    pub lines: Option<Vec<LineRange>>,
}

/// A map from (normalised) file names to the lines to check in them.
#[derive(Debug, Clone)]
pub struct FilterMap {
    pub inner: Vec<(String, Vec<LineRange>)>,
}

/// The position of the last entry of `m` for `name`, if any.
pub open spec fn last_entry(m: Seq<(String, Vec<LineRange>)>, name: Seq<char>) -> Option<int>
    decreases m.len(),
{
    if m.len() == 0 {
        None
    } else if m.last().0@ == name {
        Some(m.len() - 1)
    } else {
        last_entry(m.drop_last(), name)
    }
}

proof fn lemma_last_entry(m: Seq<(String, Vec<LineRange>)>, name: Seq<char>)
    ensures
        match last_entry(m, name) {
            Some(i) => 0 <= i < m.len() && m[i].0@ == name,
            None => true,
        },
    decreases m.len(),
{
    if m.len() > 0 && m.last().0@ != name {
        lemma_last_entry(m.drop_last(), name);
    }
}

impl FilterMap {
    /// Builds the map from filters whose names are already normalised: a file without line
    /// ranges gets none (all of it is checked), and a later filter for the same file replaces
    /// an earlier one.
    pub fn new(filters: Vec<LineFilter>) -> (m: Self)
        ensures
            m.inner@.len() == filters@.len(),
            forall|i: int|
                0 <= i < filters@.len() ==> #[trigger] m.inner@[i].0 == filters@[i].name && m.inner@[i].1@
                    == match filters@[i].lines {
                    Some(v) => v@,
                    None => Seq::empty(),
                },
    {
        let mut inner: Vec<(String, Vec<LineRange>)> = Vec::new();
        let mut filters = filters;
        let ghost original = filters@;
        let mut taken: Vec<LineFilter> = Vec::new();
        // Take the filters in order.
        while filters.len() > 0
            invariant
                filters@.len() + taken@.len() == original.len(),
                forall|k: int| 0 <= k < filters@.len() ==> #[trigger] filters@[k] == original[taken@.len() + k],
                inner@.len() == taken@.len(),
                forall|k: int|
                    0 <= k < inner@.len() ==> #[trigger] inner@[k].0 == original[k].name && inner@[k].1@
                        == match original[k].lines {
                        Some(v) => v@,
                        None => Seq::empty(),
                    },
            decreases filters@.len(),
        {
            let f = filters.remove(0);
            let lines = match f.lines {
                Some(v) => v,
                None => Vec::new(),
            };
            inner.push((f.name, lines));
            taken.push(LineFilter { name: String::new(), lines: None });
        }
        assert(inner@.len() == original.len());
        FilterMap { inner }
    }

    /// Returns whether the map has an entry for `file`.
    pub fn contains(&self, file: &String) -> (b: bool)
        ensures
            b == exists|i: int| 0 <= i < self.inner@.len() && self.inner@[i].0@ == file@,
    {
        let mut i: usize = 0;
        while i < self.inner.len()
            invariant
                i <= self.inner@.len(),
                forall|k: int| 0 <= k < i ==> self.inner@[k].0@ != file@,
            decreases self.inner@.len() - i,
        {
            if self.inner[i].0 == *file {
                return true;
            }
            i = i + 1;
        }
        false
    }

    /// Returns the line ranges of the last entry for `file`, if there is one.
    pub fn ranges(&self, file: &String) -> (r: Option<&Vec<LineRange>>)
        ensures
            match last_entry(self.inner@, file@) {
                Some(i) => r == Some(&self.inner@[i].1),
                None => r is None,
            },
    {
        let mut i: usize = self.inner.len();
        assert(self.inner@.take(i as int) =~= self.inner@);
        while i > 0
            invariant
                i <= self.inner@.len(),
                last_entry(self.inner@, file@) == last_entry(self.inner@.take(i as int), file@),
            decreases i,
        {
            assert(self.inner@.take(i as int).last() == self.inner@[i - 1]);
            if self.inner[i - 1].0 == *file {
                return Some(&self.inner[i - 1].1);
            }
            assert(self.inner@.take(i as int).drop_last() =~= self.inner@.take(i - 1));
            i = i - 1;
        }
        None
    }

    /// Returns the offsets to check in `file`, whose text is indexed by `index`, if the map has
    /// an entry for it.
    pub fn get(&self, file: &String, index: &LineIndex) -> (f: Option<FilterSet>)
        requires
            index.wf(),
            forall|i: int, k: int|
                0 <= i < self.inner@.len() && 0 <= k < self.inner@[i].1@.len() ==> 1
                    <= #[trigger] self.inner@[i].1@[k].start <= self.inner@[i].1@[k].end
                    && self.inner@[i].1@[k].start <= index.starts().len() + 1,
        ensures
            match last_entry(self.inner@, file@) {
                Some(i) => f matches Some(s) && {
                    let rs = self.inner@[i].1@;
                    &&& rs.len() == 0 ==> s.inner@ == seq![TextRange { start: 0, end: index.len() }]
                    &&& rs.len() > 0 ==> s.inner@.len() == rs.len() && forall|k: int|
                        0 <= k < rs.len() ==> #[trigger] s.inner@[k] == covered(*index, rs[k])
                },
                None => f is None,
            },
    {
        match self.ranges(file) {
            Some(rs) => {
                proof {
                    lemma_last_entry(self.inner@, file@);
                }
                Some(FilterSet::from_line_ranges(rs.as_slice(), index))
            },
            None => None,
        }
    }
}

} // verus!
