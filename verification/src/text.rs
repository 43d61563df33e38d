//! Text as sequences of characters: whitespace, lines, and conversions to and from strings.
use vstd::prelude::*;
use vstd::string::StringSliceAdditionalSpecFns;
use vstd::utf8::{char_is_scalar, encode_scalar, encode_utf8};

verus! {

/// Whether `c` has the Unicode `White_Space` property.
pub open spec fn is_ws(c: char) -> bool {
    let u = c as u32;
    (0x09 <= u && u <= 0x0D) || u == 0x20 || u == 0x85 || u == 0xA0 || u == 0x1680 || (0x2000 <= u
        && u <= 0x200A) || u == 0x2028 || u == 0x2029 || u == 0x202F || u == 0x205F || u == 0x3000
}

/// Returns whether `c` has the Unicode `White_Space` property (as `char::is_whitespace`).
pub fn is_whitespace(c: char) -> (b: bool)
    ensures
        b == is_ws(c),
{
    let u = c as u32;
    (0x09 <= u && u <= 0x0D) || u == 0x20 || u == 0x85 || u == 0xA0 || u == 0x1680 || (0x2000 <= u
        && u <= 0x200A) || u == 0x2028 || u == 0x2029 || u == 0x202F || u == 0x205F || u == 0x3000
}

/// Returns the characters of `s`.
#[verifier::external_body]
pub(crate) fn chars_of(s: &str) -> (v: Vec<char>)
    ensures
        v@ == s@,
{
    s.chars().collect()
}

/// Returns the string made of the characters `v`.
#[verifier::external_body]
pub(crate) fn string_of(v: &[char]) -> (s: String)
    ensures
        s@ == v@,
{
    v.iter().collect()
}

/// The position of the first character of `s` that is not whitespace, or the length of `s`.
pub open spec fn leading_ws(s: Seq<char>) -> nat
    decreases s.len(),
{
    if s.len() == 0 {
        0
    } else if is_ws(s[0]) {
        1 + leading_ws(s.drop_first())
    } else {
        0
    }
}

pub proof fn lemma_leading_ws(s: Seq<char>)
    ensures
        leading_ws(s) <= s.len(),
        forall|i: int| 0 <= i < leading_ws(s) ==> is_ws(#[trigger] s[i]),
        leading_ws(s) < s.len() ==> !is_ws(s[leading_ws(s) as int]),
    decreases s.len(),
{
    if s.len() > 0 && is_ws(s[0]) {
        lemma_leading_ws(s.drop_first());
        assert forall|i: int| 0 <= i < leading_ws(s) implies is_ws(#[trigger] s[i]) by {
            if i > 0 {
                assert(s[i] == s.drop_first()[i - 1]);
            }
        }
    }
}

/// Whether `s` holds a character that is not whitespace.
pub open spec fn has_non_ws(s: Seq<char>) -> bool {
    leading_ws(s) < s.len()
}

/// Returns the position of the first character of `s` that is not whitespace, or the length.
pub fn leading_ws_len(s: &[char]) -> (n: usize)
    ensures
        n == leading_ws(s@),
{
    proof {
        lemma_leading_ws(s@);
    }
    let mut i: usize = 0;
    while i < s.len() && is_whitespace(s[i])
        invariant
            i <= s@.len(),
            forall|k: int| 0 <= k < i ==> is_ws(#[trigger] s@[k]),
        decreases s@.len() - i,
    {
        i = i + 1;
    }
    proof {
        lemma_leading_ws_unique(s@, i as int);
    }
    i
}

proof fn lemma_leading_ws_unique(s: Seq<char>, i: int)
    requires
        0 <= i <= s.len(),
        forall|k: int| 0 <= k < i ==> is_ws(#[trigger] s[k]),
        i < s.len() ==> !is_ws(s[i]),
    ensures
        leading_ws(s) == i,
    decreases s.len(),
{
    if i > 0 {
        assert forall|k: int| 0 <= k < i - 1 implies is_ws(#[trigger] s.drop_first()[k]) by {
            assert(s.drop_first()[k] == s[k + 1]);
        }
        if i - 1 < s.drop_first().len() {
            assert(s.drop_first()[i - 1] == s[i]);
        }
        lemma_leading_ws_unique(s.drop_first(), i - 1);
    }
}

/// The position of the first line feed in `s`, or the length of `s`.
pub open spec fn first_lf(s: Seq<char>) -> nat
    decreases s.len(),
{
    if s.len() == 0 {
        0
    } else if s[0] == '\n' {
        0
    } else {
        1 + first_lf(s.drop_first())
    }
}

proof fn lemma_first_lf(s: Seq<char>)
    ensures
        first_lf(s) <= s.len(),
        forall|i: int| 0 <= i < first_lf(s) ==> #[trigger] s[i] != '\n',
        first_lf(s) < s.len() ==> s[first_lf(s) as int] == '\n',
    decreases s.len(),
{
    if s.len() > 0 && s[0] != '\n' {
        lemma_first_lf(s.drop_first());
        assert forall|i: int| 0 <= i < first_lf(s) implies #[trigger] s[i] != '\n' by {
            if i > 0 {
                assert(s[i] == s.drop_first()[i - 1]);
            }
        }
    }
}

/// `s` without one trailing carriage return.
pub open spec fn strip_cr(s: Seq<char>) -> Seq<char> {
    if s.len() > 0 && s.last() == '\r' {
        s.drop_last()
    } else {
        s
    }
}

/// The lines of `s`, as `str::lines` gives them: split at each line feed, without a trailing
/// carriage return, and without an empty last line after a final line feed.
pub open spec fn lines(s: Seq<char>) -> Seq<Seq<char>>
    decreases s.len(),
{
    if s.len() == 0 {
        Seq::empty()
    } else {
        let i = first_lf(s);
        if i >= s.len() {
            seq![strip_cr(s)]
        } else {
            seq![strip_cr(s.take(i as int))] + lines(s.skip(i as int + 1))
        }
    }
}

/// Returns the lines of `s` (see [`lines`]).
pub fn split_lines(s: &[char]) -> (v: Vec<Vec<char>>)
    ensures
        v@.len() == lines(s@).len(),
        forall|i: int| 0 <= i < v@.len() ==> #[trigger] v@[i]@ == lines(s@)[i],
{
    let mut v: Vec<Vec<char>> = Vec::new();
    let mut start: usize = 0;
    let mut cur: Vec<char> = Vec::new();
    let mut i: usize = 0;
    assert(s@.skip(0) =~= s@);
    while i < s.len()
        invariant
            start <= i <= s@.len(),
            cur@ == s@.subrange(start as int, i as int),
            forall|k: int| start <= k < i ==> #[trigger] s@[k] != '\n',
            v@.len() + lines(s@.skip(start as int)).len() == lines(s@).len(),
            forall|k: int| 0 <= k < v@.len() ==> #[trigger] v@[k]@ == lines(s@)[k],
            forall|k: int|
                0 <= k < lines(s@.skip(start as int)).len() ==> lines(s@)[v@.len() + k] == #[trigger] lines(
                    s@.skip(start as int),
                )[k],
        decreases s@.len() - i,
    {
        if s[i] == '\n' {
            let ghost rest = s@.skip(start as int);
            proof {
                lemma_first_lf(rest);
                assert forall|k: int| 0 <= k < i - start implies #[trigger] rest[k] != '\n' by {
                    assert(rest[k] == s@[start + k]);
                }
                assert(rest[i - start] == '\n');
                if first_lf(rest) < i - start {
                    assert(rest[first_lf(rest) as int] == '\n');
                }
                assert(first_lf(rest) == i - start);
                assert(rest.take(i - start) =~= cur@);
                assert(rest.skip(i - start + 1) =~= s@.skip(i + 1));
                assert(lines(rest) == seq![strip_cr(cur@)] + lines(s@.skip(i + 1)));
            }
            let ghost old_v = v@;
            let line = strip_cr_vec(cur);
            v.push(line);
            proof {
                let ls = lines(rest);
                assert(lines(s@)[old_v.len() as int] == ls[0]);
                assert forall|k: int| 0 <= k < v@.len() implies #[trigger] v@[k]@ == lines(s@)[k] by {
                    if k < old_v.len() {
                        assert(v@[k] == old_v[k]);
                    }
                }
                assert forall|k: int| 0 <= k < lines(s@.skip(i + 1)).len() implies lines(s@)[v@.len() + k]
                    == #[trigger] lines(s@.skip(i + 1))[k] by {
                    assert(ls[1 + k] == lines(s@.skip(i + 1))[k]);
                    assert(lines(s@)[old_v.len() as int + (1 + k)] == ls[1 + k]);
                }
            }
            cur = Vec::new();
            start = i + 1;
        } else {
            cur.push(s[i]);
        }
        i = i + 1;
    }
    if start < s.len() {
        let ghost rest = s@.skip(start as int);
        proof {
            lemma_first_lf(rest);
            assert forall|k: int| 0 <= k < rest.len() implies #[trigger] rest[k] != '\n' by {
                assert(rest[k] == s@[start + k]);
            }
            if first_lf(rest) < rest.len() {
                assert(rest[first_lf(rest) as int] == '\n');
            }
            assert(rest =~= cur@);
            assert(lines(rest) == seq![strip_cr(cur@)]);
        }
        let ghost old_v = v@;
        let line = strip_cr_vec(cur);
        v.push(line);
        proof {
            assert(lines(s@)[old_v.len() as int] == lines(rest)[0]);
            assert forall|k: int| 0 <= k < v@.len() implies #[trigger] v@[k]@ == lines(s@)[k] by {
                if k < old_v.len() {
                    assert(v@[k] == old_v[k]);
                }
            }
        }
    } else {
        assert(s@.skip(start as int) =~= Seq::<char>::empty());
    }
    v
}

fn strip_cr_vec(v: Vec<char>) -> (r: Vec<char>)
    ensures
        r@ == strip_cr(v@),
{
    let mut v = v;
    if v.len() > 0 && v[v.len() - 1] == '\r' {
        v.pop();
    }
    v
}

/// Whether `s` starts with `prefix`.
pub open spec fn starts_with(s: Seq<char>, prefix: Seq<char>) -> bool {
    prefix.len() <= s.len() && s.take(prefix.len() as int) == prefix
}

/// Returns whether `s` starts with `prefix`.
pub fn has_prefix(s: &[char], prefix: &[char]) -> (b: bool)
    ensures
        b == starts_with(s@, prefix@),
{
    if prefix.len() > s.len() {
        return false;
    }
    let mut i: usize = 0;
    while i < prefix.len()
        invariant
            i <= prefix@.len() <= s@.len(),
            forall|k: int| 0 <= k < i ==> s@[k] == prefix@[k],
        decreases prefix@.len() - i,
    {
        if s[i] != prefix[i] {
            assert(s@.take(prefix@.len() as int)[i as int] != prefix@[i as int]);
            return false;
        }
        i = i + 1;
    }
    assert(s@.take(prefix@.len() as int) =~= prefix@);
    true
}

/// Appends the characters of `src` to `dst`.
pub fn push_all(dst: &mut Vec<char>, src: &[char])
    ensures
        final(dst)@ == old(dst)@ + src@,
{
    let mut i: usize = 0;
    while i < src.len()
        invariant
            i <= src@.len(),
            dst@ == old(dst)@ + src@.take(i as int),
        decreases src@.len() - i,
    {
        dst.push(src[i]);
        assert(src@.take(i + 1) =~= src@.take(i as int).push(src@[i as int]));
        i = i + 1;
    }
    assert(src@.take(src@.len() as int) =~= src@);
}

/// Returns the characters of `s` from position `start` on.
pub fn tail_from(s: &[char], start: usize) -> (r: Vec<char>)
    requires
        start <= s@.len(),
    ensures
        r@ == s@.skip(start as int),
{
    let mut r: Vec<char> = Vec::new();
    let mut i = start;
    while i < s.len()
        invariant
            start <= i <= s@.len(),
            r@ == s@.subrange(start as int, i as int),
        decreases s@.len() - i,
    {
        r.push(s[i]);
        assert(s@.subrange(start as int, i + 1) =~= s@.subrange(start as int, i as int).push(s@[i as int]));
        i = i + 1;
    }
    assert(s@.subrange(start as int, s@.len() as int) =~= s@.skip(start as int));
    r
}

/// Returns the first `n` characters of `s`.
pub fn head_of(s: &[char], n: usize) -> (r: Vec<char>)
    requires
        n <= s@.len(),
    ensures
        r@ == s@.take(n as int),
{
    let mut r: Vec<char> = Vec::new();
    let mut i: usize = 0;
    while i < n
        invariant
            i <= n <= s@.len(),
            r@ == s@.take(i as int),
        decreases n - i,
    {
        r.push(s[i]);
        assert(s@.take(i + 1) =~= s@.take(i as int).push(s@[i as int]));
        i = i + 1;
    }
    r
}

/// The number of bytes of the UTF-8 encoding of `c`.
pub open spec fn char_len(c: char) -> nat {
    let u = c as u32;
    if u <= 0x7F {
        1
    } else if u <= 0x7FF {
        2
    } else if u <= 0xFFFF {
        3
    } else {
        4
    }
}

/// The number of bytes of the UTF-8 encoding of `s`.
pub open spec fn utf8_len(s: Seq<char>) -> nat
    decreases s.len(),
{
    if s.len() == 0 {
        0
    } else {
        char_len(s[0]) + utf8_len(s.drop_first())
    }
}

/// The UTF-8 encoding of `s` has `utf8_len(s)` bytes.
pub proof fn lemma_encoded_len(s: Seq<char>)
    ensures
        encode_utf8(s).len() == utf8_len(s),
    decreases s.len(),
{
    if s.len() > 0 {
        char_is_scalar(s[0]);
        assert(encode_scalar(s[0] as u32).len() == char_len(s[0]));
        lemma_encoded_len(s.drop_first());
    }
}

/// The encoding of a concatenation is as long as the encodings of its parts together.
pub proof fn lemma_utf8_len_concat(a: Seq<char>, b: Seq<char>)
    ensures
        utf8_len(a + b) == utf8_len(a) + utf8_len(b),
    decreases a.len(),
{
    if a.len() > 0 {
        assert((a + b).drop_first() =~= a.drop_first() + b);
        lemma_utf8_len_concat(a.drop_first(), b);
    } else {
        assert(a + b =~= b);
    }
}

/// A part of `s` is no longer, when encoded, than `s`.
pub proof fn lemma_utf8_len_subrange(s: Seq<char>, i: int, j: int)
    requires
        0 <= i <= j <= s.len(),
    ensures
        utf8_len(s.subrange(i, j)) <= utf8_len(s),
{
    lemma_utf8_len_concat(s.take(i), s.skip(i));
    assert(s.take(i) + s.skip(i) =~= s);
    lemma_utf8_len_concat(s.skip(i).take(j - i), s.skip(i).skip(j - i));
    assert(s.skip(i).take(j - i) + s.skip(i).skip(j - i) =~= s.skip(i));
    assert(s.skip(i).take(j - i) =~= s.subrange(i, j));
}

/// Returns whether `a` and `b` hold the same characters.
pub fn str_eq(a: &str, b: &str) -> (r: bool)
    ensures
        r == (a@ == b@),
{
    let x = chars_of(a);
    let y = chars_of(b);
    if x.len() != y.len() {
        return false;
    }
    let mut i: usize = 0;
    while i < x.len()
        invariant
            x@ == a@,
            y@ == b@,
            x@.len() == y@.len(),
            i <= x@.len(),
            forall|k: int| 0 <= k < i ==> x@[k] == y@[k],
        decreases x@.len() - i,
    {
        if x[i] != y[i] {
            return false;
        }
        i = i + 1;
    }
    assert(x@ =~= y@);
    true
}

/// Whether every character of `s` is whitespace.
pub open spec fn all_ws(s: Seq<char>) -> bool {
    forall|i: int| 0 <= i < s.len() ==> is_ws(#[trigger] s[i])
}

/// The position just past the last character of `s` that is not whitespace, or zero.
pub open spec fn trailing_end(s: Seq<char>) -> nat
    decreases s.len(),
{
    if s.len() == 0 {
        0
    } else if is_ws(s.last()) {
        trailing_end(s.drop_last())
    } else {
        s.len()
    }
}

/// `s` without leading and trailing whitespace (as `str::trim`).
pub open spec fn trim_ws(s: Seq<char>) -> Seq<char> {
    let a = leading_ws(s);
    if a >= s.len() {
        Seq::empty()
    } else {
        s.subrange(a as int, trailing_end(s) as int)
    }
}

/// Properties of [`trailing_end`].
pub proof fn lemma_trailing_end_pub(s: Seq<char>)
    ensures
        trailing_end(s) <= s.len(),
        forall|i: int| trailing_end(s) <= i < s.len() ==> is_ws(#[trigger] s[i]),
        trailing_end(s) > 0 ==> !is_ws(s[trailing_end(s) - 1]),
{
    lemma_trailing_end(s);
}

proof fn lemma_trailing_end(s: Seq<char>)
    ensures
        trailing_end(s) <= s.len(),
        forall|i: int| trailing_end(s) <= i < s.len() ==> is_ws(#[trigger] s[i]),
        trailing_end(s) > 0 ==> !is_ws(s[trailing_end(s) - 1]),
    decreases s.len(),
{
    if s.len() > 0 && is_ws(s.last()) {
        lemma_trailing_end(s.drop_last());
        assert forall|i: int| trailing_end(s) <= i < s.len() implies is_ws(#[trigger] s[i]) by {
            if i < s.len() - 1 {
                assert(s[i] == s.drop_last()[i]);
            }
        }
        if trailing_end(s) > 0 {
            assert(s[trailing_end(s) - 1] == s.drop_last()[trailing_end(s) - 1]);
        }
    }
}

proof fn lemma_trailing_end_unique(s: Seq<char>, e: int)
    requires
        0 <= e <= s.len(),
        forall|i: int| e <= i < s.len() ==> is_ws(#[trigger] s[i]),
        e > 0 ==> !is_ws(s[e - 1]),
    ensures
        trailing_end(s) == e,
    decreases s.len(),
{
    if s.len() > e {
        assert(is_ws(s[s.len() - 1]));
        assert forall|i: int| e <= i < s.drop_last().len() implies is_ws(#[trigger] s.drop_last()[i]) by {
            assert(s.drop_last()[i] == s[i]);
        }
        if e > 0 {
            assert(s.drop_last()[e - 1] == s[e - 1]);
        }
        lemma_trailing_end_unique(s.drop_last(), e);
    }
}

/// Returns whether every character of `s` is whitespace.
pub fn is_all_whitespace(s: &[char]) -> (b: bool)
    ensures
        b == all_ws(s@),
{
    let mut i: usize = 0;
    while i < s.len()
        invariant
            i <= s@.len(),
            forall|k: int| 0 <= k < i ==> is_ws(#[trigger] s@[k]),
        decreases s@.len() - i,
    {
        if !is_whitespace(s[i]) {
            return false;
        }
        i = i + 1;
    }
    true
}

/// Returns `s` without leading and trailing whitespace.
pub fn trim(s: &[char]) -> (r: Vec<char>)
    ensures
        r@ == trim_ws(s@),
{
    let a = leading_ws_len(s);
    if a >= s.len() {
        return Vec::new();
    }
    proof {
        lemma_leading_ws(s@);
    }
    let mut e = s.len();
    while e > 0 && is_whitespace(s[e - 1])
        invariant
            e <= s@.len(),
            a < s@.len(),
            !is_ws(s@[a as int]),
            forall|i: int| e <= i < s@.len() ==> is_ws(#[trigger] s@[i]),
        decreases e,
    {
        e = e - 1;
    }
    proof {
        lemma_trailing_end_unique(s@, e as int);
    }
    let mut r: Vec<char> = Vec::new();
    let mut i = a;
    while i < e
        invariant
            a <= i <= e <= s@.len(),
            r@ == s@.subrange(a as int, i as int),
        decreases e - i,
    {
        r.push(s[i]);
        assert(s@.subrange(a as int, i + 1) =~= s@.subrange(a as int, i as int).push(s@[i as int]));
        i = i + 1;
    }
    r
}

/// Returns the number of bytes of the UTF-8 encoding of `c`.
pub fn char_utf8_len(c: char) -> (n: usize)
    ensures
        n == char_len(c),
{
    let u = c as u32;
    if u <= 0x7F {
        1
    } else if u <= 0x7FF {
        2
    } else if u <= 0xFFFF {
        3
    } else {
        4
    }
}

/// Whether character position `p` of `s` lies at byte offset `b`.
pub open spec fn at_byte(s: Seq<char>, p: int, b: int) -> bool {
    0 <= p <= s.len() && utf8_len(s.take(p)) == b
}

/// The encoding of the first `p + 1` characters is that of the first `p` and one more.
pub proof fn lemma_utf8_len_take_step_pub(s: Seq<char>, p: int)
    requires
        0 <= p < s.len(),
    ensures
        utf8_len(s.take(p + 1)) == utf8_len(s.take(p)) + char_len(s[p]),
{
    lemma_utf8_len_take_step(s, p);
}

proof fn lemma_utf8_len_take_step(s: Seq<char>, p: int)
    requires
        0 <= p < s.len(),
    ensures
        utf8_len(s.take(p + 1)) == utf8_len(s.take(p)) + char_len(s[p]),
{
    lemma_utf8_len_concat(s.take(p), seq![s[p]]);
    assert(s.take(p + 1) =~= s.take(p) + seq![s[p]]);
    let one = seq![s[p]];
    assert(one.drop_first() =~= Seq::<char>::empty());
    assert(utf8_len(one.drop_first()) == 0);
    assert(utf8_len(one) == char_len(one[0]) + utf8_len(one.drop_first()));
}

/// Byte offsets grow strictly with character positions.
pub proof fn lemma_utf8_len_take_increasing(s: Seq<char>, p: int, q: int)
    requires
        0 <= p < q <= s.len(),
    ensures
        utf8_len(s.take(p)) < utf8_len(s.take(q)),
    decreases q - p,
{
    lemma_utf8_len_take_step(s, q - 1);
    if p < q - 1 {
        lemma_utf8_len_take_increasing(s, p, q - 1);
    }
}

/// Returns the character position of `s` at byte offset `b`, if a character starts there (or
/// `b` is the length of the encoding).
pub fn char_pos_of_byte(s: &[char], b: usize) -> (p: Option<usize>)
    ensures
        match p {
            Some(k) => at_byte(s@, k as int, b as int),
            None => forall|k: int| !at_byte(s@, k, b as int),
        },
{
    let mut k: usize = 0;
    let mut sum: usize = 0;
    assert(s@.take(0) =~= Seq::<char>::empty());
    while k < s.len() && sum < b
        invariant
            k <= s@.len(),
            sum == utf8_len(s@.take(k as int)),
            sum <= b,
            forall|q: int| 0 <= q < k ==> utf8_len(s@.take(q)) < b,
        decreases s@.len() - k,
    {
        proof {
            lemma_utf8_len_take_step(s@, k as int);
        }
        let w = char_utf8_len(s[k]);
        if w > b - sum {
            proof {
                assert forall|q: int| !at_byte(s@, q, b as int) by {
                    if 0 <= q <= s@.len() {
                        if q <= k {
                            if q < k {
                                lemma_utf8_len_take_increasing(s@, q, k as int);
                            }
                        } else if q > k + 1 {
                            lemma_utf8_len_take_increasing(s@, k as int + 1, q);
                        }
                    }
                }
            }
            return None;
        }
        sum = sum + w;
        k = k + 1;
    }
    if sum == b {
        Some(k)
    } else {
        proof {
            assert forall|q: int| !at_byte(s@, q, b as int) by {
                if 0 <= q <= s@.len() && q > k {
                    lemma_utf8_len_take_increasing(s@, k as int, q);
                }
            }
        }
        None
    }
}

/// Returns whether the UTF-8 encoding of `cs` fits in `u32::MAX` bytes.
pub fn utf8_len_fits_u32(cs: &[char]) -> (b: bool)
    ensures
        b == (utf8_len(cs@) <= u32::MAX),
{
    let mut sum: u64 = 0;
    let mut i: usize = 0;
    assert(cs@.take(0) =~= Seq::<char>::empty());
    while i < cs.len()
        invariant
            i <= cs@.len(),
            sum == utf8_len(cs@.take(i as int)),
            sum <= u32::MAX,
        decreases cs@.len() - i,
    {
        proof {
            lemma_utf8_len_take_step_pub(cs@, i as int);
        }
        let w = char_utf8_len(cs[i]) as u64;
        if sum + w > u32::MAX as u64 {
            proof {
                lemma_utf8_len_concat(cs@.take(i + 1), cs@.skip(i + 1));
                assert(cs@.take(i + 1) + cs@.skip(i + 1) =~= cs@);
            }
            return false;
        }
        sum = sum + w;
        i = i + 1;
    }
    assert(cs@.take(i as int) =~= cs@);
    true
}

} // verus!
