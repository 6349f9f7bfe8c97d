//! Character-level helpers shared by the lexer, the parser and the matcher.
//!
//! Text is modelled as `Seq<char>`. Token spans are byte offsets into the
//! UTF-8 encoding of the text; the positions of substrings and captures
//! count characters. On ASCII text the two coincide.

use vstd::prelude::*;
use vstd::string::StringSliceAdditionalSpecFns;
use vstd::utf8::{char_is_scalar, encode_scalar, encode_utf8};

verus! {

/// Whether a character beyond the ASCII range has the Unicode general
/// category `Nd`, `Nl` or `No`. Stands for the result of
/// `char::is_numeric` on such a character.
pub uninterp spec fn numeric_beyond_ascii(c: char) -> bool;

/// Whether `c` has the Unicode general category `Nd`, `Nl` or `No`: in
/// the ASCII range these are the digits `0` to `9`.
pub open spec fn is_numeric_char(c: char) -> bool {
    if (c as u32) < 0x80 {
        0x30 <= (c as u32) <= 0x39
    } else {
        numeric_beyond_ascii(c)
    }
}

/// Whether `c` has the Unicode property `White_Space`.
pub open spec fn is_whitespace_char(c: char) -> bool {
    let v = c as u32;
    ||| 0x09 <= v <= 0x0D
    ||| v == 0x20
    ||| v == 0x85
    ||| v == 0xA0
    ||| v == 0x1680
    ||| 0x2000 <= v <= 0x200A
    ||| v == 0x2028
    ||| v == 0x2029
    ||| v == 0x202F
    ||| v == 0x205F
    ||| v == 0x3000
}

/// `char::is_numeric` tells whether the character has one of the general
/// categories for numbers, `Nd`, `Nl` or `No`. In the ASCII range those
/// are the ten digits; beyond it the result is a function of the
/// character alone and is given the name [`numeric_beyond_ascii`].
pub assume_specification[ char::is_numeric ](c: char) -> (b: bool)
    ensures
        b == is_numeric_char(c),
        (c as u32) >= 0x80 ==> b == numeric_beyond_ascii(c),
;

/// `char::is_whitespace` tells whether the character has the property
/// `White_Space` of the Unicode Character Database: the controls U+0009 to
/// U+000D, the space, U+0085, U+00A0, U+1680, U+2000 to U+200A, U+2028,
/// U+2029, U+202F, U+205F and U+3000.
pub assume_specification[ char::is_whitespace ](c: char) -> (b: bool)
    ensures
        b == is_whitespace_char(c),
;

/// `String::push` appends the given character to the end of the string.
pub assume_specification[ String::push ](s: &mut String, c: char)
    ensures
        final(s)@ == old(s)@.push(c),
;

/// The characters of `s`, in order.
pub fn to_chars(s: &str) -> (v: Vec<char>)
    ensures
        v@ == s@,
{
    let mut v: Vec<char> = Vec::new();
    for c in it: s.chars()
        invariant
            v@ == it.seq().take(it.index() as int),
    {
        v.push(c);
    }
    v
}

/// The string made of `chars[start..end]`; an out-of-range or inverted
/// range is clipped to the characters that exist.
pub fn string_of(chars: &Vec<char>, start: usize, end: usize) -> (s: String)
    ensures
        s@ == clipped(chars@, start as int, end as int),
{
    let stop: usize = if end < chars.len() { end } else { chars.len() };
    let mut s = String::new();
    let mut i: usize = start;
    if start >= stop {
        return s;
    }
    while i < stop
        invariant
            start <= i <= stop <= chars.len(),
            stop == if end < chars.len() { end } else { chars.len() },
            s@ == chars@.subrange(start as int, i as int),
        decreases stop - i,
    {
        s.push(chars[i]);
        i = i + 1;
    }
    s
}

/// `s[start..end]`, clipped to the positions that exist: empty when the
/// range is inverted or begins past the end.
pub open spec fn clipped(s: Seq<char>, start: int, end: int) -> Seq<char> {
    let stop = if end < s.len() { end } else { s.len() as int };
    if 0 <= start < stop {
        s.subrange(start, stop)
    } else {
        Seq::empty()
    }
}

/// `needle` occurs in `hay` at position `i`.
pub open spec fn occurs_at(hay: Seq<char>, needle: Seq<char>, i: int) -> bool {
    &&& 0 <= i
    &&& i + needle.len() <= hay.len()
    &&& hay.subrange(i, i + needle.len()) == needle
}

/// The leftmost position at or after `from` where `needle` occurs in `hay`.
pub open spec fn occurrence_from(hay: Seq<char>, needle: Seq<char>, from: int) -> Option<int>
    decreases hay.len() - from,
{
    if from < 0 || from + needle.len() > hay.len() {
        None
    } else if occurs_at(hay, needle, from) {
        Some(from)
    } else if from < hay.len() {
        occurrence_from(hay, needle, from + 1)
    } else {
        None
    }
}

/// The leftmost position where `needle` occurs in `hay`. The empty needle
/// occurs at position 0 of every text.
pub open spec fn leftmost_occurrence(hay: Seq<char>, needle: Seq<char>) -> Option<int> {
    occurrence_from(hay, needle, 0)
}

/// `occurrence_from` finds an occurrence exactly when one exists at or
/// after `from`, and the one it finds has none before it.
pub proof fn lemma_occurrence_from(hay: Seq<char>, needle: Seq<char>, from: int)
    requires
        0 <= from,
    ensures
        match occurrence_from(hay, needle, from) {
            Some(i) => {
                &&& from <= i
                &&& occurs_at(hay, needle, i)
                &&& forall|j: int| from <= j < i ==> !occurs_at(hay, needle, j)
            },
            None => forall|j: int| from <= j ==> !occurs_at(hay, needle, j),
        },
    decreases hay.len() - from,
{
    if from + needle.len() > hay.len() {
    } else if occurs_at(hay, needle, from) {
    } else if from < hay.len() {
        lemma_occurrence_from(hay, needle, from + 1);
    } else {
        assert(hay.subrange(from, from + needle.len()) =~= needle);
    }
}

/// Whether `hay[at..]` begins with `needle`.
fn matches_at(hay: &Vec<char>, needle: &Vec<char>, at: usize) -> (b: bool)
    requires
        at + needle.len() <= hay.len(),
    ensures
        b == occurs_at(hay@, needle@, at as int),
{
    let n: usize = needle.len();
    let mut k: usize = 0;
    while k < n
        invariant
            n == needle.len(),
            k <= n,
            at + n <= hay.len(),
            forall|j: int| 0 <= j < k ==> hay@[at + j] == needle@[j],
        decreases n - k,
    {
        if hay[at + k] != needle[k] {
            proof {
                let w = hay@.subrange(at as int, at + n);
                assert(w[k as int] == hay@[at + k]);
            }
            return false;
        }
        k = k + 1;
    }
    assert(hay@.subrange(at as int, at + n) =~= needle@);
    true
}

/// The leftmost position where `needle` occurs in `hay`.
pub fn find_chars(hay: &Vec<char>, needle: &Vec<char>) -> (r: Option<usize>)
    ensures
        match r {
            Some(i) => leftmost_occurrence(hay@, needle@) == Some(i as int) && i + needle@.len()
                <= hay@.len(),
            None => leftmost_occurrence(hay@, needle@) is None,
        },
{
    if needle.len() > hay.len() {
        return None;
    }
    let last: usize = hay.len() - needle.len();
    let mut i: usize = 0;
    loop
        invariant
            last == hay.len() - needle.len(),
            i <= last,
            occurrence_from(hay@, needle@, i as int) == leftmost_occurrence(hay@, needle@),
        decreases last - i,
    {
        if matches_at(hay, needle, i) {
            return Some(i);
        }
        if i == last {
            assert(occurrence_from(hay@, needle@, i + 1) is None);
            return None;
        }
        i = i + 1;
    }
}

/// The first position at or after `i` that holds no whitespace, or the
/// length of `s` if only whitespace follows.
pub open spec fn skip_whitespace(s: Seq<char>, i: int) -> int
    decreases s.len() - i,
{
    if 0 <= i < s.len() && is_whitespace_char(s[i]) {
        skip_whitespace(s, i + 1)
    } else {
        i
    }
}

/// The end of `s[from..j]` once the whitespace at its end is dropped.
pub open spec fn drop_whitespace(s: Seq<char>, from: int, j: int) -> int
    decreases j,
{
    if 0 <= from < j <= s.len() && is_whitespace_char(s[j - 1]) {
        drop_whitespace(s, from, j - 1)
    } else {
        j
    }
}

/// `s` without the whitespace at its beginning and at its end.
pub open spec fn trimmed(s: Seq<char>) -> Seq<char> {
    let a = skip_whitespace(s, 0);
    let b = drop_whitespace(s, a, s.len() as int);
    s.subrange(a, b)
}

/// The string made of `chars[start..end]` without the whitespace at its
/// beginning and at its end.
pub fn trimmed_string(chars: &Vec<char>, start: usize, end: usize) -> (s: String)
    requires
        start <= end <= chars.len(),
    ensures
        s@ == trimmed(chars@.subrange(start as int, end as int)),
{
    let ghost part = chars@.subrange(start as int, end as int);
    let mut a: usize = start;
    while a < end && chars[a].is_whitespace()
        invariant
            start <= a <= end <= chars.len(),
            part == chars@.subrange(start as int, end as int),
            skip_whitespace(part, a - start) == skip_whitespace(part, 0),
        decreases end - a,
    {
        assert(part[a - start] == chars@[a as int]);
        a = a + 1;
    }
    assert(skip_whitespace(part, 0) == a - start) by {
        if a < end {
            assert(part[a - start] == chars@[a as int]);
        }
    }
    let mut b: usize = end;
    while b > a && chars[b - 1].is_whitespace()
        invariant
            start <= a <= b <= end <= chars.len(),
            part == chars@.subrange(start as int, end as int),
            drop_whitespace(part, a - start, b - start) == drop_whitespace(
                part,
                a - start,
                part.len() as int,
            ),
        decreases b,
    {
        assert(part[b - 1 - start] == chars@[b - 1]);
        b = b - 1;
    }
    assert(drop_whitespace(part, a - start, part.len() as int) == b - start) by {
        if b > a {
            assert(part[b - 1 - start] == chars@[b - 1]);
        }
    }
    let s = string_of(chars, a, b);
    assert(s@ =~= trimmed(part));
    s
}

/// The number of bytes that `c` takes in UTF-8.
pub open spec fn utf8_width(c: char) -> nat {
    encode_scalar(c as u32).len()
}

/// The byte offset at which the character at position `i` of `s` begins
/// in the UTF-8 encoding of `s`; for `i == s.len()`, the length of the
/// encoding.
pub open spec fn byte_offset(s: Seq<char>, i: int) -> int
    decreases i,
{
    if i <= 0 {
        0
    } else {
        byte_offset(s, i - 1) + utf8_width(s[i - 1])
    }
}

/// The length in bytes of the UTF-8 encoding of `s`.
pub open spec fn byte_len(s: Seq<char>) -> int {
    byte_offset(s, s.len() as int)
}

/// The first position at or after `i` whose character begins at byte
/// offset `offset` or later; the length of `s` if there is none.
pub open spec fn char_index_from(s: Seq<char>, offset: int, i: int) -> int
    decreases s.len() - i,
{
    if i < 0 || i >= s.len() {
        s.len() as int
    } else if byte_offset(s, i) >= offset {
        i
    } else {
        char_index_from(s, offset, i + 1)
    }
}

/// The characters of `s` that begin at byte offsets from `from` up to,
/// and not including, `to`: what slicing the encoded text by these two
/// offsets gives where both lie between characters.
pub open spec fn byte_slice(s: Seq<char>, from: int, to: int) -> Seq<char> {
    let a = char_index_from(s, from, 0);
    let b = char_index_from(s, to, 0);
    if a < b {
        s.subrange(a, b)
    } else {
        Seq::empty()
    }
}

/// A character takes between one and four bytes.
pub proof fn lemma_utf8_width_bounds(c: char)
    ensures
        1 <= utf8_width(c) <= 4,
{
}

/// Byte offsets grow with positions, by at least one byte for each
/// character.
pub proof fn lemma_byte_offset_grows(s: Seq<char>, i: int, j: int)
    requires
        0 <= i <= j,
    ensures
        byte_offset(s, i) + (j - i) <= byte_offset(s, j),
        0 <= byte_offset(s, i),
    decreases j,
{
    if i < j {
        lemma_byte_offset_grows(s, i, j - 1);
        lemma_utf8_width_bounds(s[j - 1]);
    } else if i > 0 {
        lemma_byte_offset_grows(s, 0, i - 1);
        lemma_utf8_width_bounds(s[i - 1]);
    }
}

proof fn lemma_encode_push(a: Seq<char>, c: char)
    ensures
        encode_utf8(a.push(c)) == encode_utf8(a) + encode_scalar(c as u32),
    decreases a.len(),
{
    if a.len() == 0 {
        let t = a.push(c);
        assert(t[0] == c);
        assert(t.drop_first() =~= Seq::<char>::empty());
        assert(encode_utf8(t.drop_first()) =~= Seq::<u8>::empty());
        assert(encode_utf8(a) =~= Seq::<u8>::empty());
        assert(encode_utf8(t) == encode_scalar(t[0] as u32) + encode_utf8(t.drop_first()));
        assert(encode_utf8(t) =~= encode_utf8(a) + encode_scalar(c as u32));
    } else {
        lemma_encode_push(a.drop_first(), c);
        assert(a.push(c).drop_first() =~= a.drop_first().push(c));
        assert(encode_utf8(a.push(c)) =~= encode_utf8(a) + encode_scalar(c as u32));
    }
}

/// The byte offset of a position is the length of the encoding of the
/// characters before it.
pub proof fn lemma_byte_offset_encodes(s: Seq<char>, i: int)
    requires
        0 <= i <= s.len(),
    ensures
        byte_offset(s, i) == encode_utf8(s.take(i)).len(),
    decreases i,
{
    if i > 0 {
        lemma_byte_offset_encodes(s, i - 1);
        lemma_encode_push(s.take(i - 1), s[i - 1]);
        assert(s.take(i) =~= s.take(i - 1).push(s[i - 1]));
    } else {
        assert(s.take(0) =~= Seq::<char>::empty());
    }
}

/// The length in bytes of a text is the length of its UTF-8 encoding.
pub proof fn lemma_byte_len_encodes(s: Seq<char>)
    ensures
        byte_len(s) == encode_utf8(s).len(),
{
    lemma_byte_offset_encodes(s, s.len() as int);
    assert(s.take(s.len() as int) =~= s);
}

/// The number of bytes that `c` takes in UTF-8.
pub fn utf8_width_of(c: char) -> (w: usize)
    ensures
        w == utf8_width(c),
{
    proof {
        char_is_scalar(c);
    }
    let v: u32 = c as u32;
    if v <= 0x7F {
        1
    } else if v <= 0x7FF {
        2
    } else if v <= 0xFFFF {
        3
    } else {
        4
    }
}

/// The characters of `s` and the byte offset at which each begins,
/// followed by the length of `s` in bytes.
pub fn char_offsets(s: &str) -> (r: (Vec<char>, Vec<usize>))
    ensures
        r.0@ == s@,
        r.1@.len() == s@.len() + 1,
        forall|i: int| 0 <= i <= s@.len() ==> r.1@[i] == byte_offset(s@, i),
{
    let chars = to_chars(s);
    let total: usize = s.as_bytes().len();
    proof {
        lemma_byte_len_encodes(s@);
        assert(byte_len(s@) == s.spec_bytes().len());
        assert(byte_len(s@) == total);
    }
    let n: usize = chars.len();
    let mut offsets: Vec<usize> = Vec::new();
    let mut offset: usize = 0;
    let mut i: usize = 0;
    offsets.push(0);
    while i < n
        invariant
            n == chars@.len(),
            chars@ == s@,
            i <= n,
            byte_len(s@) == total,
            offset == byte_offset(s@, i as int),
            offsets@.len() == i + 1,
            forall|k: int| 0 <= k <= i ==> offsets@[k] == byte_offset(s@, k),
        decreases n - i,
    {
        proof {
            lemma_byte_offset_grows(s@, i + 1, n as int);
        }
        let width: usize = utf8_width_of(chars[i]);
        offset = offset + width;
        offsets.push(offset);
        i = i + 1;
    }
    (chars, offsets)
}

/// The first position whose character begins at byte offset `offset` or
/// later, where `offsets` holds the byte offset of every position of `s`.
pub(crate) fn char_index_at(
    offsets: &Vec<usize>,
    offset: usize,
    Ghost(s): Ghost<Seq<char>>,
) -> (index: usize)
    requires
        offsets@.len() == s.len() + 1,
        forall|i: int| 0 <= i <= s.len() ==> offsets@[i] == byte_offset(s, i),
    ensures
        index == char_index_from(s, offset as int, 0),
        index <= s.len(),
{
    let n: usize = offsets.len() - 1;
    let mut i: usize = 0;
    while i < n
        invariant
            n == s.len(),
            offsets@.len() == n + 1,
            forall|k: int| 0 <= k <= s.len() ==> offsets@[k] == byte_offset(s, k),
            i <= n,
            char_index_from(s, offset as int, i as int) == char_index_from(s, offset as int, 0),
        decreases n - i,
    {
        if offsets[i] >= offset {
            return i;
        }
        i = i + 1;
    }
    n
}

} // verus!
