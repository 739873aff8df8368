//! Text as sequences of characters: case folding, white space, and the
//! literal tests (suffix, substring, final path segment) that matching uses.

use vstd::prelude::*;

verus! {

/// The lower-case form of `text`, as the standard library computes it.
pub uninterp spec fn lowercase(text: Seq<char>) -> Seq<char>;

/// Whether `c` has the Unicode property White_Space.
pub uninterp spec fn is_white_space(c: char) -> bool;

/// `str::to_lowercase`: the result is the lower-case form of the argument,
/// a function of its characters alone. Nothing else is claimed of it.
pub assume_specification[ str::to_lowercase ](s: &str) -> (lower: String)
    ensures
        lower@ == lowercase(s@),
;

/// `char::is_whitespace`: the result says whether the character has the
/// property White_Space, a function of the character alone.
pub assume_specification[ char::is_whitespace ](c: char) -> (white: bool)
    ensures
        white == is_white_space(c),
;

/// `String::push`: appends the character to the end of the string.
pub assume_specification[ String::push ](s: &mut String, ch: char)
    ensures
        final(s)@ == old(s)@.push(ch),
;

/// A number that is the code of a character: any up to 0x10FFFF outside the
/// surrogate range.
pub open spec fn is_scalar_value(code: u32) -> bool {
    code < 0xD800 || (0xE000 <= code && code <= 0x10FFFF)
}

/// `char::from_u32`: the character with the given code, where the code is
/// that of a character, and `None` where it is not.
pub assume_specification[ char::from_u32 ](i: u32) -> (c: Option<char>)
    ensures
        c == if is_scalar_value(i) {
            Some(i as char)
        } else {
            None::<char>
        },
;

/// The characters of `s`.
pub fn chars_of(s: &str) -> (chars: Vec<char>)
    ensures
        chars@ == s@,
{
    let mut chars: Vec<char> = Vec::new();
    for c in it: s.chars()
        invariant
            chars@ == it.seq().take(it.index() as int),
            it.seq() == s@,
    {
        chars.push(c);
    }
    chars
}

/// The string that holds `chars`.
pub fn string_of(chars: &[char]) -> (s: String)
    ensures
        s@ == chars@,
{
    let mut s = String::new();
    let mut i: usize = 0;
    while i < chars.len()
        invariant
            i <= chars.len(),
            s@ == chars@.take(i as int),
        decreases chars.len() - i,
    {
        s.push(chars[i]);
        i += 1;
    }
    s
}

/// The characters of `chars` from `from` up to `to`.
pub fn piece(chars: &[char], from: usize, to: usize) -> (part: Vec<char>)
    requires
        from <= to <= chars.len(),
    ensures
        part@ == chars@.subrange(from as int, to as int),
{
    let mut part: Vec<char> = Vec::new();
    let mut i: usize = from;
    while i < to
        invariant
            from <= i <= to,
            to <= chars.len(),
            part@ == chars@.subrange(from as int, i as int),
        decreases to - i,
    {
        part.push(chars[i]);
        i += 1;
    }
    part
}

/// `text` as it is compared: in lower case where case is ignored, unchanged
/// otherwise.
pub open spec fn folded(ignore_case: bool, text: Seq<char>) -> Seq<char> {
    if ignore_case {
        lowercase(text)
    } else {
        text
    }
}

/// The characters of `text` as they are compared.
pub fn fold(ignore_case: bool, text: &str) -> (chars: Vec<char>)
    ensures
        chars@ == folded(ignore_case, text@),
{
    if ignore_case {
        let lower = text.to_lowercase();
        chars_of(lower.as_str())
    } else {
        chars_of(text)
    }
}

/// The characters `chars` as they are compared.
pub fn fold_chars(ignore_case: bool, chars: Vec<char>) -> (text: Vec<char>)
    ensures
        text@ == folded(ignore_case, chars@),
{
    if ignore_case {
        let text = string_of(chars.as_slice());
        fold(true, text.as_str())
    } else {
        chars
    }
}

/// ASCII white space: space, tab, line feed, form feed, carriage return.
pub open spec fn is_ascii_space(c: char) -> bool {
    c == ' ' || c == '\t' || c == '\n' || c == '\x0C' || c == '\r'
}

/// Whether `c` is ASCII white space.
pub fn ascii_space(c: char) -> (space: bool)
    ensures
        space == is_ascii_space(c),
{
    c == ' ' || c == '\t' || c == '\n' || c == '\x0C' || c == '\r'
}

/// A text with nothing in it but white space; the empty text is blank.
pub open spec fn blank(text: Seq<char>) -> bool {
    forall|i: int| 0 <= i < text.len() ==> is_white_space(#[trigger] text[i])
}

/// Whether `text` is blank.
pub fn is_blank(text: &[char]) -> (b: bool)
    ensures
        b == blank(text@),
{
    let mut i: usize = 0;
    while i < text.len()
        invariant
            i <= text.len(),
            forall|j: int| 0 <= j < i ==> is_white_space(#[trigger] text@[j]),
        decreases text.len() - i,
    {
        if !text[i].is_whitespace() {
            return false;
        }
        i += 1;
    }
    true
}

/// `part` stands in `text` at position `at`.
pub open spec fn occurs_at(part: Seq<char>, text: Seq<char>, at: int) -> bool {
    &&& 0 <= at
    &&& at + part.len() <= text.len()
    &&& text.subrange(at, at + part.len()) == part
}

/// `part` stands somewhere in `text` as one unbroken piece.
pub open spec fn occurs_in(part: Seq<char>, text: Seq<char>) -> bool {
    exists|at: int| occurs_at(part, text, at)
}

/// Whether `part` stands in `text` at `at`.
pub fn found_at(part: &[char], text: &[char], at: usize) -> (found: bool)
    requires
        at + part.len() <= text.len(),
    ensures
        found == occurs_at(part@, text@, at as int),
{
    let mut i: usize = 0;
    while i < part.len()
        invariant
            i <= part.len(),
            at + part.len() <= text.len(),
            forall|j: int| 0 <= j < i ==> text@[at + j] == part@[j],
        decreases part.len() - i,
    {
        if text[at + i] != part[i] {
            assert(text@.subrange(at as int, at + part.len())[i as int] != part@[i as int]);
            return false;
        }
        i += 1;
    }
    assert(text@.subrange(at as int, at + part.len()) =~= part@);
    true
}

/// Whether `text` ends with `tail`.
pub fn ends_with(text: &[char], tail: &[char]) -> (ends: bool)
    ensures
        ends == tail@.is_suffix_of(text@),
{
    if tail.len() > text.len() {
        return false;
    }
    found_at(tail, text, text.len() - tail.len())
}

/// Whether `part` stands somewhere in `text`.
pub fn contains(text: &[char], part: &[char]) -> (inside: bool)
    ensures
        inside == occurs_in(part@, text@),
{
    if part.len() > text.len() {
        return false;
    }
    if part.len() == 0 {
        assert(occurs_at(part@, text@, 0)) by {
            assert(text@.subrange(0, 0) =~= part@);
        }
        return true;
    }
    let last: usize = text.len() - part.len();
    let mut at: usize = 0;
    while at <= last
        invariant
            at <= last + 1,
            last == text.len() - part.len(),
            last < text.len(),
            forall|k: int| 0 <= k < at ==> !occurs_at(part@, text@, k),
        decreases last + 1 - at,
    {
        if found_at(part, text, at) {
            return true;
        }
        at += 1;
    }
    false
}

/// Where the final segment of `path` begins: behind its last `/`, or at 0
/// where it has none.
pub open spec fn segment_start(path: Seq<char>) -> nat
    decreases path.len(),
{
    if path.len() == 0 {
        0
    } else if path.last() == '/' {
        path.len()
    } else {
        segment_start(path.drop_last())
    }
}

/// The final segment of `path`: what follows its last `/`, the whole of it
/// where it has none.
pub open spec fn last_segment(path: Seq<char>) -> Seq<char> {
    path.skip(segment_start(path) as int)
}

/// The final segment begins at the start or behind a `/`, and holds no `/`.
pub proof fn lemma_segment_start(path: Seq<char>)
    ensures
        segment_start(path) <= path.len(),
        segment_start(path) == 0 || path[segment_start(path) - 1] == '/',
        forall|i: int| segment_start(path) <= i < path.len() ==> path[i] != '/',
    decreases path.len(),
{
    if path.len() > 0 && path.last() != '/' {
        let front = path.drop_last();
        lemma_segment_start(front);
        assert forall|i: int| segment_start(path) <= i < path.len() implies path[i] != '/' by {
            if i < front.len() {
                assert(path[i] == front[i]);
            }
        }
    }
}

/// The final segment of `path`: the end of the path, without a `/` in it,
/// that starts behind a `/` or is the whole path.
pub fn final_segment(path: &[char]) -> (segment: Vec<char>)
    ensures
        segment@ == last_segment(path@),
        segment@.is_suffix_of(path@),
        !segment@.contains('/'),
        segment@.len() == path@.len() || path@[path@.len() - segment@.len() - 1] == '/',
{
    proof {
        lemma_segment_start(path@);
        let from = segment_start(path@) as int;
        assert(last_segment(path@) =~= path@.subrange(from, path@.len() as int));
        assert forall|i: int| 0 <= i < last_segment(path@).len() implies last_segment(path@)[i]
            != '/' by {
            assert(last_segment(path@)[i] == path@[from + i]);
        }
    }
    let mut start: usize = path.len();
    assert(path@.take(path.len() as int) =~= path@);
    while start > 0 && path[start - 1] != '/'
        invariant
            start <= path.len(),
            segment_start(path@) == segment_start(path@.take(start as int)),
        decreases start,
    {
        assert(path@.take(start as int).drop_last() =~= path@.take(start - 1));
        start -= 1;
    }
    let mut segment: Vec<char> = Vec::new();
    let mut i: usize = start;
    while i < path.len()
        invariant
            start <= i <= path.len(),
            segment@ == path@.subrange(start as int, i as int),
        decreases path.len() - i,
    {
        segment.push(path[i]);
        i += 1;
    }
    segment
}

/// The text of a wide string: the characters of the 16-bit units that stand
/// before the first zero unit (or before the end, where none is zero). A unit
/// from the surrogate range is the code of no character and is left out.
pub open spec fn wide_text(units: Seq<u16>) -> Seq<char>
    decreases units.len(),
{
    if units.len() == 0 || units[0] == 0 {
        Seq::empty()
    } else if is_scalar_value(units[0] as u32) {
        seq![units[0] as char] + wide_text(units.drop_first())
    } else {
        wide_text(units.drop_first())
    }
}

/// Reads a zero-terminated wide string.
pub fn string_from_wstr(base: &[u16]) -> (text: String)
    ensures
        text@ == wide_text(base@),
{
    let mut buf = String::new();
    let mut i: usize = 0;
    assert(base@.skip(0) =~= base@);
    assert(buf@ + wide_text(base@) =~= wide_text(base@));
    while i < base.len() && base[i] != 0
        invariant
            i <= base.len(),
            wide_text(base@) == buf@ + wide_text(base@.skip(i as int)),
        decreases base.len() - i,
    {
        let ghost rest = base@.skip(i as int);
        assert(rest[0] == base@[i as int]);
        assert(rest.drop_first() =~= base@.skip(i + 1));
        match char::from_u32(base[i] as u32) {
            Some(c) => {
                assert(buf@.push(c) + wide_text(rest.drop_first()) =~= buf@ + (seq![c]
                    + wide_text(rest.drop_first())));
                buf.push(c);
            },
            None => {},
        }
        i += 1;
    }
    assert(buf@ + Seq::<char>::empty() =~= buf@);
    assert(i < base.len() ==> base@.skip(i as int)[0] == base@[i as int]);
    buf
}

} // verus!
