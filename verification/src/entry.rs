//! What the walker finds: a path and the kind of thing it names.

use vstd::prelude::*;
use vstd::std_specs::iter::IteratorSpec;
use crate::order::Ranked;

verus! {

/// The kind of a filesystem entry. `Any` stands for "no restriction" in a
/// query; no entry found on disk has it.
#[derive(Clone, Copy, Debug, PartialEq, Eq, Structural)]
pub enum FileMode {
    File,
    Dir,
    Link,
    Any,
}

/// The number that stands for `mode` in a record.
pub open spec fn mode_tag(mode: FileMode) -> nat {
    match mode {
        FileMode::Dir => 0,
        FileMode::File => 1,
        FileMode::Link => 2,
        FileMode::Any => 4,
    }
}

/// The kind that `tag` stands for.
pub open spec fn tag_mode(tag: nat) -> FileMode {
    if tag == 0 {
        FileMode::Dir
    } else if tag == 1 {
        FileMode::File
    } else if tag == 2 {
        FileMode::Link
    } else {
        FileMode::Any
    }
}

/// Whether `tag` stands for a kind.
pub open spec fn is_mode_tag(tag: nat) -> bool {
    tag == 0 || tag == 1 || tag == 2 || tag == 4
}

/// The name of `mode`.
pub open spec fn mode_name(mode: FileMode) -> Seq<char> {
    match mode {
        FileMode::Dir => "Dir"@,
        FileMode::File => "File"@,
        FileMode::Link => "Link"@,
        FileMode::Any => "Any"@,
    }
}

impl FileMode {
    /// The name of this kind, as it is shown.
    pub fn to_string(&self) -> (name: String)
        ensures
            name@ == mode_name(*self),
    {
        match self {
            FileMode::Dir => "Dir".to_string(),
            FileMode::File => "File".to_string(),
            FileMode::Link => "Link".to_string(),
            FileMode::Any => "Any".to_string(),
        }
    }

    /// Whether `value` is the tag of a kind.
    pub fn is_tag(value: usize) -> (valid: bool)
        ensures
            valid == is_mode_tag(value as nat),
    {
        value == 0 || value == 1 || value == 2 || value == 4
    }

    /// The tag of this kind.
    pub fn as_usize(&self) -> (tag: usize)
        ensures
            tag == mode_tag(*self),
            is_mode_tag(tag as nat),
    {
        match self {
            FileMode::Dir => 0,
            FileMode::File => 1,
            FileMode::Link => 2,
            FileMode::Any => 4,
        }
    }

    /// The kind that `value` stands for. A value that is no tag has no kind:
    /// callers test with `is_tag` first.
    pub fn from_usize(value: usize) -> (mode: FileMode)
        requires
            is_mode_tag(value as nat),
        ensures
            mode == tag_mode(value as nat),
            mode_tag(mode) == value,
    {
        if value == 0 {
            FileMode::Dir
        } else if value == 1 {
            FileMode::File
        } else if value == 2 {
            FileMode::Link
        } else {
            FileMode::Any
        }
    }
}

/// `a` stands at or before `b` in the order of texts: character by
/// character by code, a text before every longer one that begins with it.
pub open spec fn text_le(a: Seq<char>, b: Seq<char>) -> bool
    decreases a.len(),
{
    if a.len() == 0 {
        true
    } else if b.len() == 0 {
        false
    } else if a[0] != b[0] {
        (a[0] as u32) < (b[0] as u32)
    } else {
        text_le(a.drop_first(), b.drop_first())
    }
}

/// Two characters with one code are one character.
pub proof fn lemma_code_decides(c: char, d: char)
    ensures
        c as u32 == d as u32 ==> c == d,
{
    assert((c as u32) as char == c);
    assert((d as u32) as char == d);
}

/// Of two texts one stands at or before the other.
pub proof fn lemma_text_le_total(a: Seq<char>, b: Seq<char>)
    ensures
        text_le(a, b) || text_le(b, a),
    decreases a.len(),
{
    if a.len() > 0 && b.len() > 0 {
        if a[0] == b[0] {
            lemma_text_le_total(a.drop_first(), b.drop_first());
        } else {
            lemma_code_decides(a[0], b[0]);
        }
    }
}

/// The order of texts carries over a text in between.
pub proof fn lemma_text_le_transitive(a: Seq<char>, b: Seq<char>, c: Seq<char>)
    requires
        text_le(a, b),
        text_le(b, c),
    ensures
        text_le(a, c),
    decreases a.len(),
{
    if a.len() > 0 && b.len() > 0 && c.len() > 0 && a[0] == b[0] && b[0] == c[0] {
        lemma_text_le_transitive(a.drop_first(), b.drop_first(), c.drop_first());
    }
}

/// Two texts that each stand at or before the other are the same text.
pub proof fn lemma_text_le_antisymmetric(a: Seq<char>, b: Seq<char>)
    requires
        text_le(a, b),
        text_le(b, a),
    ensures
        a == b,
    decreases a.len(),
{
    if a.len() > 0 && b.len() > 0 {
        lemma_text_le_antisymmetric(a.drop_first(), b.drop_first());
        assert(a =~= seq![a[0]] + a.drop_first());
        assert(b =~= seq![b[0]] + b.drop_first());
    } else {
        assert(a =~= b);
    }
}

/// Whether the code of `c` is below that of `d`.
pub fn code_below(c: char, d: char) -> (below: bool)
    ensures
        below == ((c as u32) < (d as u32)),
{
    c < d
}

/// Whether `a` stands at or before `b` in the order of texts.
pub fn str_le(a: &str, b: &str) -> (le: bool)
    ensures
        le == text_le(a@, b@),
{
    let mut rest_a = a.chars();
    let mut rest_b = b.chars();
    loop
        invariant
            text_le(a@, b@) == text_le(rest_a.remaining(), rest_b.remaining()),
            rest_a.decrease() is Some,
        decreases rest_a.decrease()->0,
    {
        match rest_a.next() {
            None => {
                return true;
            },
            Some(c) => match rest_b.next() {
                None => {
                    return false;
                },
                Some(d) => {
                    if c != d {
                        proof {
                            lemma_code_decides(c, d);
                        }
                        return code_below(c, d);
                    }
                },
            },
        }
    }
}

/// An entry found on disk: its path and what kind of thing it is.
#[derive(Clone, Debug, PartialEq, Eq)]
pub struct FileHit {
    pub path: String,
    pub mode: FileMode,
}

/// An entry with its path as a sequence of characters.
pub struct Entry {
    pub path: Seq<char>,
    pub mode: FileMode,
}

impl View for FileHit {
    type V = Entry;

    open spec fn view(&self) -> Entry {
        Entry { path: self.path@, mode: self.mode }
    }
}

/// The entries that `hits` holds, in order.
pub open spec fn entries_of(hits: Seq<FileHit>) -> Seq<Entry> {
    hits.map_values(|hit: FileHit| hit@)
}

/// Entries are ranked by path.
impl Ranked for FileHit {
    open spec fn ranks_before(&self, other: &Self) -> bool {
        text_le(self.path@, other.path@)
    }

    proof fn lemma_rank_total(a: &Self, b: &Self) {
        lemma_text_le_total(a.path@, b.path@);
    }

    proof fn lemma_rank_transitive(a: &Self, b: &Self, c: &Self) {
        lemma_text_le_transitive(a.path@, b.path@, c.path@);
    }

    fn before(&self, other: &Self) -> (first: bool) {
        str_le(self.path.as_str(), other.path.as_str())
    }
}

} // verus!
