//! What the name of a file tells of it.

use crate::text::{chars_of, lower_ascii_text, reads_as, texts, to_lower_ascii};
use vstd::prelude::*;
use vstd::slice::slice_subrange;

verus! {

/// The last position of the character `c` in `s`, or -1 where there is none.
pub open spec fn last_char(s: Seq<char>, c: char) -> int
    decreases s.len(),
{
    if s.len() == 0 {
        -1
    } else if s.last() == c {
        s.len() - 1
    } else {
        last_char(s.drop_last(), c)
    }
}

/// The part of a file name after its last dot. A dot in front begins no extension.
pub open spec fn extension(name: Seq<char>) -> Option<Seq<char>> {
    let dot = last_char(name, '.');
    if dot > 0 {
        Some(name.skip(dot + 1))
    } else {
        None
    }
}

/// The part of a file name before its extension.
pub open spec fn stem(name: Seq<char>) -> Seq<char> {
    let dot = last_char(name, '.');
    if dot > 0 {
        name.take(dot)
    } else {
        name
    }
}

/// The kinds of files of a rip.
#[derive(Clone, Copy, Debug, PartialEq, Eq, Structural)]
pub enum FileKind {
    /// The sectors of a disc or a track.
    Bin,
    /// A sheet.
    Cue,
    /// Subcode graphics.
    Cdg,
    /// Anything else.
    Other,
}

/// The kind of a file, by its extension in any case of the ASCII letters.
pub open spec fn kind_of(name: Seq<char>) -> FileKind {
    match extension(name) {
        Some(ext) => {
            let lower = lower_ascii_text(ext);
            if lower == "bin"@ {
                FileKind::Bin
            } else if lower == "cue"@ {
                FileKind::Cue
            } else if lower == "cdg"@ {
                FileKind::Cdg
            } else {
                FileKind::Other
            }
        },
        None => FileKind::Other,
    }
}

/// How many of the names are of a kind.
pub open spec fn count_kind(names: Seq<Seq<char>>, kind: FileKind) -> nat {
    names.filter(|n: Seq<char>| kind_of(n) == kind).len()
}

pub proof fn lemma_last_char_is(s: Seq<char>, c: char, at: int)
    requires
        -1 <= at < s.len(),
        at >= 0 ==> s[at] == c,
        forall|j: int| at < j < s.len() ==> s[j] != c,
    ensures
        last_char(s, c) == at,
    decreases s.len(),
{
    if s.len() > 0 && at < s.len() - 1 {
        assert(s[s.len() - 1] != c);
        lemma_last_char_is(s.drop_last(), c, at);
    }
}

/// The extension and the stem of a name that was put together from them.
pub proof fn lemma_kind_of_joined(front: Seq<char>, ext: Seq<char>)
    requires
        front.len() > 0,
        !ext.contains('.'),
    ensures
        extension(front + seq!['.'] + ext) == Some(ext),
        stem(front + seq!['.'] + ext) == front,
{
    let name = front + seq!['.'] + ext;
    let dot = front.len() as int;
    assert forall|j: int| dot < j < name.len() implies name[j] != '.' by {
        assert(name[j] == ext[j - dot - 1]);
        assert(ext.contains(ext[j - dot - 1]));
    }
    lemma_last_char_is(name, '.', dot);
    assert(name.skip(dot + 1) =~= ext);
    assert(name.take(dot) =~= front);
}

/// The position of the dot that begins the extension, if there is one.
fn extension_dot(name: &[char]) -> (r: Option<usize>)
    ensures
        match r {
            Some(dot) => last_char(name@, '.') == dot && 0 < dot < name@.len(),
            None => last_char(name@, '.') <= 0,
        },
{
    let mut i: usize = name.len();
    while i > 0
        invariant
            i <= name@.len(),
            forall|j: int| i <= j < name@.len() ==> name@[j] != '.',
        decreases i,
    {
        i -= 1;
        if name[i] == '.' {
            proof {
                lemma_last_char_is(name@, '.', i as int);
            }
            return if i > 0 {
                Some(i)
            } else {
                None
            };
        }
    }
    proof {
        lemma_last_char_is(name@, '.', -1);
    }
    None
}

/// `Path::file_stem` on a file name.
pub(crate) fn stem_of(name: &[char]) -> (r: &[char])
    ensures
        r@ == stem(name@),
{
    match extension_dot(name) {
        Some(dot) => slice_subrange(name, 0, dot),
        None => name,
    }
}

/// The kind of a file, by the extension of its name.
pub fn file_kind(name: &str) -> (kind: FileKind)
    ensures
        kind == kind_of(name@),
{
    let cs = chars_of(name);
    let cs = cs.as_slice();
    let len: usize = cs.len();
    let dot = match extension_dot(cs) {
        Some(dot) => dot,
        None => {
            return FileKind::Other;
        },
    };
    let ext = slice_subrange(cs, dot + 1, len);
    assert(ext@ =~= name@.skip(dot + 1));
    let mut lower: Vec<char> = Vec::new();
    for i in 0..ext.len()
        invariant
            lower@ == lower_ascii_text(ext@.take(i as int)),
    {
        lower.push(to_lower_ascii(ext[i]));
        assert(lower@ =~= lower_ascii_text(ext@.take(i + 1)));
    }
    assert(ext@.take(ext@.len() as int) =~= ext@);
    let lower = lower.as_slice();
    if reads_as(lower, "bin") {
        FileKind::Bin
    } else if reads_as(lower, "cue") {
        FileKind::Cue
    } else if reads_as(lower, "cdg") {
        FileKind::Cdg
    } else {
        FileKind::Other
    }
}

/// The position of the first name of a kind.
pub open spec fn first_of_kind(names: Seq<Seq<char>>, kind: FileKind) -> Option<int>
    decreases names.len(),
{
    if names.len() == 0 {
        None
    } else if kind_of(names[0]) == kind {
        Some(0)
    } else {
        match first_of_kind(names.skip(1), kind) {
            Some(i) => Some(i + 1),
            None => None,
        }
    }
}

pub proof fn lemma_first_of_kind_is(names: Seq<Seq<char>>, kind: FileKind, at: int)
    requires
        0 <= at <= names.len(),
        at < names.len() ==> kind_of(names[at]) == kind,
        forall|j: int| 0 <= j < at ==> kind_of(#[trigger] names[j]) != kind,
    ensures
        first_of_kind(names, kind) == (if at < names.len() {
            Some(at)
        } else {
            None
        }),
    decreases names.len(),
{
    if at > 0 {
        assert(kind_of(names[0]) != kind);
        let rest = names.skip(1);
        assert forall|j: int| 0 <= j < at - 1 implies kind_of(#[trigger] rest[j]) != kind by {
            assert(kind_of(names[j + 1]) != kind);
        }
        if at < names.len() {
            assert(rest[at - 1] == names[at]);
        }
        lemma_first_of_kind_is(rest, kind, at - 1);
    }
}

/// Counts the names of a kind.
pub(crate) fn count_files(names: &Vec<String>, kind: FileKind) -> (n: usize)
    ensures
        n == count_kind(texts(names@), kind),
{
    let ghost all = texts(names@);
    let ghost pred = |n: Seq<char>| kind_of(n) == kind;
    let mut n: usize = 0;
    assert(all.take(0).filter(pred).len() == 0) by {
        reveal(Seq::filter);
    }
    for i in 0..names.len()
        invariant
            all == texts(names@),
            pred == (|n: Seq<char>| kind_of(n) == kind),
            n == all.take(i as int).filter(pred).len(),
            n <= i,
    {
        proof {
            let next = all.take(i + 1);
            assert(next.drop_last() =~= all.take(i as int));
            assert(next.last() == names@[i as int]@);
            reveal(Seq::filter);
        }
        if file_kind(names[i].as_str()) == kind {
            n += 1;
        }
    }
    assert(all.take(all.len() as int) =~= all);
    n
}

/// Finds the first name of a kind.
pub(crate) fn find_kind(names: &Vec<String>, kind: FileKind) -> (r: Option<usize>)
    ensures
        match r {
            Some(i) => i < names@.len() && first_of_kind(texts(names@), kind) == Some(i as int),
            None => first_of_kind(texts(names@), kind) is None,
        },
{
    let ghost all = texts(names@);
    for i in 0..names.len()
        invariant
            all == texts(names@),
            forall|j: int| 0 <= j < i ==> kind_of(#[trigger] all[j]) != kind,
    {
        assert(all[i as int] == names@[i as int]@);
        if file_kind(names[i].as_str()) == kind {
            proof {
                lemma_first_of_kind_is(all, kind, i as int);
            }
            return Some(i);
        }
    }
    proof {
        lemma_first_of_kind_is(all, kind, all.len() as int);
    }
    None
}

} // verus!
