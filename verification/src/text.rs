//! Text as sequences of characters: searching, splitting, trimming and replacing.
//!
//! The specification functions say what the operations of `str` give on the view of a
//! string; the executable functions compute the same on slices of characters.

use vstd::prelude::*;
use vstd::slice::slice_subrange;
use vstd::string::StringExecFns;

verus! {

// ---------------------------------------------------------------------------
// Characters
// ---------------------------------------------------------------------------

/// The characters with the Unicode property `White_Space`.
pub open spec fn is_white_space(c: char) -> bool {
    ||| '\u{9}' <= c <= '\u{d}'
    ||| c == '\u{20}'
    ||| c == '\u{85}'
    ||| c == '\u{a0}'
    ||| c == '\u{1680}'
    ||| '\u{2000}' <= c <= '\u{200a}'
    ||| c == '\u{2028}'
    ||| c == '\u{2029}'
    ||| c == '\u{202f}'
    ||| c == '\u{205f}'
    ||| c == '\u{3000}'
}

/// Tells whether `c` has the Unicode property `White_Space`.
pub fn white_space(c: char) -> (b: bool)
    ensures
        b == is_white_space(c),
{
    ('\u{9}' <= c && c <= '\u{d}') || c == '\u{20}' || c == '\u{85}' || c == '\u{a0}' || c
        == '\u{1680}' || ('\u{2000}' <= c && c <= '\u{200a}') || c == '\u{2028}' || c == '\u{2029}'
        || c == '\u{202f}' || c == '\u{205f}' || c == '\u{3000}'
}

pub open spec fn is_digit(c: char) -> bool {
    '0' <= c <= '9'
}

/// `c` with the letters `A` to `Z` turned into `a` to `z`, every other character as it is.
pub open spec fn lower_ascii(c: char) -> char {
    if 'A' <= c <= 'Z' {
        (c as u32 + 32) as char
    } else {
        c
    }
}

/// A text with the letters `A` to `Z` turned into `a` to `z`.
pub open spec fn lower_ascii_text(s: Seq<char>) -> Seq<char> {
    s.map_values(|c: char| lower_ascii(c))
}

/// `c` with the letters `a` to `z` turned into `A` to `Z`, every other character as it is.
pub open spec fn upper_ascii(c: char) -> char {
    if 'a' <= c <= 'z' {
        (c as u32 - 32) as char
    } else {
        c
    }
}

/// A text with the letters `a` to `z` turned into `A` to `Z`.
pub open spec fn upper_ascii_text(s: Seq<char>) -> Seq<char> {
    s.map_values(|c: char| upper_ascii(c))
}

pub open spec fn is_ascii_char(c: char) -> bool {
    c <= '\u{7f}'
}

/// A text of ASCII characters.
pub open spec fn is_ascii_text(s: Seq<char>) -> bool {
    forall|i: int| 0 <= i < s.len() ==> is_ascii_char(#[trigger] s[i])
}

/// Parts of one character each make up the text of those characters.
pub proof fn lemma_flatten_singles(parts: Seq<Seq<char>>, s: Seq<char>)
    requires
        parts.len() == s.len(),
        forall|i: int| 0 <= i < s.len() ==> #[trigger] parts[i] == seq![s[i]],
    ensures
        parts.flatten() == s,
    decreases s.len(),
{
    if s.len() == 0 {
        assert(parts.flatten() =~= s);
    } else {
        let p = parts.drop_first();
        let t = s.drop_first();
        assert forall|i: int| 0 <= i < t.len() implies #[trigger] p[i] == seq![t[i]] by {
            assert(parts[i + 1] == seq![s[i + 1]]);
        }
        lemma_flatten_singles(p, t);
        assert(parts.first() == seq![s[0]]);
        assert(parts.flatten() =~= s);
    }
}

/// The view of each text of a list.
pub open spec fn texts(list: Seq<String>) -> Seq<Seq<char>> {
    list.map_values(|s: String| s@)
}

pub(crate) fn digit(c: char) -> (b: bool)
    ensures
        b == is_digit(c),
{
    '0' <= c && c <= '9'
}

pub(crate) fn to_lower_ascii(c: char) -> (r: char)
    ensures
        r == lower_ascii(c),
{
    if 'A' <= c && c <= 'Z' {
        ((c as u8) + 32) as char
    } else {
        c
    }
}

// ---------------------------------------------------------------------------
// Strings and their characters
// ---------------------------------------------------------------------------

/// Collects the characters of a string.
pub(crate) fn chars_of(s: &str) -> (cs: Vec<char>)
    ensures
        cs@ == s@,
{
    let mut cs: Vec<char> = Vec::new();
    for c in it: s.chars()
        invariant
            cs@ == it.seq().take(it.index() as int),
            it.seq() == s@,
    {
        cs.push(c);
    }
    cs
}

/// A copy of the given characters.
pub(crate) fn copy_chars(cs: &[char]) -> (v: Vec<char>)
    ensures
        v@ == cs@,
{
    let mut v: Vec<char> = Vec::new();
    for i in 0..cs.len()
        invariant
            v@ == cs@.take(i as int),
    {
        v.push(cs[i]);
    }
    assert(cs@.take(cs@.len() as int) =~= cs@);
    v
}

/// `String::push`: appends the character `c` to the end of `out`.
#[verifier::external_body]
pub(crate) fn push_char(out: &mut String, c: char)
    ensures
        final(out)@ == old(out)@.push(c),
{
    out.push(c);
}

/// Appends characters to a string.
pub(crate) fn push_chars(out: &mut String, cs: &[char])
    ensures
        final(out)@ == old(out)@ + cs@,
{
    let ghost before = out@;
    for i in 0..cs.len()
        invariant
            out@ == before + cs@.take(i as int),
    {
        push_char(out, cs[i]);
        assert(before + cs@.take(i + 1) =~= (before + cs@.take(i as int)).push(cs@[i as int]));
    }
    assert(cs@.take(cs@.len() as int) =~= cs@);
}

/// The string made of the given characters.
pub(crate) fn string_of(cs: &[char]) -> (s: String)
    ensures
        s@ == cs@,
{
    let mut out = String::new();
    push_chars(&mut out, cs);
    assert(Seq::<char>::empty() + cs@ =~= cs@);
    out
}

/// Two texts, one after the other.
pub(crate) fn concat2(a: &str, b: &str) -> (s: String)
    ensures
        s@ == a@ + b@,
{
    let mut out = a.to_owned();
    out.append(b);
    out
}

/// Three texts, one after the other.
pub(crate) fn concat3(a: &str, b: &str, c: &str) -> (s: String)
    ensures
        s@ == a@ + b@ + c@,
{
    let mut out = a.to_owned();
    out.append(b);
    out.append(c);
    out
}

/// Four texts, one after the other.
pub(crate) fn concat4(a: &str, b: &str, c: &str, d: &str) -> (s: String)
    ensures
        s@ == a@ + b@ + c@ + d@,
{
    let mut out = a.to_owned();
    out.append(b);
    out.append(c);
    out.append(d);
    out
}

/// Tells whether two texts are equal.
pub(crate) fn same_text(a: &[char], b: &[char]) -> (r: bool)
    ensures
        r == (a@ == b@),
{
    if a.len() != b.len() {
        return false;
    }
    for i in 0..a.len()
        invariant
            a@.len() == b@.len(),
            forall|j: int| 0 <= j < i ==> a@[j] == b@[j],
    {
        if a[i] != b[i] {
            return false;
        }
    }
    assert(a@ =~= b@);
    true
}

/// Tells whether the text `a` reads as `b`.
pub(crate) fn reads_as(a: &[char], b: &str) -> (r: bool)
    ensures
        r == (a@ == b@),
{
    let cs = chars_of(b);
    same_text(a, cs.as_slice())
}

// ---------------------------------------------------------------------------
// Searching
// ---------------------------------------------------------------------------

/// `p` stands in `s` at position `i`.
pub open spec fn occurs_at(s: Seq<char>, p: Seq<char>, i: int) -> bool {
    &&& 0 <= i
    &&& i + p.len() <= s.len()
    &&& s.subrange(i, i + p.len()) == p
}

/// `p` stands somewhere in `s`.
pub open spec fn occurs(s: Seq<char>, p: Seq<char>) -> bool {
    exists|i: int| occurs_at(s, p, i)
}

/// `i` is the first position at which `p` stands in `s`.
pub open spec fn occurs_first_at(s: Seq<char>, p: Seq<char>, i: int) -> bool {
    &&& occurs_at(s, p, i)
    &&& forall|j: int| 0 <= j < i ==> !occurs_at(s, p, j)
}

/// The first position at which `p` stands in `s`.
pub open spec fn find(s: Seq<char>, p: Seq<char>) -> Option<int> {
    if occurs(s, p) {
        Some(choose|i: int| occurs_first_at(s, p, i))
    } else {
        None
    }
}

/// The first position in `s`, from `from` on, of the character `c`; the length of `s` where there is none.
pub open spec fn next_char(s: Seq<char>, c: char, from: int) -> int
    decreases s.len() - from,
{
    if from < 0 || from >= s.len() {
        s.len() as int
    } else if s[from] == c {
        from
    } else {
        next_char(s, c, from + 1)
    }
}

pub proof fn lemma_next_char(s: Seq<char>, c: char, from: int)
    requires
        0 <= from <= s.len(),
    ensures
        from <= next_char(s, c, from) <= s.len(),
        next_char(s, c, from) < s.len() ==> s[next_char(s, c, from)] == c,
        forall|j: int| from <= j < next_char(s, c, from) ==> s[j] != c,
    decreases s.len() - from,
{
    if from < s.len() && s[from] != c {
        lemma_next_char(s, c, from + 1);
    }
}

/// The position found is the only one that can be.
pub proof fn lemma_next_char_is(s: Seq<char>, c: char, from: int, at: int)
    requires
        0 <= from <= at <= s.len(),
        at < s.len() ==> s[at] == c,
        forall|j: int| from <= j < at ==> s[j] != c,
    ensures
        next_char(s, c, from) == at,
    decreases at - from,
{
    if from < at {
        lemma_next_char_is(s, c, from + 1, at);
    }
}

/// The first occurrence is unique, so `find` gives it.
pub proof fn lemma_find_is(s: Seq<char>, p: Seq<char>, i: int)
    requires
        occurs_first_at(s, p, i),
    ensures
        find(s, p) == Some(i),
{
    assert(occurs(s, p));
    let k = choose|k: int| occurs_first_at(s, p, k);
    assert(occurs_first_at(s, p, k));
    if k < i {
        assert(!occurs_at(s, p, k));
    }
    if i < k {
        assert(!occurs_at(s, p, i));
    }
}

/// A pattern whose first character comes only once in it is found right after a text that does
/// not hold it.
pub proof fn lemma_find_after(front: Seq<char>, p: Seq<char>, rest: Seq<char>)
    requires
        p.len() > 0,
        !occurs(front, p),
        forall|k: int| 0 < k < p.len() ==> #[trigger] p[k] != p[0],
    ensures
        find(front + p + rest, p) == Some(front.len() as int),
{
    let s = front + p + rest;
    let at = front.len() as int;
    assert(s.subrange(at, at + p.len()) =~= p);
    assert forall|j: int| 0 <= j < at implies !occurs_at(s, p, j) by {
        if occurs_at(s, p, j) {
            let here = s.subrange(j, j + p.len());
            if j + p.len() <= at {
                assert(front.subrange(j, j + p.len()) =~= here);
                assert(occurs_at(front, p, j));
            } else {
                assert(here[at - j] == s[at]);
                assert(s[at] == p[0]);
            }
        }
    }
    lemma_find_is(s, p, at);
}

/// What `find` gives is the first occurrence.
pub proof fn lemma_find_first(s: Seq<char>, p: Seq<char>)
    requires
        occurs(s, p),
    ensures
        find(s, p) matches Some(i) && occurs_first_at(s, p, i),
{
    let k = choose|k: int| occurs_at(s, p, k);
    let i = lemma_least_occurrence(s, p, k);
    lemma_find_is(s, p, i);
}

proof fn lemma_least_occurrence(s: Seq<char>, p: Seq<char>, k: int) -> (i: int)
    requires
        occurs_at(s, p, k),
    ensures
        occurs_first_at(s, p, i),
    decreases k,
{
    if exists|j: int| 0 <= j < k && occurs_at(s, p, j) {
        let j = choose|j: int| 0 <= j < k && occurs_at(s, p, j);
        lemma_least_occurrence(s, p, j)
    } else {
        k
    }
}

/// Tells whether `p` stands in `s` at position `i`.
pub(crate) fn stands_at(s: &[char], p: &[char], i: usize) -> (b: bool)
    ensures
        b == occurs_at(s@, p@, i as int),
{
    if p.len() > s.len() || i > s.len() - p.len() {
        return false;
    }
    for k in 0..p.len()
        invariant
            i + p@.len() <= s@.len(),
            s@.len() == s.len(),
            forall|j: int| 0 <= j < k ==> s@[i + j] == p@[j],
    {
        if s[i + k] != p[k] {
            assert(s@.subrange(i as int, i + p@.len())[k as int] != p@[k as int]);
            return false;
        }
    }
    assert(s@.subrange(i as int, i + p@.len()) =~= p@);
    true
}

/// `str::find` with a text as the pattern, counted in characters.
pub(crate) fn find_text(s: &[char], p: &[char]) -> (r: Option<usize>)
    ensures
        match r {
            Some(i) => find(s@, p@) == Some(i as int) && occurs_first_at(s@, p@, i as int),
            None => find(s@, p@) is None && !occurs(s@, p@),
        },
{
    if p.len() > s.len() {
        assert(!occurs(s@, p@));
        return None;
    }
    let last: usize = s.len() - p.len();
    let mut i: usize = 0;
    while i <= last
        invariant
            last == s@.len() - p@.len(),
            i <= last + 1,
            forall|j: int| 0 <= j < i ==> !occurs_at(s@, p@, j),
        decreases last + 1 - i,
    {
        if stands_at(s, p, i) {
            proof {
                lemma_find_is(s@, p@, i as int);
            }
            return Some(i);
        }
        if i == last {
            assert(!occurs(s@, p@));
            return None;
        }
        i += 1;
    }
    None
}

/// The first position of the character `c` in `s`, from `from` on.
pub(crate) fn find_char(s: &[char], c: char, from: usize) -> (r: usize)
    requires
        from <= s@.len(),
    ensures
        r == next_char(s@, c, from as int),
        from <= r <= s@.len(),
        r < s@.len() ==> s@[r as int] == c,
        forall|j: int| from <= j < r ==> s@[j] != c,
{
    let mut i: usize = from;
    while i < s.len() && s[i] != c
        invariant
            from <= i <= s@.len(),
            forall|j: int| from <= j < i ==> s@[j] != c,
        decreases s@.len() - i,
    {
        i += 1;
    }
    proof {
        lemma_next_char_is(s@, c, from as int, i as int);
    }
    i
}

/// Tells whether `s` starts with `p`.
pub(crate) fn starts_with(s: &[char], p: &str) -> (b: bool)
    ensures
        b == p@.is_prefix_of(s@),
{
    let cs = chars_of(p);
    proof {
        if occurs_at(s@, p@, 0) {
            assert(s@.subrange(0, p@.len() as int) =~= p@);
        }
    }
    stands_at(s, cs.as_slice(), 0)
}

/// Tells whether `p` stands somewhere in `s`.
pub(crate) fn contains_text(s: &[char], p: &str) -> (b: bool)
    ensures
        b == occurs(s@, p@),
{
    let cs = chars_of(p);
    find_text(s, cs.as_slice()).is_some()
}

// ---------------------------------------------------------------------------
// Runs and trimming
// ---------------------------------------------------------------------------

/// How many characters at the start of `s` satisfy `p`, up to the first that does not.
pub open spec fn run_len(s: Seq<char>, p: spec_fn(char) -> bool) -> int
    decreases s.len(),
{
    if s.len() > 0 && p(s[0]) {
        1 + run_len(s.skip(1), p)
    } else {
        0
    }
}

/// The run ends at `n` exactly where `n` characters satisfy `p` and the next does not.
pub proof fn lemma_run_len_is(s: Seq<char>, p: spec_fn(char) -> bool, n: int)
    requires
        0 <= n <= s.len(),
        forall|j: int| 0 <= j < n ==> p(#[trigger] s[j]),
        n < s.len() ==> !p(s[n]),
    ensures
        run_len(s, p) == n,
    decreases s.len(),
{
    if n > 0 {
        let t = s.skip(1);
        assert forall|j: int| 0 <= j < n - 1 implies p(#[trigger] t[j]) by {
            assert(t[j] == s[j + 1]);
        }
        if n < s.len() {
            assert(t[n - 1] == s[n]);
        }
        assert(p(s[0]));
        lemma_run_len_is(t, p, n - 1);
    }
}

pub proof fn lemma_run_len(s: Seq<char>, p: spec_fn(char) -> bool)
    ensures
        0 <= run_len(s, p) <= s.len(),
        forall|j: int| 0 <= j < run_len(s, p) ==> p(#[trigger] s[j]),
        run_len(s, p) < s.len() ==> !p(s[run_len(s, p)]),
    decreases s.len(),
{
    if s.len() > 0 && p(s[0]) {
        let t = s.skip(1);
        lemma_run_len(t, p);
        let n = run_len(t, p);
        assert forall|j: int| 0 <= j < n + 1 implies p(#[trigger] s[j]) by {
            if j > 0 {
                assert(p(t[j - 1]));
                assert(t[j - 1] == s[j]);
            }
        }
        if n < t.len() {
            assert(t[n] == s[n + 1]);
        }
    }
}

pub open spec fn trim_start(s: Seq<char>) -> Seq<char> {
    s.skip(run_len(s, |c: char| is_white_space(c)))
}

pub open spec fn trim_end(s: Seq<char>) -> Seq<char>
    decreases s.len(),
{
    if s.len() > 0 && is_white_space(s.last()) {
        trim_end(s.drop_last())
    } else {
        s
    }
}

/// `s` without the white space at its two ends.
pub open spec fn trim(s: Seq<char>) -> Seq<char> {
    trim_end(trim_start(s))
}

pub proof fn lemma_trim_end_is(s: Seq<char>, n: int)
    requires
        0 <= n <= s.len(),
        n > 0 ==> !is_white_space(s[n - 1]),
        forall|j: int| n <= j < s.len() ==> is_white_space(s[j]),
    ensures
        trim_end(s) == s.take(n),
    decreases s.len(),
{
    if n < s.len() {
        assert(is_white_space(s.last()));
        lemma_trim_end_is(s.drop_last(), n);
        assert(s.drop_last().take(n) =~= s.take(n));
    } else {
        assert(s.take(n) =~= s);
    }
}

/// Trimming takes away white space in front of a text that has none at its own ends.
pub proof fn lemma_trim_core(space: Seq<char>, core: Seq<char>)
    requires
        forall|i: int| 0 <= i < space.len() ==> is_white_space(#[trigger] space[i]),
        core.len() > 0,
        !is_white_space(core[0]),
        !is_white_space(core.last()),
    ensures
        trim(space + core) == core,
{
    let s = space + core;
    let p = |c: char| is_white_space(c);
    let n = space.len() as int;
    assert forall|j: int| 0 <= j < n implies p(#[trigger] s[j]) by {
        assert(s[j] == space[j]);
        assert(is_white_space(space[j]));
    }
    assert(s[n] == core[0]);
    lemma_run_len_is(s, p, n);
    assert(s.skip(n) =~= core);
    lemma_trim_end_is(core, core.len() as int);
    assert(core.take(core.len() as int) =~= core);
}

/// What trimming leaves has no white space at its ends, and holds nothing new. It leaves something
/// where there is something to leave.
pub proof fn lemma_trim(s: Seq<char>)
    ensures
        trim(s).len() > 0 ==> !is_white_space(trim(s)[0]) && !is_white_space(trim(s).last()),
        forall|c: char| #[trigger] trim(s).contains(c) ==> s.contains(c),
        (exists|i: int| 0 <= i < s.len() && !is_white_space(#[trigger] s[i])) ==> trim(s).len() > 0,
        s.len() > 0 && !is_white_space(s[0]) ==> trim(s).len() > 0 && trim(s)[0] == s[0],
{
    let p = |c: char| is_white_space(c);
    let n = run_len(s, p);
    lemma_run_len(s, p);
    let t = s.skip(n);
    let m = lemma_trim_end(t);
    assert(trim(s) == t.take(m));
    if trim(s).len() > 0 {
        assert(trim(s)[0] == s[n]);
        assert(!p(s[n]));
    }
    assert forall|c: char| #[trigger] trim(s).contains(c) implies s.contains(c) by {
        let i = choose|i: int| 0 <= i < trim(s).len() && trim(s)[i] == c;
        assert(s[n + i] == c);
    }
    if exists|i: int| 0 <= i < s.len() && !is_white_space(#[trigger] s[i]) {
        let i = choose|i: int| 0 <= i < s.len() && !is_white_space(#[trigger] s[i]);
        if i < n {
            assert(p(s[i]));
        }
        assert(t[i - n] == s[i]);
    }
}

/// Trimming at the end leaves a beginning.
proof fn lemma_trim_end(s: Seq<char>) -> (n: int)
    ensures
        0 <= n <= s.len(),
        trim_end(s) == s.take(n),
        n > 0 ==> !is_white_space(s[n - 1]),
        forall|j: int| n <= j < s.len() ==> is_white_space(s[j]),
    decreases s.len(),
{
    if s.len() > 0 && is_white_space(s.last()) {
        let n = lemma_trim_end(s.drop_last());
        assert(s.drop_last().take(n) =~= s.take(n));
        assert forall|j: int| n <= j < s.len() implies is_white_space(s[j]) by {
            if j < s.len() - 1 {
                assert(s.drop_last()[j] == s[j]);
            }
        }
        n
    } else {
        assert(s.take(s.len() as int) =~= s);
        s.len() as int
    }
}

/// `s` from the first character that is no white space on.
pub(crate) fn trim_start_of(s: &[char]) -> (r: &[char])
    ensures
        r@ == trim_start(s@),
{
    let mut i: usize = 0;
    while i < s.len() && white_space(s[i])
        invariant
            i <= s@.len(),
            forall|j: int| 0 <= j < i ==> is_white_space(s@[j]),
        decreases s@.len() - i,
    {
        i += 1;
    }
    proof {
        let p = |c: char| is_white_space(c);
        assert forall|j: int| 0 <= j < i implies p(#[trigger] s@[j]) by {
            assert(is_white_space(s@[j]));
        }
        lemma_run_len_is(s@, p, i as int);
    }
    slice_subrange(s, i, s.len())
}

/// `str::trim`.
pub(crate) fn trim_of(s: &[char]) -> (r: &[char])
    ensures
        r@ == trim(s@),
{
    let t = trim_start_of(s);
    let mut n: usize = t.len();
    while n > 0 && white_space(t[n - 1])
        invariant
            n <= t@.len(),
            forall|j: int| n <= j < t@.len() ==> is_white_space(t@[j]),
        decreases n,
    {
        n -= 1;
    }
    proof {
        lemma_trim_end_is(t@, n as int);
    }
    slice_subrange(t, 0, n)
}

/// `str::trim` on a string.
pub(crate) fn trimmed(s: &str) -> (r: String)
    ensures
        r@ == trim(s@),
{
    let cs = chars_of(s);
    string_of(trim_of(cs.as_slice()))
}

/// The length of the run of decimal digits that `s` starts with.
pub(crate) fn digit_run(s: &[char]) -> (n: usize)
    ensures
        n == run_len(s@, |c: char| is_digit(c)),
        n <= s@.len(),
{
    let mut i: usize = 0;
    while i < s.len() && digit(s[i])
        invariant
            i <= s@.len(),
            forall|j: int| 0 <= j < i ==> is_digit(s@[j]),
        decreases s@.len() - i,
    {
        i += 1;
    }
    proof {
        let p = |c: char| is_digit(c);
        assert forall|j: int| 0 <= j < i implies p(#[trigger] s@[j]) by {
            assert(is_digit(s@[j]));
        }
        lemma_run_len_is(s@, p, i as int);
    }
    i
}

// ---------------------------------------------------------------------------
// Splitting
// ---------------------------------------------------------------------------

/// The pieces of `s` between the characters `c`: one more than there are such characters.
pub open spec fn split_on(s: Seq<char>, c: char) -> Seq<Seq<char>>
    decreases s.len(),
{
    let i = next_char(s, c, 0);
    if 0 <= i < s.len() {
        seq![s.take(i)] + split_on(s.skip(i + 1), c)
    } else {
        seq![s]
    }
}

pub open spec fn without_final_cr(s: Seq<char>) -> Seq<char> {
    if s.len() > 0 && s.last() == '\r' {
        s.drop_last()
    } else {
        s
    }
}

/// The lines of `s`. A line ends with a line feed, or a carriage return and a line feed, which
/// are not part of it; the last line needs no such ending.
pub open spec fn lines(s: Seq<char>) -> Seq<Seq<char>> {
    let pieces = split_on(s, '\n');
    let ended = pieces.drop_last().map_values(|l: Seq<char>| without_final_cr(l));
    if pieces.last().len() == 0 {
        ended
    } else {
        ended.push(pieces.last())
    }
}

/// The maximal runs in `s` of characters that are no separators.
pub open spec fn fields(s: Seq<char>, sep: spec_fn(char) -> bool) -> Seq<Seq<char>>
    decreases s.len(),
{
    if s.len() == 0 {
        seq![]
    } else if sep(s[0]) {
        fields(s.skip(1), sep)
    } else {
        let n = run_len(s, |c: char| !sep(c));
        if 0 < n <= s.len() {
            seq![s.take(n)] + fields(s.skip(n), sep)
        } else {
            seq![]
        }
    }
}

/// The words of `s`: the maximal runs of characters that are no white space.
pub open spec fn words(s: Seq<char>) -> Seq<Seq<char>> {
    fields(s, |c: char| is_white_space(c))
}

pub proof fn lemma_split_on_nonempty(s: Seq<char>, c: char)
    ensures
        split_on(s, c).len() > 0,
{
}

/// Where a position ends the first piece, the rest is split on its own.
proof fn lemma_split_on_step(s: Seq<char>, c: char, from: int, at: int)
    requires
        0 <= from <= at < s.len(),
        at == next_char(s, c, from),
        s[at] == c,
    ensures
        split_on(s.skip(from), c) == seq![s.subrange(from, at)] + split_on(s.skip(at + 1), c),
{
    let t = s.skip(from);
    lemma_next_char(s, c, from);
    lemma_next_char_is(t, c, 0, at - from);
    assert(t.take(at - from) =~= s.subrange(from, at));
    assert(t.skip(at - from + 1) =~= s.skip(at + 1));
}

/// A text without the separator is one piece.
pub proof fn lemma_split_on_none(s: Seq<char>, c: char)
    requires
        !s.contains(c),
    ensures
        split_on(s, c) == seq![s],
{
    assert forall|j: int| 0 <= j < s.len() implies s[j] != c by {
        assert(s.contains(s[j]));
    }
    lemma_next_char_is(s, c, 0, s.len() as int);
}

/// A first piece, a separator and a rest.
pub proof fn lemma_split_on_first(piece: Seq<char>, c: char, rest: Seq<char>)
    requires
        !piece.contains(c),
    ensures
        split_on(piece + seq![c] + rest, c) == seq![piece] + split_on(rest, c),
{
    let s = piece + seq![c] + rest;
    let n = piece.len() as int;
    assert forall|j: int| 0 <= j < n implies s[j] != c by {
        assert(s[j] == piece[j]);
        assert(piece.contains(piece[j]));
    }
    lemma_next_char_is(s, c, 0, n);
    assert(s.take(n) =~= piece);
    assert(s.skip(n + 1) =~= rest);
}

/// No piece holds the separator.
pub proof fn lemma_split_on_pieces(s: Seq<char>, c: char)
    ensures
        forall|k: int| 0 <= k < split_on(s, c).len() ==> !(#[trigger] split_on(s, c)[k]).contains(c),
    decreases s.len(),
{
    let i = next_char(s, c, 0);
    lemma_next_char(s, c, 0);
    let pieces = split_on(s, c);
    if i < s.len() {
        let rest = s.skip(i + 1);
        lemma_split_on_pieces(rest, c);
        let first = s.take(i);
        assert forall|k: int| 0 <= k < pieces.len() implies !(#[trigger] pieces[k]).contains(c) by {
            if k > 0 {
                assert(pieces[k] == split_on(rest, c)[k - 1]);
            }
        }
    }
}

/// No line holds a line feed.
pub proof fn lemma_lines_hold_no_line_feed(s: Seq<char>)
    ensures
        forall|k: int| 0 <= k < lines(s).len() ==> !(#[trigger] lines(s)[k]).contains('\n'),
{
    let pieces = split_on(s, '\n');
    lemma_split_on_pieces(s, '\n');
    assert forall|k: int| 0 <= k < lines(s).len() implies !(#[trigger] lines(s)[k]).contains(
        '\n',
    ) by {
        assert(!pieces[k].contains('\n'));
        let line = lines(s)[k];
        if line.contains('\n') {
            let i = choose|i: int| 0 <= i < line.len() && line[i] == '\n';
            assert(pieces[k][i] == '\n');
        }
    }
}

/// `str::split` with a character as the pattern.
pub(crate) fn split_char(s: &[char], c: char) -> (r: Vec<Vec<char>>)
    ensures
        r@.map_values(|v: Vec<char>| v@) == split_on(s@, c),
        r@.len() == split_on(s@, c).len(),
        forall|i: int| 0 <= i < r@.len() ==> (#[trigger] r@[i])@ == split_on(s@, c)[i],
        r@.len() > 0,
{
    let mut r: Vec<Vec<char>> = Vec::new();
    let mut from: usize = 0;
    let mut at: usize = find_char(s, c, 0);
    let ghost view = |v: Vec<char>| v@;
    assert(s@.skip(0) =~= s@);
    assert(r@.map_values(view) + split_on(s@, c) =~= split_on(s@, c));
    while at < s.len()
        invariant
            from <= at <= s@.len(),
            at == next_char(s@, c, from as int),
            at < s@.len() ==> s@[at as int] == c,
            view == (|v: Vec<char>| v@),
            r@.map_values(view) + split_on(s@.skip(from as int), c) == split_on(s@, c),
        decreases s@.len() - from,
    {
        let piece = copy_chars(slice_subrange(s, from, at));
        proof {
            lemma_split_on_step(s@, c, from as int, at as int);
            assert(r@.push(piece).map_values(view) =~= r@.map_values(view).push(piece@));
            assert(r@.map_values(view).push(piece@) + split_on(s@.skip(at + 1), c)
                =~= r@.map_values(view) + (seq![piece@] + split_on(s@.skip(at + 1), c)));
        }
        r.push(piece);
        from = at + 1;
        at = find_char(s, c, from);
    }
    let last = copy_chars(slice_subrange(s, from, s.len()));
    proof {
        let t = s@.skip(from as int);
        assert(last@ =~= t);
        lemma_next_char(s@, c, from as int);
        lemma_next_char_is(t, c, 0, t.len() as int);
        assert(split_on(t, c) =~= seq![t]);
        assert(r@.push(last).map_values(view) =~= r@.map_values(view) + seq![t]);
    }
    r.push(last);
    assert forall|i: int| 0 <= i < r@.len() implies (#[trigger] r@[i])@ == split_on(s@, c)[i] by {
        assert(r@.map_values(view)[i] == r@[i]@);
    }
    r
}

/// A first line with its line feed, and a rest.
pub proof fn lemma_lines_one(line: Seq<char>, rest: Seq<char>)
    requires
        !line.contains('\n'),
    ensures
        lines(line + seq!['\n'] + rest) == seq![without_final_cr(line)] + lines(rest),
{
    let s = line + seq!['\n'] + rest;
    let strip = |l: Seq<char>| without_final_cr(l);
    let pieces = split_on(rest, '\n');
    lemma_split_on_first(line, '\n', rest);
    lemma_split_on_nonempty(rest, '\n');
    let all = seq![line] + pieces;
    assert(all.drop_last() =~= seq![line] + pieces.drop_last());
    assert(all.last() == pieces.last());
    assert(all.drop_last().map_values(strip) =~= seq![without_final_cr(line)]
        + pieces.drop_last().map_values(strip));
    assert(lines(s) =~= seq![without_final_cr(line)] + lines(rest));
}

/// `str::lines`.
pub(crate) fn lines_of(s: &[char]) -> (r: Vec<Vec<char>>)
    ensures
        r@.len() == lines(s@).len(),
        forall|i: int| 0 <= i < r@.len() ==> (#[trigger] r@[i])@ == lines(s@)[i],
{
    let pieces = split_char(s, '\n');
    let mut r: Vec<Vec<char>> = Vec::new();
    let last: usize = pieces.len() - 1;
    for i in 0..last
        invariant
            last == pieces@.len() - 1,
            r@.len() == i,
            forall|j: int|
                0 <= j < i ==> (#[trigger] r@[j])@ == without_final_cr(pieces@[j]@),
    {
        let piece = &pieces[i];
        let n = piece.len();
        if n > 0 && piece[n - 1] == '\r' {
            let line = copy_chars(slice_subrange(piece.as_slice(), 0, n - 1));
            assert(line@ =~= piece@.drop_last());
            r.push(line);
        } else {
            r.push(copy_chars(piece.as_slice()));
        }
    }
    let piece = &pieces[last];
    if piece.len() > 0 {
        r.push(copy_chars(piece.as_slice()));
    }
    r
}

/// A field that ends at a separator, or at the end, comes before the fields that follow.
pub proof fn lemma_fields_field(s: Seq<char>, sep: spec_fn(char) -> bool, from: int, to: int)
    requires
        0 <= from < to <= s.len(),
        forall|j: int| from <= j < to ==> !sep(#[trigger] s[j]),
        to < s.len() ==> sep(s[to]),
    ensures
        fields(s.skip(from), sep) == seq![s.subrange(from, to)] + fields(s.skip(to), sep),
{
    let t = s.skip(from);
    let p = |c: char| !sep(c);
    assert forall|j: int| 0 <= j < to - from implies p(#[trigger] t[j]) by {
        assert(t[j] == s[from + j]);
    }
    assert(!sep(s[from]));
    assert(t[0] == s[from]);
    lemma_run_len_is(t, p, to - from);
    assert(t.take(to - from) =~= s.subrange(from, to));
    assert(t.skip(to - from) =~= s.skip(to));
}

/// A separator adds nothing to the fields.
pub proof fn lemma_fields_sep(s: Seq<char>, sep: spec_fn(char) -> bool, from: int)
    requires
        0 <= from < s.len(),
        sep(s[from]),
    ensures
        fields(s.skip(from), sep) == fields(s.skip(from + 1), sep),
{
    assert(s.skip(from)[0] == s[from]);
    assert(s.skip(from).skip(1) =~= s.skip(from + 1));
}

/// The maximal runs in `s` of characters that `is_sep` does not take for separators.
pub(crate) fn fields_of<F: Fn(char) -> bool>(
    s: &[char],
    is_sep: F,
    Ghost(sep): Ghost<spec_fn(char) -> bool>,
) -> (r: Vec<Vec<char>>)
    requires
        forall|c: char| is_sep.requires((c,)),
        forall|c: char, b: bool| is_sep.ensures((c,), b) ==> b == sep(c),
    ensures
        r@.len() == fields(s@, sep).len(),
        forall|i: int| 0 <= i < r@.len() ==> (#[trigger] r@[i])@ == fields(s@, sep)[i],
{
    let mut r: Vec<Vec<char>> = Vec::new();
    let mut i: usize = 0;
    let ghost view = |v: Vec<char>| v@;
    assert(s@.skip(0) =~= s@);
    assert(r@.map_values(view) + fields(s@, sep) =~= fields(s@, sep));
    while i < s.len()
        invariant
            i <= s@.len(),
            view == (|v: Vec<char>| v@),
            forall|c: char| is_sep.requires((c,)),
            forall|c: char, b: bool| is_sep.ensures((c,), b) ==> b == sep(c),
            r@.map_values(view) + fields(s@.skip(i as int), sep) == fields(s@, sep),
        decreases s@.len() - i,
    {
        if is_sep(s[i]) {
            proof {
                lemma_fields_sep(s@, sep, i as int);
            }
            i += 1;
        } else {
            let mut k: usize = i + 1;
            while k < s.len() && !is_sep(s[k])
                invariant
                    i < k <= s@.len(),
                    forall|c: char| is_sep.requires((c,)),
                    forall|c: char, b: bool| is_sep.ensures((c,), b) ==> b == sep(c),
                    forall|j: int| i <= j < k ==> !sep(#[trigger] s@[j]),
                ensures
                    i < k <= s@.len(),
                    forall|j: int| i <= j < k ==> !sep(#[trigger] s@[j]),
                    k < s@.len() ==> sep(s@[k as int]),
                decreases s@.len() - k,
            {
                k += 1;
            }
            let field = copy_chars(slice_subrange(s, i, k));
            proof {
                lemma_fields_field(s@, sep, i as int, k as int);
                assert(r@.push(field).map_values(view) =~= r@.map_values(view).push(field@));
                assert(r@.map_values(view).push(field@) + fields(s@.skip(k as int), sep)
                    =~= r@.map_values(view) + (seq![field@] + fields(s@.skip(k as int), sep)));
            }
            r.push(field);
            i = k;
        }
    }
    proof {
        assert(s@.skip(i as int) =~= seq![]);
        assert(r@.map_values(view) =~= fields(s@, sep));
        assert forall|i: int| 0 <= i < r@.len() implies (#[trigger] r@[i])@ == fields(s@, sep)[i] by {
            assert(r@.map_values(view)[i] == r@[i]@);
        }
    }
    r
}

/// `str::split_whitespace`.
pub(crate) fn words_of(s: &[char]) -> (r: Vec<Vec<char>>)
    ensures
        r@.len() == words(s@).len(),
        forall|i: int| 0 <= i < r@.len() ==> (#[trigger] r@[i])@ == words(s@)[i],
{
    fields_of(s, white_space, Ghost(|c: char| is_white_space(c)))
}

// ---------------------------------------------------------------------------
// Replacing
// ---------------------------------------------------------------------------

/// `s` with every occurrence of `from` replaced by `to`, from left to right and without overlap.
/// An empty `from` stands before every character and at the end.
pub open spec fn replaced(s: Seq<char>, from: Seq<char>, to: Seq<char>) -> Seq<char>
    decreases s.len(),
{
    if from.len() == 0 {
        if s.len() == 0 {
            to
        } else {
            to + seq![s[0]] + replaced(s.skip(1), from, to)
        }
    } else if s.len() == 0 {
        seq![]
    } else if from.is_prefix_of(s) {
        to + replaced(s.skip(from.len() as int), from, to)
    } else {
        seq![s[0]] + replaced(s.skip(1), from, to)
    }
}

/// `str::replace`.
pub(crate) fn replace_text(s: &[char], from: &[char], to: &[char]) -> (r: Vec<char>)
    ensures
        r@ == replaced(s@, from@, to@),
{
    let mut r: Vec<char> = Vec::new();
    let mut i: usize = 0;
    assert(s@.skip(0) =~= s@);
    assert(r@ + replaced(s@, from@, to@) =~= replaced(s@, from@, to@));
    while i < s.len()
        invariant
            i <= s@.len(),
            r@ + replaced(s@.skip(i as int), from@, to@) == replaced(s@, from@, to@),
        decreases s@.len() - i,
    {
        let ghost rest = s@.skip(i as int);
        let ghost before = r@;
        assert(rest[0] == s@[i as int]);
        assert(rest.skip(1) =~= s@.skip(i + 1));
        if from.len() == 0 {
            extend_chars(&mut r, to);
            r.push(s[i]);
            assert(r@ + replaced(s@.skip(i + 1), from@, to@) =~= before + (to@ + seq![rest[0]]
                + replaced(rest.skip(1), from@, to@)));
            i += 1;
        } else if stands_at(s, from, i) {
            proof {
                assert(rest.subrange(0, from@.len() as int) =~= s@.subrange(
                    i as int,
                    i + from@.len(),
                ));
                assert(from@.is_prefix_of(rest));
                assert(rest.skip(from@.len() as int) =~= s@.skip(i + from@.len()));
            }
            extend_chars(&mut r, to);
            assert(r@ + replaced(s@.skip(i + from@.len()), from@, to@) =~= before + (to@
                + replaced(rest.skip(from@.len() as int), from@, to@)));
            i += from.len();
        } else {
            proof {
                if from@.is_prefix_of(rest) {
                    assert(s@.subrange(i as int, i + from@.len()) =~= rest.subrange(
                        0,
                        from@.len() as int,
                    ));
                    assert(occurs_at(s@, from@, i as int));
                }
            }
            r.push(s[i]);
            assert(r@ + replaced(s@.skip(i + 1), from@, to@) =~= before + (seq![rest[0]]
                + replaced(rest.skip(1), from@, to@)));
            i += 1;
        }
    }
    assert(s@.skip(i as int) =~= seq![]);
    if from.len() == 0 {
        extend_chars(&mut r, to);
    }
    assert(r@ =~= replaced(s@, from@, to@));
    r
}

/// Where nothing is to be replaced, the text stays.
pub proof fn lemma_replaced_none(s: Seq<char>, from: Seq<char>, to: Seq<char>)
    requires
        !occurs(s, from),
    ensures
        replaced(s, from, to) == s,
    decreases s.len(),
{
    if from.len() == 0 {
        assert(s.subrange(0, 0) =~= from);
        assert(occurs_at(s, from, 0));
    } else if s.len() > 0 {
        if from.is_prefix_of(s) {
            assert(s.subrange(0, from.len() as int) =~= from);
            assert(occurs_at(s, from, 0));
        }
        let t = s.skip(1);
        assert forall|j: int| !occurs_at(t, from, j) by {
            if occurs_at(t, from, j) {
                assert(s.subrange(j + 1, j + 1 + from.len()) =~= t.subrange(j, j + from.len()));
                assert(occurs_at(s, from, j + 1));
            }
        }
        lemma_replaced_none(t, from, to);
        assert(seq![s[0]] + t =~= s);
    } else {
        assert(s =~= seq![]);
    }
}

/// The first occurrence is replaced, and then the rest goes on.
pub proof fn lemma_replaced_first(s: Seq<char>, from: Seq<char>, to: Seq<char>, i: int)
    requires
        from.len() > 0,
        occurs_first_at(s, from, i),
    ensures
        replaced(s, from, to) == s.take(i) + to + replaced(s.skip(i + from.len()), from, to),
    decreases i,
{
    if i == 0 {
        assert(from.is_prefix_of(s));
        assert(s.take(0) + to =~= to);
    } else {
        let t = s.skip(1);
        if from.is_prefix_of(s) {
            assert(s.subrange(0, from.len() as int) =~= from);
            assert(occurs_at(s, from, 0));
        }
        assert(t.subrange(i - 1, i - 1 + from.len()) =~= s.subrange(i, i + from.len()));
        assert forall|j: int| 0 <= j < i - 1 implies !occurs_at(t, from, j) by {
            if occurs_at(t, from, j) {
                assert(s.subrange(j + 1, j + 1 + from.len()) =~= t.subrange(j, j + from.len()));
                assert(occurs_at(s, from, j + 1));
            }
        }
        lemma_replaced_first(t, from, to, i - 1);
        assert(t.skip(i - 1 + from.len()) =~= s.skip(i + from.len()));
        assert(replaced(s, from, to) =~= s.take(i) + to + replaced(
            s.skip(i + from.len()),
            from,
            to,
        ));
    }
}

/// Where a text is replaced by itself, nothing changes.
pub proof fn lemma_replaced_same(s: Seq<char>, p: Seq<char>)
    ensures
        replaced(s, p, p) == s,
    decreases s.len(),
{
    if p.len() == 0 {
        if s.len() > 0 {
            lemma_replaced_same(s.skip(1), p);
            assert(p + seq![s[0]] + s.skip(1) =~= s);
        } else {
            assert(p =~= s);
        }
    } else if s.len() == 0 {
        assert(s =~= seq![]);
    } else if p.is_prefix_of(s) {
        lemma_replaced_same(s.skip(p.len() as int), p);
        assert(p + s.skip(p.len() as int) =~= s);
    } else {
        lemma_replaced_same(s.skip(1), p);
        assert(seq![s[0]] + s.skip(1) =~= s);
    }
}

/// Appends characters to a vector.
pub(crate) fn extend_chars(out: &mut Vec<char>, cs: &[char])
    ensures
        final(out)@ == old(out)@ + cs@,
{
    let ghost before = out@;
    for i in 0..cs.len()
        invariant
            out@ == before + cs@.take(i as int),
    {
        out.push(cs[i]);
        assert(before + cs@.take(i + 1) =~= (before + cs@.take(i as int)).push(cs@[i as int]));
    }
    assert(cs@.take(cs@.len() as int) =~= cs@);
}

} // verus!
