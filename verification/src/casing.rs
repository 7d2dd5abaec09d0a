//! Upper and lower case by the Unicode tables of the standard library.

use crate::bytes::{byte_len, lemma_byte_len_concat, lemma_sigmas_byte_len};
use crate::text::{
    is_ascii_char, is_ascii_text, lemma_flatten_singles, lower_ascii, lower_ascii_text, occurs, occurs_at,
    upper_ascii,
};
use vstd::prelude::*;

verus! {

/// What `str::to_uppercase` makes of the character at position `i` of a text.
pub uninterp spec fn uppercase(s: Seq<char>, i: int) -> Seq<char>;

/// What `str::to_lowercase` makes of the character at position `i` of a text.
pub uninterp spec fn lowercase(s: Seq<char>, i: int) -> Seq<char>;

/// What becomes of a character in upper case, where `other` is for characters that are not ASCII.
pub open spec fn upper_part(c: char, other: Seq<char>) -> Seq<char> {
    if is_ascii_char(c) {
        seq![upper_ascii(c)]
    } else {
        other
    }
}

/// What becomes of a character in lower case. A capital sigma has one of two small ones: the final
/// one where `here`, which is for the place that it stands at, says so. Any other character that is
/// not ASCII has `alone`, which is for a text of its own.
pub open spec fn lower_part(c: char, here: Seq<char>, alone: Seq<char>) -> Seq<char> {
    if is_ascii_char(c) {
        seq![lower_ascii(c)]
    } else if c == '\u{3a3}' {
        if here == seq!['\u{3c2}'] {
            seq!['\u{3c2}']
        } else {
            seq!['\u{3c3}']
        }
    } else {
        alone
    }
}

/// A text in upper case.
pub open spec fn upper_text(s: Seq<char>) -> Seq<char> {
    Seq::new(s.len(), |i: int| upper_part(s[i], uppercase(s, i))).flatten()
}

/// What the first `n` characters of a text become when the text is turned into lower case.
pub open spec fn lower_start(s: Seq<char>, n: nat) -> Seq<char> {
    Seq::new(
        n,
        |i: int| lower_part(s[i], lowercase(s, i), lowercase(seq![s[i]], 0)),
    ).flatten()
}

/// A text in lower case.
pub open spec fn lower_text(s: Seq<char>) -> Seq<char> {
    lower_start(s, s.len())
}

/// `str::to_uppercase`: the upper case of `s`, which is made character by character. The ASCII
/// letters `a` to `z` become `A` to `Z`, and the other ASCII characters stay. Of what becomes of any
/// other character it is claimed only that it depends on the text and the place alone.
#[verifier::external_body]
pub(crate) fn to_uppercase(s: &str) -> (r: String)
    ensures
        r@ == Seq::new(s@.len(), |i: int| upper_part(s@[i], uppercase(s@, i))).flatten(),
{
    s.to_uppercase()
}

/// `str::to_lowercase`: the lower case of `s`, which is made character by character. The ASCII
/// letters `A` to `Z` become `a` to `z`, and the other ASCII characters stay. A capital sigma becomes
/// the small sigma or, at the end of a word, the final one; where words end is not claimed. Any
/// other character becomes what it becomes as a text of its own, of which nothing more is claimed.
#[verifier::external_body]
pub(crate) fn to_lowercase(s: &str) -> (r: String)
    ensures
        r@ == Seq::new(
            s@.len(),
            |i: int| lower_part(s@[i], lowercase(s@, i), lowercase(seq![s@[i]], 0)),
        ).flatten(),
{
    s.to_lowercase()
}

// ---------------------------------------------------------------------------
// Lower case of texts that end in ASCII
// ---------------------------------------------------------------------------

/// Two texts are equal but for the two small sigmas.
pub open spec fn alike(a: Seq<char>, b: Seq<char>) -> bool {
    &&& a.len() == b.len()
    &&& forall|i: int|
        0 <= i < a.len() ==> #[trigger] a[i] == b[i] || (is_small_sigma(a[i]) && is_small_sigma(
            b[i],
        ))
}

pub open spec fn is_small_sigma(c: char) -> bool {
    c == '\u{3c2}' || c == '\u{3c3}'
}

/// What becomes of one more character.
proof fn lemma_lower_start_step(s: Seq<char>, n: nat)
    ensures
        lower_start(s, n + 1) == lower_start(s, n) + lower_part(
            s[n as int],
            lowercase(s, n as int),
            lowercase(seq![s[n as int]], 0),
        ),
{
    let f = |i: int| lower_part(s[i], lowercase(s, i), lowercase(seq![s[i]], 0));
    let parts = Seq::new(n, f);
    assert(Seq::new(n + 1, f) =~= parts.push(f(n as int)));
    parts.lemma_flatten_push(f(n as int));
}

/// The lower case of a text that ends in ASCII ends in the lower case of that end. The rest is the
/// lower case of the beginning, but for sigmas.
pub proof fn lemma_lower_of_joined(front: Seq<char>, end: Seq<char>)
    requires
        is_ascii_text(end),
    ensures
        lower_text(front + end) == lower_start(front + end, front.len()) + lower_ascii_text(end),
        alike(lower_start(front + end, front.len()), lower_text(front)),
{
    lemma_lower_end(front, end, end.len());
    assert(end.take(end.len() as int) =~= end);
    lemma_starts_alike(front, end, front.len());
}

proof fn lemma_lower_end(front: Seq<char>, end: Seq<char>, k: nat)
    requires
        is_ascii_text(end),
        k <= end.len(),
    ensures
        lower_start(front + end, front.len() + k) == lower_start(front + end, front.len())
            + lower_ascii_text(end.take(k as int)),
    decreases k,
{
    let s = front + end;
    let start = lower_start(s, front.len());
    if k == 0 {
        assert(start + lower_ascii_text(end.take(0)) =~= start);
    } else {
        let j = (k - 1) as nat;
        lemma_lower_end(front, end, j);
        lemma_lower_start_step(s, front.len() + j);
        assert(s[(front.len() + j) as int] == end[j as int]);
        assert(is_ascii_char(end[j as int]));
        assert(start + lower_ascii_text(end.take(j as int)) + seq![lower_ascii(end[j as int])]
            =~= start + lower_ascii_text(end.take(k as int)));
    }
}

proof fn lemma_starts_alike(front: Seq<char>, end: Seq<char>, n: nat)
    requires
        n <= front.len(),
    ensures
        alike(lower_start(front + end, n), lower_start(front, n)),
    decreases n,
{
    let s = front + end;
    if n == 0 {
        assert(lower_start(s, 0) =~= seq![]);
        assert(lower_start(front, 0) =~= seq![]);
    } else {
        let k = (n - 1) as nat;
        lemma_starts_alike(front, end, k);
        lemma_lower_start_step(s, k);
        lemma_lower_start_step(front, k);
        assert(s[k as int] == front[k as int]);
    }
}

/// ASCII stands at the same places in texts that are alike.
pub proof fn lemma_alike_occurs(a: Seq<char>, b: Seq<char>, p: Seq<char>)
    requires
        alike(a, b),
        is_ascii_text(p),
        occurs(a, p),
    ensures
        occurs(b, p),
{
    let i = choose|i: int| occurs_at(a, p, i);
    let here = a.subrange(i, i + p.len());
    assert forall|j: int| 0 <= j < p.len() implies b.subrange(i, i + p.len())[j] == p[j] by {
        assert(here[j] == p[j]);
        assert(is_ascii_char(p[j]));
        assert(a[i + j] == p[j]);
    }
    assert(b.subrange(i, i + p.len()) =~= p);
    assert(occurs_at(b, p, i));
}

/// Texts that are alike are as long in bytes.
pub proof fn lemma_alike_bytes(a: Seq<char>, b: Seq<char>)
    requires
        alike(a, b),
    ensures
        byte_len(a) == byte_len(b),
    decreases a.len(),
{
    if a.len() == 0 {
        assert(a =~= b);
    } else {
        let n = a.len() - 1;
        let (a0, b0) = (a.take(n), b.take(n));
        assert(alike(a0, b0)) by {
            assert forall|i: int| 0 <= i < n implies #[trigger] a0[i] == b0[i] || (is_small_sigma(
                a0[i],
            ) && is_small_sigma(b0[i])) by {
                assert(a[i] == a0[i]);
            }
        }
        lemma_alike_bytes(a0, b0);
        assert(a =~= a0 + seq![a[n]]);
        assert(b =~= b0 + seq![b[n]]);
        lemma_byte_len_concat(a0, seq![a[n]]);
        lemma_byte_len_concat(b0, seq![b[n]]);
        lemma_sigmas_byte_len();
        assert(a[n] == b[n] || (is_small_sigma(a[n]) && is_small_sigma(b[n])));
    }
}

/// The lower case of a text in ASCII.
pub proof fn lemma_lower_of_ascii(s: Seq<char>)
    requires
        is_ascii_text(s),
    ensures
        lower_text(s) == lower_ascii_text(s),
{
    let parts = Seq::new(
        s.len(),
        |i: int| lower_part(s[i], lowercase(s, i), lowercase(seq![s[i]], 0)),
    );
    assert forall|i: int| 0 <= i < s.len() implies #[trigger] parts[i] == seq![
        lower_ascii_text(s)[i],
    ] by {
        assert(is_ascii_char(s[i]));
    }
    lemma_flatten_singles(parts, lower_ascii_text(s));
}

} // verus!
