//! What holds of every name: its kind, the number of its track, and the identifier of a title.

use crate::decimal::read_decimal;
use crate::files::{count_kind, extension, kind_of, lemma_kind_of_joined, lemma_last_char_is, stem};
use crate::files::FileKind;
use crate::names::{
    bracketed_digits, identifier, identifier_words, is_alphanumeric, joined, leading_digits,
    lemma_identifier_words, track_number,
};
use crate::text::{
    fields, find, is_digit, is_white_space, lemma_fields_field, lemma_fields_sep, lemma_find_is,
    lemma_run_len, lemma_run_len_is, lower_ascii, lower_ascii_text, occurs_at, run_len, trim_start,
};
use crate::text_laws::{law_find, law_occurs};
use vstd::prelude::*;

verus! {

// ---------------------------------------------------------------------------
// Track numbers
// ---------------------------------------------------------------------------

/// The first `(track ` of a name, if it has one, is not followed by a digit.
pub open spec fn brackets_give_none(lower: Seq<char>) -> bool {
    forall|i: int|
        0 <= i && i + 7 < lower.len() && #[trigger] lower.subrange(i, i + 7) == "(track "@ && (
        forall|j: int| 0 <= j < i ==> #[trigger] lower.subrange(j, j + 7) != "(track "@)
            ==> !('0' <= lower[i + 7] <= '9')
}

proof fn lemma_leading_digits(digits: Seq<char>, tail: Seq<char>)
    requires
        forall|i: int| 0 <= i < digits.len() ==> '0' <= #[trigger] digits[i] <= '9',
        tail.len() > 0 ==> !('0' <= tail[0] <= '9'),
    ensures
        leading_digits(digits + tail) == digits,
{
    let s = digits + tail;
    let p = |c: char| is_digit(c);
    assert forall|j: int| 0 <= j < digits.len() implies p(#[trigger] s[j]) by {
        assert('0' <= digits[j] <= '9');
    }
    lemma_run_len_is(s, p, digits.len() as int);
    assert(s.take(digits.len() as int) =~= digits);
}

proof fn lemma_found(lower: Seq<char>, p: Seq<char>, i: int)
    requires
        0 <= i,
        i + p.len() <= lower.len(),
        lower.subrange(i, i + p.len()) == p,
        forall|j: int| 0 <= j < i ==> #[trigger] lower.subrange(j, j + p.len()) != p,
    ensures
        find(lower, p) == Some(i),
{
    assert forall|j: int| 0 <= j < i implies !occurs_at(lower, p, j) by {
        assert(lower.subrange(j, j + p.len()) != p);
    }
    lemma_find_is(lower, p, i);
}

proof fn lemma_brackets_give_none(lower: Seq<char>)
    requires
        brackets_give_none(lower),
    ensures
        bracketed_digits(lower).len() == 0,
{
    reveal_strlit("(track ");
    law_find(lower, "(track "@);
    if let Some(i) = find(lower, "(track "@) {
        let rest = lower.skip(i + 7);
        let p = |c: char| is_digit(c);
        assert(lower.subrange(i, i + 7) == "(track "@);
        assert forall|j: int| 0 <= j < i implies #[trigger] lower.subrange(j, j + 7)
            != "(track "@ by {
            assert(lower.subrange(j, j + "(track "@.len()) != "(track "@);
        }
        if rest.len() > 0 {
            assert(rest[0] == lower[i + 7]);
            assert(!p(rest[0]));
        }
        lemma_run_len_is(rest, p, 0);
    }
}

/// The digits right behind the first `(track ` of a name give the number of its track, whatever
/// stands before and behind them. Where they are too large there is no number.
pub proof fn law_number_in_brackets(front: Seq<char>, digits: Seq<char>, tail: Seq<char>)
    requires
        digits.len() > 0,
        forall|i: int| 0 <= i < digits.len() ==> '0' <= #[trigger] digits[i] <= '9',
        tail.len() > 0 ==> !('0' <= tail[0] <= '9'),
        forall|j: int|
            0 <= j < front.len() ==> #[trigger] (front + "(track "@ + digits + tail).subrange(
                j,
                j + "(track "@.len(),
            ) != "(track "@,
    ensures
        track_number(front + "(track "@ + digits + tail) == read_decimal(digits, u32::MAX as int),
{
    let lower = front + "(track "@ + digits + tail;
    let i = front.len() as int;
    let n = "(track "@.len() as int;
    assert(lower.subrange(i, i + n) =~= "(track "@);
    lemma_found(lower, "(track "@, i);
    assert(lower.skip(i + n) =~= digits + tail);
    lemma_leading_digits(digits, tail);
}

/// Where no digits follow a `(track `, the digits behind the first `track` of a name give the
/// number, with or without white space in front of them, and whatever stands before the word, be
/// it digits.
pub proof fn law_number_after_track(
    front: Seq<char>,
    space: Seq<char>,
    digits: Seq<char>,
    tail: Seq<char>,
)
    requires
        brackets_give_none(front + "track"@ + space + digits + tail),
        forall|i: int| 0 <= i < space.len() ==> is_white_space(#[trigger] space[i]),
        digits.len() > 0,
        forall|i: int| 0 <= i < digits.len() ==> '0' <= #[trigger] digits[i] <= '9',
        tail.len() > 0 ==> !('0' <= tail[0] <= '9'),
        forall|j: int|
            0 <= j < front.len() ==> #[trigger] (front + "track"@ + space + digits + tail).subrange(
                j,
                j + "track"@.len(),
            ) != "track"@,
    ensures
        track_number(front + "track"@ + space + digits + tail) == read_decimal(
            digits,
            u32::MAX as int,
        ),
{
    let lower = front + "track"@ + space + digits + tail;
    let i = front.len() as int;
    let n = "track"@.len() as int;
    lemma_brackets_give_none(lower);
    assert(lower.subrange(i, i + n) =~= "track"@);
    lemma_found(lower, "track"@, i);
    assert(lower.skip(i + n) =~= space + (digits + tail));
    assert('0' <= digits[0] <= '9');
    lemma_trim_start(space, digits + tail);
    lemma_leading_digits(digits, tail);
}

proof fn lemma_trim_start(space: Seq<char>, rest: Seq<char>)
    requires
        forall|i: int| 0 <= i < space.len() ==> is_white_space(#[trigger] space[i]),
        rest.len() > 0 ==> !is_white_space(rest[0]),
    ensures
        trim_start(space + rest) == rest,
{
    let s = space + rest;
    let p = |c: char| is_white_space(c);
    assert forall|j: int| 0 <= j < space.len() implies p(#[trigger] s[j]) by {
        assert(s[j] == space[j]);
    }
    if rest.len() > 0 {
        assert(s[space.len() as int] == rest[0]);
    }
    lemma_run_len_is(s, p, space.len() as int);
    assert(s.skip(space.len() as int) =~= rest);
}

/// A name has no number where anything but digits follows its first `track`; a later one does not
/// count.
pub proof fn law_no_number_after_track(front: Seq<char>, space: Seq<char>, tail: Seq<char>)
    requires
        brackets_give_none(front + "track"@ + space + tail),
        forall|i: int| 0 <= i < space.len() ==> is_white_space(#[trigger] space[i]),
        tail.len() > 0 ==> !is_white_space(tail[0]) && !('0' <= tail[0] <= '9'),
        forall|j: int|
            0 <= j < front.len() ==> #[trigger] (front + "track"@ + space + tail).subrange(
                j,
                j + "track"@.len(),
            ) != "track"@,
    ensures
        track_number(front + "track"@ + space + tail) is None,
{
    let lower = front + "track"@ + space + tail;
    let i = front.len() as int;
    let n = "track"@.len() as int;
    lemma_brackets_give_none(lower);
    assert(lower.subrange(i, i + n) =~= "track"@);
    lemma_found(lower, "track"@, i);
    assert(lower.skip(i + n) =~= space + tail);
    lemma_trim_start(space, tail);
    lemma_leading_digits(seq![], tail);
    assert(Seq::<char>::empty() + tail =~= tail);
}

/// A name without the word has no number.
pub proof fn law_no_number_without_track(lower: Seq<char>)
    requires
        forall|a: Seq<char>, b: Seq<char>| lower != #[trigger] (a + "track"@ + b),
    ensures
        track_number(lower) is None,
{
    reveal_strlit("track");
    reveal_strlit("(track ");
    law_occurs(lower, "track"@);
    law_find(lower, "track"@);
    law_find(lower, "(track "@);
    if let Some(i) = find(lower, "(track "@) {
        let found = lower.subrange(i, i + "(track "@.len());
        assert(lower.subrange(i + 1, i + 6) =~= found.subrange(1, 6));
        assert("(track "@.subrange(1, 6) =~= "track"@);
        assert(occurs_at(lower, "track"@, i + 1));
    }
}

// ---------------------------------------------------------------------------
// Kinds of files
// ---------------------------------------------------------------------------

/// What follows the last dot of a name tells its kind, in any case, and what stands before it is
/// the stem.
pub proof fn law_kind_of_file(front: Seq<char>, ext: Seq<char>)
    requires
        front.len() > 0,
        !ext.contains('.'),
    ensures
        ({
            let name = front + seq!['.'] + ext;
            let lower = lower_ascii_text(ext);
            &&& stem(name) == front
            &&& kind_of(name) == FileKind::Bin <==> lower == seq!['b', 'i', 'n']
            &&& kind_of(name) == FileKind::Cue <==> lower == seq!['c', 'u', 'e']
            &&& kind_of(name) == FileKind::Cdg <==> lower == seq!['c', 'd', 'g']
        }),
{
    reveal_strlit("bin");
    reveal_strlit("cue");
    reveal_strlit("cdg");
    assert("bin"@ =~= seq!['b', 'i', 'n']);
    assert("cue"@ =~= seq!['c', 'u', 'e']);
    assert("cdg"@ =~= seq!['c', 'd', 'g']);
    assert("bin"@[0] != "cue"@[0]);
    assert("cdg"@[1] != "cue"@[1]);
    lemma_kind_of_joined(front, ext);
}

/// A name without a dot behind its first character is of no kind, and is its own stem.
pub proof fn law_name_without_extension(name: Seq<char>)
    requires
        forall|i: int| 1 <= i < name.len() ==> #[trigger] name[i] != '.',
    ensures
        kind_of(name) == FileKind::Other,
        stem(name) == name,
{
    if name.len() > 0 && name[0] == '.' {
        lemma_last_char_is(name, '.', 0);
    } else {
        lemma_last_char_is(name, '.', -1);
    }
    assert(extension(name) is None);
}

/// One name more is one file more of its kind, and none of another kind.
pub proof fn law_one_more_file_counts(names: Seq<Seq<char>>, name: Seq<char>, kind: FileKind)
    ensures
        count_kind(Seq::empty(), kind) == 0,
        count_kind(names.push(name), kind) == count_kind(names, kind) + (if kind_of(name) == kind {
            1nat
        } else {
            0
        }),
{
    reveal(Seq::filter);
    let pred = |n: Seq<char>| kind_of(n) == kind;
    assert(names.push(name).drop_last() =~= names);
    assert(names.push(name).last() == name);
    assert(names.push(name).filter(pred) =~= if pred(name) {
        names.filter(pred).push(name)
    } else {
        names.filter(pred)
    });
    assert(Seq::<Seq<char>>::empty().filter(pred).len() == 0);
}

// ---------------------------------------------------------------------------
// Identifiers
// ---------------------------------------------------------------------------

/// ASCII letters and digits are kept, in lower case.
pub proof fn law_identifier_of_word(word: Seq<char>)
    requires
        forall|i: int|
            0 <= i < word.len() ==> 'a' <= #[trigger] word[i] <= 'z' || 'A' <= word[i] <= 'Z' || '0'
                <= word[i] <= '9',
    ensures
        identifier(word) == lower_ascii_text(word),
{
    let sep = |c: char| !is_alphanumeric(c);
    let low = lower_ascii_text(word);
    if word.len() == 0 {
        assert(low =~= seq![]);
        assert(fields(low, sep) =~= seq![]);
    } else {
        assert forall|j: int| 0 <= j < low.len() implies !sep(#[trigger] low[j]) by {
            assert('a' <= word[j] <= 'z' || 'A' <= word[j] <= 'Z' || '0' <= word[j] <= '9');
            lemma_lower_is_alphanumeric(word[j]);
        }
        assert(low.skip(0) =~= low);
        lemma_fields_field(low, sep, 0, low.len() as int);
        assert(low.subrange(0, low.len() as int) =~= low);
        assert(low.skip(low.len() as int) =~= seq![]);
        assert(fields(low, sep) =~= seq![low]);
    }
}

proof fn lemma_lower_is_alphanumeric(c: char)
    ensures
        is_alphanumeric(lower_ascii(c)) == is_alphanumeric(c),
{
}

/// Anything else parts words: the identifier of two texts with such a character between them is
/// made of the identifiers of both, with a hyphen between them where neither is empty.
pub proof fn law_identifier_of_parts(a: Seq<char>, c: char, b: Seq<char>)
    requires
        !('a' <= c <= 'z' || 'A' <= c <= 'Z' || '0' <= c <= '9'),
    ensures
        identifier(a + seq![c] + b) == (if identifier(a).len() == 0 {
            identifier(b)
        } else if identifier(b).len() == 0 {
            identifier(a)
        } else {
            identifier(a) + seq!['-'] + identifier(b)
        }),
{
    let sep = |x: char| !is_alphanumeric(x);
    let (low, end) = (lower_ascii_text(a), lower_ascii_text(b));
    assert(lower_ascii_text(a + seq![c] + b) =~= low + seq![c] + end);
    lemma_fields_of_parts(low, sep, c, end);
    lemma_identifier_words(a);
    lemma_identifier_words(b);
    lemma_joined_parts(identifier_words(a), identifier_words(b));
}

proof fn lemma_fields_of_parts(a: Seq<char>, sep: spec_fn(char) -> bool, c: char, b: Seq<char>)
    requires
        sep(c),
    ensures
        fields(a + seq![c] + b, sep) == fields(a, sep) + fields(b, sep),
    decreases a.len(),
{
    let s = a + seq![c] + b;
    assert(s.skip(0) =~= s);
    assert(a.skip(0) =~= a);
    if a.len() == 0 {
        lemma_fields_sep(s, sep, 0);
        assert(s.skip(1) =~= b);
        assert(fields(a, sep) + fields(b, sep) =~= fields(b, sep));
    } else if sep(a[0]) {
        lemma_fields_of_parts(a.skip(1), sep, c, b);
        assert(s[0] == a[0]);
        lemma_fields_sep(s, sep, 0);
        lemma_fields_sep(a, sep, 0);
        assert(s.skip(1) =~= a.skip(1) + seq![c] + b);
    } else {
        let word = |x: char| !sep(x);
        let n = run_len(a, word);
        lemma_run_len(a, word);
        assert(word(a[0]));
        assert(n > 0);
        assert forall|j: int| 0 <= j < n implies !sep(#[trigger] a[j]) by {
            assert(word(a[j]));
        }
        if n < a.len() {
            assert(!word(a[n]));
        }
        assert forall|j: int| 0 <= j < n implies !sep(#[trigger] s[j]) by {
            assert(s[j] == a[j]);
        }
        assert(s[n] == if n < a.len() {
            a[n]
        } else {
            c
        });
        lemma_fields_field(s, sep, 0, n);
        lemma_fields_field(a, sep, 0, n);
        let rest = a.skip(n);
        lemma_fields_of_parts(rest, sep, c, b);
        assert(s.skip(n) =~= rest + seq![c] + b);
        assert(s.subrange(0, n) =~= a.subrange(0, n));
        assert(fields(s, sep) =~= fields(a, sep) + fields(b, sep));
    }
}

proof fn lemma_joined_parts(a: Seq<Seq<char>>, b: Seq<Seq<char>>)
    requires
        forall|k: int| 0 <= k < a.len() ==> (#[trigger] a[k]).len() > 0,
        forall|k: int| 0 <= k < b.len() ==> (#[trigger] b[k]).len() > 0,
    ensures
        joined(a, seq!['-']).len() == 0 <==> a.len() == 0,
        joined(b, seq!['-']).len() == 0 <==> b.len() == 0,
        joined(a + b, seq!['-']) == (if a.len() == 0 {
            joined(b, seq!['-'])
        } else if b.len() == 0 {
            joined(a, seq!['-'])
        } else {
            joined(a, seq!['-']) + seq!['-'] + joined(b, seq!['-'])
        }),
    decreases b.len(),
{
    let dash = seq!['-'];
    if a.len() == 1 {
        assert(a[0].len() > 0);
    }
    if b.len() == 0 {
        assert(a + b =~= a);
    } else {
        let less = b.drop_last();
        assert forall|k: int| 0 <= k < less.len() implies (#[trigger] less[k]).len() > 0 by {
            assert(less[k] == b[k]);
        }
        assert(b[b.len() - 1].len() > 0);
        lemma_joined_parts(a, less);
        assert((a + b).drop_last() =~= a + less);
        assert((a + b).last() == b.last());
        if a.len() == 0 {
            assert(a + b =~= b);
        } else if b.len() == 1 {
            assert(a + less =~= a);
        } else {
            assert(joined(a + b, dash) =~= joined(a, dash) + dash + joined(b, dash));
        }
    }
}

} // verus!
