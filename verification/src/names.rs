//! File names of tracks, and identifiers derived from titles.

use crate::casing::{
    alike, lemma_alike_occurs, lemma_lower_of_ascii, lemma_lower_of_joined, lower_start, lower_text,
    to_lowercase,
};
use crate::decimal::{
    decimal, decimal_two, law_decimal_round_trip, lemma_decimal, lemma_decimal_two, parse_decimal,
    read_decimal, write_decimal, write_decimal_two,
};
use crate::text::{
    chars_of, digit_run, fields, fields_of, find, find_text, is_ascii_char, is_ascii_text, is_digit,
    lemma_fields_field, lemma_fields_sep, lemma_find_after, lemma_run_len, lemma_run_len_is, lower_ascii,
    lower_ascii_text, occurs, push_char, push_chars, run_len, to_lower_ascii, trim_start, trim_start_of,
};
use vstd::prelude::*;
use vstd::slice::slice_subrange;
use vstd::string::StringExecFns;

verus! {

// ---------------------------------------------------------------------------
// Track numbers in names
// ---------------------------------------------------------------------------

/// A track number: two digits at least where the disc has more than nine tracks.
pub open spec fn track_digits(num: int, total: int) -> Seq<char> {
    if total > 9 {
        decimal_two(num)
    } else {
        decimal(num)
    }
}

/// The part of a name that gives the track number.
pub open spec fn track_suffix(num: int, total: int) -> Seq<char> {
    "(Track "@ + track_digits(num, total) + ")"@
}

/// The name of the file that holds one track of a disc with `total` tracks.
pub open spec fn track_file_name(base: Seq<char>, num: int, total: int) -> Seq<char> {
    if total == 1 {
        base + ".bin"@
    } else {
        base + " "@ + track_suffix(num, total) + ".bin"@
    }
}

/// The decimal digits that `s` starts with.
pub open spec fn leading_digits(s: Seq<char>) -> Seq<char> {
    s.take(run_len(s, |c: char| is_digit(c)))
}

/// The digits that follow the first `(track ` of a name in lower case.
pub open spec fn bracketed_digits(lower: Seq<char>) -> Seq<char> {
    match find(lower, "(track "@) {
        Some(i) => leading_digits(lower.skip(i + "(track "@.len())),
        None => seq![],
    }
}

/// The digits that follow the first `track` of a name in lower case, with or without white space
/// before them.
pub open spec fn loose_digits(lower: Seq<char>) -> Seq<char> {
    match find(lower, "track"@) {
        Some(i) => leading_digits(trim_start(lower.skip(i + "track"@.len()))),
        None => seq![],
    }
}

/// The track number in a name in lower case. Digits in brackets go first; digits that are too
/// large for 32 bits give no number.
pub open spec fn track_number(lower: Seq<char>) -> Option<int> {
    if bracketed_digits(lower).len() > 0 {
        read_decimal(bracketed_digits(lower), u32::MAX as int)
    } else if loose_digits(lower).len() > 0 {
        read_decimal(loose_digits(lower), u32::MAX as int)
    } else {
        None
    }
}

/// Formats a track suffix, with zero padding when there are more than nine tracks.
pub fn format_track_suffix(num: u32, total: usize) -> (s: String)
    ensures
        s@ == track_suffix(num as int, total as int),
{
    let mut out = String::new();
    out.append("(Track ");
    if total > 9 {
        push_chars(&mut out, write_decimal_two(num as u64).as_slice());
    } else {
        push_chars(&mut out, write_decimal(num as u64).as_slice());
    }
    out.append(")");
    assert(out@ =~= track_suffix(num as int, total as int));
    out
}

/// The name of the file of one track: `Base (Track 1).bin`, or `Base (Track 01).bin` when there
/// are more than nine tracks, or `Base.bin` when there is only one.
pub fn track_bin_name(base: &str, num: u32, total: usize) -> (s: String)
    ensures
        s@ == track_file_name(base@, num as int, total as int),
{
    let mut out = String::new();
    out.append(base);
    if total != 1 {
        out.append(" ");
        out.append(format_track_suffix(num, total).as_str());
    }
    out.append(".bin");
    assert(out@ =~= track_file_name(base@, num as int, total as int));
    out
}

/// The track number in a name that is already in lower case.
pub fn track_num_in_lower(lower: &str) -> (r: Option<u32>)
    ensures
        match r {
            Some(num) => track_number(lower@) == Some(num as int),
            None => track_number(lower@) is None,
        },
{
    let cs = chars_of(lower);
    let cs = cs.as_slice();
    let len: usize = cs.len();
    let bracket = chars_of("(track ");
    if let Some(i) = find_text(cs, bracket.as_slice()) {
        let rest = slice_subrange(cs, i + bracket.len(), len);
        assert(rest@ =~= cs@.skip(i + bracket@.len()));
        let n = digit_run(rest);
        if n > 0 {
            let digits = slice_subrange(rest, 0, n);
            assert(digits@ =~= bracketed_digits(lower@));
            return match parse_decimal(digits, u32::MAX as u64) {
                Some(v) => Some(v as u32),
                None => None,
            };
        }
    }
    assert(bracketed_digits(lower@).len() == 0);
    let loose = chars_of("track");
    if let Some(i) = find_text(cs, loose.as_slice()) {
        let rest = slice_subrange(cs, i + loose.len(), len);
        assert(rest@ =~= cs@.skip(i + loose@.len()));
        let rest = trim_start_of(rest);
        let n = digit_run(rest);
        if n > 0 {
            let digits = slice_subrange(rest, 0, n);
            assert(digits@ =~= loose_digits(lower@));
            return match parse_decimal(digits, u32::MAX as u64) {
                Some(v) => Some(v as u32),
                None => None,
            };
        }
    }
    assert(loose_digits(lower@).len() == 0);
    None
}

/// Extracts a track number from a file name, in one of the usual forms: `(Track 1).bin` or
/// `(Track 01).bin`; `01 - Track  1.bin` with any white space; `Track01.bin`.
pub fn extract_track_num(name: &str) -> (r: Option<u32>)
    ensures
        match r {
            Some(num) => track_number(lower_text(name@)) == Some(num as int),
            None => track_number(lower_text(name@)) is None,
        },
{
    let lower = to_lowercase(name);
    track_num_in_lower(lower.as_str())
}

// ---------------------------------------------------------------------------
// Identifiers
// ---------------------------------------------------------------------------

pub open spec fn is_alphanumeric(c: char) -> bool {
    'a' <= c <= 'z' || 'A' <= c <= 'Z' || '0' <= c <= '9'
}

/// The texts of a list, one after the other, with `sep` between them.
pub open spec fn joined(list: Seq<Seq<char>>, sep: Seq<char>) -> Seq<char>
    decreases list.len(),
{
    if list.len() == 0 {
        seq![]
    } else if list.len() == 1 {
        list[0]
    } else {
        joined(list.drop_last(), sep) + sep + list.last()
    }
}

/// The runs of ASCII letters and digits in a title, in lower case.
pub open spec fn identifier_words(title: Seq<char>) -> Seq<Seq<char>> {
    fields(lower_ascii_text(title), |c: char| !is_alphanumeric(c))
}

/// The identifier for a title.
pub open spec fn identifier(title: Seq<char>) -> Seq<char> {
    joined(identifier_words(title), seq!['-'])
}

fn between_words(c: char) -> (b: bool)
    ensures
        b == !is_alphanumeric(c),
{
    !(('a' <= c && c <= 'z') || ('A' <= c && c <= 'Z') || ('0' <= c && c <= '9'))
}

/// Derives an identifier from a title: its runs of ASCII letters and digits, in lower case, with
/// a hyphen between them.
pub fn derive_identifier(base_name: String) -> (s: String)
    ensures
        s@ == identifier(base_name@),
{
    let cs = chars_of(base_name.as_str());
    let mut low: Vec<char> = Vec::new();
    for i in 0..cs.len()
        invariant
            low@ == lower_ascii_text(cs@.take(i as int)),
    {
        low.push(to_lower_ascii(cs[i]));
        assert(low@ =~= lower_ascii_text(cs@.take(i + 1)));
    }
    assert(cs@.take(cs@.len() as int) =~= cs@);
    let parts = fields_of(low.as_slice(), between_words, Ghost(|c: char| !is_alphanumeric(c)));
    let ghost list = identifier_words(base_name@);
    let mut out = String::new();
    for i in 0..parts.len()
        invariant
            parts@.len() == list.len(),
            forall|j: int| 0 <= j < parts@.len() ==> (#[trigger] parts@[j])@ == list[j],
            out@ == joined(list.take(i as int), seq!['-']),
    {
        if i > 0 {
            push_char(&mut out, '-');
        }
        push_chars(&mut out, parts[i].as_slice());
        proof {
            let next = list.take(i + 1);
            assert(next.drop_last() =~= list.take(i as int));
            assert(next.last() == list[i as int]);
            assert(out@ =~= joined(next, seq!['-']));
        }
    }
    assert(list.take(list.len() as int) =~= list);
    out
}

// ---------------------------------------------------------------------------
// Laws
// ---------------------------------------------------------------------------

/// A text of lower-case ASCII letters and digits.
pub open spec fn is_plain_word(w: Seq<char>) -> bool {
    forall|i: int|
        0 <= i < w.len() ==> is_alphanumeric(#[trigger] w[i]) && lower_ascii(w[i]) == w[i]
}

/// A list of such texts, none of them empty.
pub open spec fn all_plain(list: Seq<Seq<char>>) -> bool {
    forall|k: int| 0 <= k < list.len() ==> is_plain_word(#[trigger] list[k]) && list[k].len() > 0
}

/// Every field of a text is not empty and holds only characters of the text that are no
/// separators.
proof fn lemma_fields_are_plain(s: Seq<char>)
    requires
        forall|i: int| 0 <= i < s.len() ==> lower_ascii(#[trigger] s[i]) == s[i],
    ensures
        all_plain(fields(s, |c: char| !is_alphanumeric(c))),
    decreases s.len(),
{
    let sep = |c: char| !is_alphanumeric(c);
    if s.len() == 0 {
    } else if sep(s[0]) {
        let t = s.skip(1);
        assert forall|i: int| 0 <= i < t.len() implies lower_ascii(#[trigger] t[i]) == t[i] by {
            assert(t[i] == s[i + 1]);
        }
        lemma_fields_are_plain(t);
    } else {
        let word = |c: char| !sep(c);
        let n = run_len(s, word);
        lemma_run_len(s, word);
        assert(n > 0) by {
            assert(word(s[0]));
        }
        let t = s.skip(n);
        assert forall|i: int| 0 <= i < t.len() implies lower_ascii(#[trigger] t[i]) == t[i] by {
            assert(t[i] == s[i + n]);
        }
        lemma_fields_are_plain(t);
        let first = s.take(n);
        assert forall|i: int| 0 <= i < first.len() implies is_alphanumeric(#[trigger] first[i])
            && lower_ascii(first[i]) == first[i] by {
            assert(word(s[i]));
        }
        let all = fields(s, sep);
        assert(all =~= seq![first] + fields(t, sep));
        assert forall|k: int| 0 <= k < all.len() implies is_plain_word(#[trigger] all[k])
            && all[k].len() > 0 by {
            if k > 0 {
                assert(all[k] == fields(t, sep)[k - 1]);
            }
        }
    }
}

/// The words of an identifier are not empty and hold lower-case letters and digits.
pub proof fn lemma_identifier_words(title: Seq<char>)
    ensures
        all_plain(identifier_words(title)),
{
    let low = lower_ascii_text(title);
    assert forall|i: int| 0 <= i < low.len() implies lower_ascii(#[trigger] low[i]) == low[i] by {
        assert(low[i] == lower_ascii(title[i]));
    }
    lemma_fields_are_plain(low);
}

/// A text is made of lower-case letters and digits, with single hyphens inside.
pub open spec fn is_identifier(s: Seq<char>) -> bool {
    &&& forall|i: int|
        0 <= i < s.len() ==> 'a' <= #[trigger] s[i] <= 'z' || '0' <= s[i] <= '9' || s[i] == '-'
    &&& s.len() > 0 ==> s[0] != '-' && s.last() != '-'
    &&& forall|i: int| #![trigger s[i]] 0 <= i < s.len() - 1 && s[i] == '-' ==> s[i + 1] != '-'
}

proof fn lemma_joined_shape(list: Seq<Seq<char>>)
    requires
        all_plain(list),
    ensures
        is_identifier(joined(list, seq!['-'])),
        list.len() > 0 ==> joined(list, seq!['-']).len() > 0,
    decreases list.len(),
{
    let s = joined(list, seq!['-']);
    if list.len() == 1 {
        let w = list[0];
        assert(is_plain_word(w));
        assert forall|i: int| 0 <= i < s.len() implies is_alphanumeric(#[trigger] s[i])
            && lower_ascii(s[i]) == s[i] by {
            assert(is_alphanumeric(w[i]));
        }
    } else if list.len() > 1 {
        let rest = list.drop_last();
        assert forall|k: int| 0 <= k < rest.len() implies is_plain_word(#[trigger] rest[k])
            && rest[k].len() > 0 by {
            assert(rest[k] == list[k]);
        }
        lemma_joined_shape(rest);
        let a = joined(rest, seq!['-']);
        let w = list[list.len() - 1];
        assert(is_plain_word(w));
        assert(s =~= a + seq!['-'] + w);
        assert forall|i: int| 0 <= i < s.len() implies 'a' <= #[trigger] s[i] <= 'z' || '0' <= s[i]
            <= '9' || s[i] == '-' by {
            if i < a.len() {
                assert(s[i] == a[i]);
            } else if i > a.len() {
                assert(s[i] == w[i - a.len() - 1]);
                assert(is_alphanumeric(w[i - a.len() - 1]));
            }
        }
        assert(s[0] == a[0]);
        assert(s.last() == w[w.len() - 1]);
        assert(is_alphanumeric(w[w.len() - 1]));
        assert forall|i: int| #![trigger s[i]] 0 <= i < s.len() - 1 && s[i] == '-' implies s[i + 1]
            != '-' by {
            if i + 1 < a.len() {
                assert(s[i] == a[i] && s[i + 1] == a[i + 1]);
            } else if i + 1 == a.len() {
                assert(s[i] == a[a.len() - 1]);
                assert(a.last() != '-');
            } else {
                assert(s[i + 1] == w[i - a.len()]);
                assert(is_alphanumeric(w[i - a.len()]));
            }
        }
    }
}

/// An identifier holds only lower-case ASCII letters, digits and hyphens; no hyphen stands at
/// either end or next to another.
pub proof fn law_identifier_shape(title: Seq<char>)
    ensures
        is_identifier(identifier(title)),
{
    lemma_identifier_words(title);
    lemma_joined_shape(identifier_words(title));
}

/// The fields of a text that ends in a separator and one more field.
proof fn lemma_fields_append(a: Seq<char>, sep: spec_fn(char) -> bool, c: char, w: Seq<char>)
    requires
        sep(c),
        w.len() > 0,
        forall|i: int| 0 <= i < w.len() ==> !sep(#[trigger] w[i]),
    ensures
        fields(a + seq![c] + w, sep) == fields(a, sep).push(w),
    decreases a.len(),
{
    let s = a + seq![c] + w;
    if a.len() == 0 {
        assert(s.skip(0) =~= s);
        assert(s[0] == c);
        lemma_fields_sep(s, sep, 0);
        assert forall|j: int| 1 <= j < s.len() implies !sep(#[trigger] s[j]) by {
            assert(s[j] == w[j - 1]);
        }
        lemma_fields_field(s, sep, 1, s.len() as int);
        assert(s.subrange(1, s.len() as int) =~= w);
        assert(fields(s.skip(s.len() as int), sep) =~= seq![]);
        assert(fields(s, sep) =~= fields(a, sep).push(w));
    } else if sep(a[0]) {
        assert(s[0] == a[0]);
        assert(s.skip(1) =~= a.skip(1) + seq![c] + w);
        lemma_fields_append(a.skip(1), sep, c, w);
    } else {
        let word = |x: char| !sep(x);
        let n = run_len(a, word);
        lemma_run_len(a, word);
        assert(n > 0) by {
            assert(word(a[0]));
        }
        assert(s[0] == a[0]);
        assert forall|j: int| 0 <= j < n implies !sep(#[trigger] s[j]) by {
            assert(word(a[j]));
            assert(s[j] == a[j]);
        }
        if n < a.len() {
            assert(!word(a[n]));
            assert(s[n] == a[n]);
        } else {
            assert(s[n] == c);
        }
        assert(s.skip(0) =~= s);
        lemma_fields_field(s, sep, 0, n);
        assert(s.subrange(0, n) =~= a.take(n));
        assert(s.skip(n) =~= a.skip(n) + seq![c] + w);
        lemma_fields_append(a.skip(n), sep, c, w);
        assert(fields(s, sep) =~= fields(a, sep).push(w));
    }
}

/// Splitting what was joined gives the words back.
proof fn lemma_fields_joined(list: Seq<Seq<char>>, sep: spec_fn(char) -> bool)
    requires
        sep('-'),
        forall|k: int, i: int|
            0 <= k < list.len() && 0 <= i < list[k].len() ==> !sep(#[trigger] list[k][i]),
        forall|k: int| 0 <= k < list.len() ==> (#[trigger] list[k]).len() > 0,
    ensures
        fields(joined(list, seq!['-']), sep) == list,
    decreases list.len(),
{
    if list.len() == 0 {
        assert(fields(seq![], sep) =~= list);
    } else if list.len() == 1 {
        let w = list[0];
        assert(w.skip(0) =~= w);
        assert forall|j: int| 0 <= j < w.len() implies !sep(#[trigger] w[j]) by {
            assert(!sep(list[0][j]));
        }
        lemma_fields_field(w, sep, 0, w.len() as int);
        assert(w.subrange(0, w.len() as int) =~= w);
        assert(fields(w.skip(w.len() as int), sep) =~= seq![]);
        assert(fields(w, sep) =~= list);
    } else {
        let rest = list.drop_last();
        let w = list.last();
        assert forall|k: int, i: int| 0 <= k < rest.len() && 0 <= i < rest[k].len() implies !sep(
            #[trigger] rest[k][i],
        ) by {
            assert(!sep(list[k][i]));
        }
        assert forall|k: int| 0 <= k < rest.len() implies (#[trigger] rest[k]).len() > 0 by {
            assert(list[k].len() > 0);
        }
        lemma_fields_joined(rest, sep);
        assert forall|i: int| 0 <= i < w.len() implies !sep(#[trigger] w[i]) by {
            assert(!sep(list[list.len() - 1][i]));
        }
        lemma_fields_append(joined(rest, seq!['-']), sep, '-', w);
        assert(rest.push(w) =~= list);
    }
}

/// The identifier of an identifier is the identifier itself.
pub proof fn law_identifier_idempotent(title: Seq<char>)
    ensures
        identifier(identifier(title)) == identifier(title),
{
    let list = identifier_words(title);
    let s = identifier(title);
    let sep = |c: char| !is_alphanumeric(c);
    lemma_identifier_words(title);
    law_identifier_shape(title);
    assert forall|i: int| 0 <= i < s.len() implies lower_ascii(#[trigger] s[i]) == s[i] by {
        assert('a' <= s[i] <= 'z' || '0' <= s[i] <= '9' || s[i] == '-');
    }
    assert(lower_ascii_text(s) =~= s);
    assert forall|k: int, i: int| 0 <= k < list.len() && 0 <= i < list[k].len() implies !sep(
        #[trigger] list[k][i],
    ) by {
        assert(is_plain_word(list[k]));
        assert(is_alphanumeric(list[k][i]));
    }
    lemma_fields_joined(list, sep);
}

/// The number after the first `(track ` of a name in lower case is read back.
proof fn lemma_track_number_in_lower(low: Seq<char>, num: int, total: int, tail: Seq<char>)
    requires
        0 <= num <= u32::MAX,
        !occurs(low + " "@, "(track "@),
    ensures
        track_number(low + " "@ + lower_ascii_text(track_suffix(num, total)) + tail) == Some(num),
{
    reveal_strlit(" ");
    reveal_strlit("(track ");
    let suffix = lower_ascii_text(track_suffix(num, total));
    let front = low + " "@;
    lemma_find_number(front, num, total, tail);
    assert(low + " "@ + suffix + tail =~= front + suffix + tail);
}

proof fn lemma_find_number(front: Seq<char>, num: int, total: int, tail: Seq<char>)
    requires
        0 <= num <= u32::MAX,
        !occurs(front, "(track "@),
    ensures
        track_number(front + lower_ascii_text(track_suffix(num, total)) + tail) == Some(num),
{
    reveal_strlit("(track ");
    reveal_strlit(")");
    let digits = track_digits(num, total);
    lemma_track_digits(num, total);
    law_decimal_round_trip(num, u32::MAX as int);
    lemma_suffix_in_lower(num, total);
    let whole = front + lower_ascii_text(track_suffix(num, total)) + tail;
    let rest = digits + ")"@ + tail;
    assert(whole =~= front + "(track "@ + rest);
    lemma_find_after(front, "(track "@, rest);
    assert(whole.skip(front.len() as int + 7) =~= rest);
    let p = |c: char| is_digit(c);
    assert forall|j: int| 0 <= j < digits.len() implies p(#[trigger] rest[j]) by {
        assert(rest[j] == digits[j]);
        assert(is_digit(digits[j]));
    }
    assert(rest[digits.len() as int] == ')');
    lemma_run_len_is(rest, p, digits.len() as int);
    assert(bracketed_digits(whole) =~= digits);
}

/// The name of a track file in lower case: that of the base name, but for sigmas, and then the
/// track number and the extension.
pub proof fn lemma_track_name_in_lower(
    base: Seq<char>,
    num: int,
    total: int,
    ext: Seq<char>,
) -> (low: Seq<char>)
    requires
        0 <= num,
        is_ascii_text(ext),
    ensures
        alike(low, lower_text(base)),
        lower_text(base + " "@ + track_suffix(num, total) + ext) == low + " "@ + lower_ascii_text(
            track_suffix(num, total),
        ) + lower_ascii_text(ext),
{
    reveal_strlit(" ");
    let suffix = track_suffix(num, total);
    let end = " "@ + suffix + ext;
    lemma_suffix_is_ascii(num, total);
    assert forall|i: int| 0 <= i < end.len() implies is_ascii_char(#[trigger] end[i]) by {
        if 1 <= i < 1 + suffix.len() {
            assert(end[i] == suffix[i - 1]);
        } else if i > 0 {
            assert(end[i] == ext[i - 1 - suffix.len()]);
        }
    }
    lemma_lower_of_joined(base, end);
    let low = lower_start(base + end, base.len());
    assert(base + " "@ + suffix + ext =~= base + end);
    assert(low + lower_ascii_text(end) =~= low + " "@ + lower_ascii_text(suffix)
        + lower_ascii_text(ext));
    low
}

/// The number of a track can be read back from a name that starts with a title and gives the
/// number. The lower case of the title, with a blank after it, must hold no `(track ` of its own.
pub proof fn law_track_number_of_name(base: Seq<char>, num: int, total: int, ext: Seq<char>)
    requires
        0 <= num <= u32::MAX,
        is_ascii_text(ext),
        !occurs(lower_text(base) + " "@, "(track "@),
    ensures
        track_number(lower_text(base + " "@ + track_suffix(num, total) + ext)) == Some(num),
{
    reveal_strlit(" ");
    reveal_strlit("(track ");
    let low = lemma_track_name_in_lower(base, num, total, ext);
    if occurs(low + " "@, "(track "@) {
        lemma_alike_occurs(low + " "@, lower_text(base) + " "@, "(track "@);
    }
    lemma_track_number_in_lower(low, num, total, lower_ascii_text(ext));
}

/// The number of a track can be read back from the name of its file.
pub proof fn law_track_number_of_file(base: Seq<char>, num: int, total: int)
    requires
        0 <= num <= u32::MAX,
        total != 1,
        !occurs(lower_text(base) + " "@, "(track "@),
    ensures
        track_number(lower_text(track_file_name(base, num, total))) == Some(num),
{
    reveal_strlit(".bin");
    law_track_number_of_name(base, num, total, ".bin"@);
}

/// The number of a track can be read back from the suffix that gives it, with and without padding.
pub proof fn law_track_number_of_suffix(num: int, total: int)
    requires
        0 <= num <= u32::MAX,
    ensures
        track_number(lower_text(track_suffix(num, total))) == Some(num),
{
    reveal_strlit("(track ");
    let suffix = track_suffix(num, total);
    let none = Seq::<char>::empty();
    lemma_suffix_is_ascii(num, total);
    lemma_lower_of_ascii(suffix);
    lemma_find_number(none, num, total, none);
    assert(none + lower_ascii_text(suffix) + none =~= lower_ascii_text(suffix));
}

/// The part of a name that gives the track number is in ASCII.
proof fn lemma_suffix_is_ascii(num: int, total: int)
    requires
        0 <= num,
    ensures
        is_ascii_text(track_suffix(num, total)),
{
    reveal_strlit("(Track ");
    reveal_strlit(")");
    let digits = track_digits(num, total);
    let suffix = track_suffix(num, total);
    lemma_track_digits(num, total);
    assert forall|i: int| 0 <= i < suffix.len() implies is_ascii_char(#[trigger] suffix[i]) by {
        if 7 <= i < 7 + digits.len() {
            assert(suffix[i] == digits[i - 7]);
            assert(is_digit(digits[i - 7]));
        }
    }
}

/// A track number is made of digits.
pub proof fn lemma_track_digits(num: int, total: int)
    requires
        0 <= num,
    ensures
        track_digits(num, total).len() > 0,
        forall|i: int|
            0 <= i < track_digits(num, total).len() ==> is_digit(
                #[trigger] track_digits(num, total)[i],
            ),
{
    lemma_decimal(num);
    lemma_decimal_two(num);
}

/// The part of a name that gives the track number, in lower case.
pub proof fn lemma_suffix_in_lower(num: int, total: int)
    requires
        0 <= num,
    ensures
        lower_ascii_text(track_suffix(num, total)) == "(track "@ + track_digits(num, total)
            + ")"@,
{
    reveal_strlit("(track ");
    reveal_strlit("(Track ");
    reveal_strlit(")");
    let digits = track_digits(num, total);
    lemma_track_digits(num, total);
    assert forall|i: int| 0 <= i < digits.len() implies lower_ascii(#[trigger] digits[i])
        == digits[i] by {
        assert(is_digit(digits[i]));
    }
    assert(lower_ascii_text(track_suffix(num, total)) =~= "(track "@ + digits + ")"@);
}

} // verus!
