//! What holds of texts, of numbers and of positions, told by their characters.

use crate::decimal::{all_digits, decimal, decimal_two, decimal_value, lemma_read_decimal_value, read_decimal};
use crate::msf::{block_size, msf_sectors, msf_text};
use crate::order::text_le;
use crate::text::{
    find, is_ascii_char, is_digit, is_white_space, lemma_fields_field, lemma_fields_sep,
    lemma_find_first, lemma_lines_one, lemma_next_char, lemma_replaced_first, lemma_replaced_none,
    lemma_run_len_is, lemma_split_on_first, lemma_split_on_none, lemma_split_on_nonempty,
    lemma_trim_end_is, lines, lower_ascii, lower_ascii_text, next_char, occurs, occurs_at, replaced,
    split_on, trim, upper_ascii, without_final_cr, words,
};
use vstd::prelude::*;

verus! {

// ---------------------------------------------------------------------------
// Texts
// ---------------------------------------------------------------------------

/// Trimming takes away the white space around a text, and nothing else.
pub proof fn law_trim(before: Seq<char>, core: Seq<char>, after: Seq<char>)
    requires
        forall|i: int| 0 <= i < before.len() ==> is_white_space(#[trigger] before[i]),
        forall|i: int| 0 <= i < after.len() ==> is_white_space(#[trigger] after[i]),
        core.len() > 0 ==> !is_white_space(core[0]) && !is_white_space(core.last()),
    ensures
        trim(before + core + after) == core,
{
    let s = before + core + after;
    let p = |c: char| is_white_space(c);
    if core.len() > 0 {
        let n = before.len() as int;
        let t = core + after;
        assert forall|j: int| 0 <= j < n implies p(#[trigger] s[j]) by {
            assert(s[j] == before[j]);
        }
        assert(s[n] == core[0]);
        lemma_run_len_is(s, p, n);
        assert(s.skip(n) =~= t);
        assert(t[core.len() - 1] == core.last());
        assert forall|j: int| core.len() <= j < t.len() implies is_white_space(t[j]) by {
            assert(t[j] == after[j - core.len()]);
        }
        lemma_trim_end_is(t, core.len() as int);
        assert(t.take(core.len() as int) =~= core);
    } else {
        assert forall|j: int| 0 <= j < s.len() implies p(#[trigger] s[j]) by {
            if j < before.len() {
                assert(s[j] == before[j]);
            } else {
                assert(s[j] == after[j - before.len()]);
            }
        }
        lemma_run_len_is(s, p, s.len() as int);
        assert(s.skip(s.len() as int) =~= core);
    }
}

/// A line ends at a line feed; a carriage return before it is part of the ending.
pub proof fn law_first_line(line: Seq<char>, rest: Seq<char>)
    requires
        !line.contains('\n'),
    ensures
        lines(line + seq!['\n'] + rest) == seq![
            if line.len() > 0 && line.last() == '\r' {
                line.drop_last()
            } else {
                line
            },
        ] + lines(rest),
{
    lemma_lines_one(line, rest);
}

/// A text without a line feed is one line as it stands, or none where it is empty.
pub proof fn law_last_line(line: Seq<char>)
    requires
        !line.contains('\n'),
    ensures
        line.len() > 0 ==> lines(line) == seq![line],
        line.len() == 0 ==> lines(line) == Seq::<Seq<char>>::empty(),
{
    lemma_split_on_none(line, '\n');
    let strip = |l: Seq<char>| without_final_cr(l);
    assert(seq![line].drop_last().map_values(strip) =~= seq![]);
    assert(Seq::<Seq<char>>::empty().push(line) =~= seq![line]);
}

/// A text that ends in a line feed, or is empty, is read on its own, and so is what follows it.
pub proof fn law_lines_of_parts(front: Seq<char>, rest: Seq<char>)
    requires
        front.len() == 0 || front.last() == '\n',
    ensures
        lines(front + rest) == lines(front) + lines(rest),
    decreases front.len(),
{
    if front.len() == 0 {
        law_last_line(front);
        assert(front + rest =~= rest);
        assert(lines(front) + lines(rest) =~= lines(rest));
    } else {
        lemma_next_char(front, '\n', 0);
        let i = next_char(front, '\n', 0);
        if i == front.len() {
            assert(front[front.len() - 1] != '\n');
        }
        let line = front.take(i);
        let tail = front.skip(i + 1);
        assert forall|j: int| 0 <= j < line.len() implies line[j] != '\n' by {
            assert(line[j] == front[j]);
        }
        assert(!line.contains('\n'));
        assert(front =~= line + seq!['\n'] + tail);
        assert(front + rest =~= line + seq!['\n'] + (tail + rest));
        if tail.len() > 0 {
            assert(tail.last() == front.last());
        }
        law_lines_of_parts(tail, rest);
        lemma_lines_one(line, tail);
        lemma_lines_one(line, tail + rest);
        assert(lines(front + rest) =~= lines(front) + lines(rest));
    }
}

/// A word ends at white space or at the end of the text.
pub proof fn law_first_word(space: Seq<char>, word: Seq<char>, rest: Seq<char>)
    requires
        forall|i: int| 0 <= i < space.len() ==> is_white_space(#[trigger] space[i]),
        word.len() > 0,
        forall|i: int| 0 <= i < word.len() ==> !is_white_space(#[trigger] word[i]),
        rest.len() > 0 ==> is_white_space(rest[0]),
    ensures
        words(space + word + rest) == seq![word] + words(rest),
    decreases space.len(),
{
    let sep = |c: char| is_white_space(c);
    let s = space + word + rest;
    if space.len() > 0 {
        let t = space.skip(1);
        assert(is_white_space(space[0]));
        assert forall|i: int| 0 <= i < t.len() implies is_white_space(#[trigger] t[i]) by {
            assert(t[i] == space[i + 1]);
        }
        law_first_word(t, word, rest);
        assert(s[0] == space[0]);
        assert(s.skip(0) =~= s);
        assert(s.skip(1) =~= t + word + rest);
        lemma_fields_sep(s, sep, 0);
    } else {
        let n = word.len() as int;
        assert(s.skip(0) =~= s);
        assert forall|j: int| 0 <= j < n implies !sep(#[trigger] s[j]) by {
            assert(s[j] == word[j]);
        }
        if n < s.len() {
            assert(s[n] == rest[0]);
        }
        lemma_fields_field(s, sep, 0, n);
        assert(s.subrange(0, n) =~= word);
        assert(s.skip(n) =~= rest);
    }
}

/// White space alone holds no word.
pub proof fn law_no_words(space: Seq<char>)
    requires
        forall|i: int| 0 <= i < space.len() ==> is_white_space(#[trigger] space[i]),
    ensures
        words(space) == Seq::<Seq<char>>::empty(),
    decreases space.len(),
{
    if space.len() > 0 {
        let t = space.skip(1);
        assert(is_white_space(space[0]));
        assert forall|i: int| 0 <= i < t.len() implies is_white_space(#[trigger] t[i]) by {
            assert(t[i] == space[i + 1]);
        }
        law_no_words(t);
    }
}

/// A text stands in another exactly where the other can be parted around it.
pub proof fn law_occurs(s: Seq<char>, p: Seq<char>)
    ensures
        occurs(s, p) == exists|a: Seq<char>, b: Seq<char>| s == #[trigger] (a + p + b),
{
    if occurs(s, p) {
        let i = choose|i: int| occurs_at(s, p, i);
        let (a, b) = (s.take(i), s.skip(i + p.len()));
        assert(s =~= a + s.subrange(i, i + p.len()) + b);
        assert(s == a + p + b);
    }
    if exists|a: Seq<char>, b: Seq<char>| s == #[trigger] (a + p + b) {
        let (a, b) = choose|a: Seq<char>, b: Seq<char>| s == #[trigger] (a + p + b);
        let i = a.len() as int;
        assert(s.subrange(i, i + p.len()) =~= p);
        assert(occurs_at(s, p, i));
    }
}

/// What is found is the first place at which the text stands.
pub proof fn law_find(s: Seq<char>, p: Seq<char>)
    ensures
        match find(s, p) {
            Some(i) => {
                &&& 0 <= i
                &&& i + p.len() <= s.len()
                &&& s.subrange(i, i + p.len()) == p
                &&& forall|j: int|
                    0 <= j < i ==> #[trigger] s.subrange(j, j + p.len()) != p
            },
            None => forall|j: int|
                0 <= j && j + p.len() <= s.len() ==> #[trigger] s.subrange(j, j + p.len()) != p,
        },
{
    if occurs(s, p) {
        lemma_find_first(s, p);
        let i = find(s, p)->0;
        assert forall|j: int| 0 <= j < i implies #[trigger] s.subrange(j, j + p.len()) != p by {
            assert(!occurs_at(s, p, j));
        }
    } else {
        assert forall|j: int| 0 <= j && j + p.len() <= s.len() implies #[trigger] s.subrange(
            j,
            j + p.len(),
        ) != p by {
            assert(!occurs_at(s, p, j));
        }
    }
}

/// Replacing puts the new text in the place of the first occurrence and goes on after it.
pub proof fn law_replace_first(a: Seq<char>, from: Seq<char>, b: Seq<char>, to: Seq<char>)
    requires
        from.len() > 0,
        forall|j: int|
            0 <= j < a.len() ==> #[trigger] (a + from + b).subrange(j, j + from.len()) != from,
    ensures
        replaced(a + from + b, from, to) == a + to + replaced(b, from, to),
{
    let s = a + from + b;
    let i = a.len() as int;
    assert(s.subrange(i, i + from.len()) =~= from);
    assert forall|j: int| 0 <= j < i implies !occurs_at(s, from, j) by {
        assert(s.subrange(j, j + from.len()) != from);
    }
    lemma_replaced_first(s, from, to, i);
    assert(s.take(i) =~= a);
    assert(s.skip(i + from.len()) =~= b);
}

/// Replacing leaves a text that does not hold what is to be replaced.
pub proof fn law_replace_nothing(s: Seq<char>, from: Seq<char>, to: Seq<char>)
    requires
        forall|a: Seq<char>, b: Seq<char>| s != #[trigger] (a + from + b),
    ensures
        replaced(s, from, to) == s,
{
    law_occurs(s, from);
    lemma_replaced_none(s, from, to);
}

/// The empty text stands before every character and at the end.
pub proof fn law_replace_empty(c: char, s: Seq<char>, to: Seq<char>)
    ensures
        replaced(seq![], seq![], to) == to,
        replaced(seq![c] + s, seq![], to) == to + seq![c] + replaced(s, seq![], to),
{
    assert((seq![c] + s).skip(1) =~= s);
}

/// A beginning of a text comes before it.
pub proof fn law_beginnings_come_first(a: Seq<char>, more: Seq<char>)
    ensures
        text_le(a, a + more),
        more.len() > 0 ==> !text_le(a + more, a),
    decreases a.len(),
{
    if a.len() > 0 {
        law_beginnings_come_first(a.skip(1), more);
        assert((a + more).skip(1) =~= a.skip(1) + more);
    }
}

/// Otherwise the first character in which two texts differ decides, by its code point.
pub proof fn law_first_difference_decides(
    front: Seq<char>,
    x: char,
    a: Seq<char>,
    y: char,
    b: Seq<char>,
)
    requires
        x < y,
    ensures
        text_le(front + seq![x] + a, front + seq![y] + b),
        !text_le(front + seq![y] + b, front + seq![x] + a),
    decreases front.len(),
{
    let s = front + seq![x] + a;
    let t = front + seq![y] + b;
    if front.len() > 0 {
        law_first_difference_decides(front.skip(1), x, a, y, b);
        assert(s.skip(1) =~= front.skip(1) + seq![x] + a);
        assert(t.skip(1) =~= front.skip(1) + seq![y] + b);
    }
}

/// The case of an ASCII letter is 32 code points away; nothing else changes.
pub proof fn law_ascii_case(c: char)
    ensures
        lower_ascii(c) as int == (if 65 <= c as int <= 90 {
            c as int + 32
        } else {
            c as int
        }),
        upper_ascii(c) as int == (if 97 <= c as int <= 122 {
            c as int - 32
        } else {
            c as int
        }),
        is_ascii_char(c) == ((c as int) < 128),
{
}

/// The ASCII lower case of a text is that of its characters, one by one.
pub proof fn law_ascii_lower_case_of_text(s: Seq<char>, i: int)
    requires
        0 <= i < s.len(),
    ensures
        lower_ascii_text(s).len() == s.len(),
        lower_ascii_text(s)[i] == lower_ascii(s[i]),
{
}

// ---------------------------------------------------------------------------
// Numbers
// ---------------------------------------------------------------------------

/// A number is written digit by digit, without leading zeros.
pub proof fn law_decimal_digits(q: int, d: int)
    requires
        0 <= q,
        0 <= d < 10,
    ensures
        q == 0 ==> decimal(10 * q + d) == seq![(48 + d) as char],
        q > 0 ==> decimal(10 * q + d) == decimal(q).push((48 + d) as char),
{
    assert((10 * q + d) / 10 == q && (10 * q + d) % 10 == d);
}

/// With padding, a single digit has a zero in front of it, and nothing else changes.
pub proof fn law_padding(n: int)
    requires
        0 <= n,
    ensures
        n < 10 ==> decimal_two(n) == seq!['0'] + decimal(n),
        n >= 10 ==> decimal_two(n) == decimal(n),
{
    if n < 10 {
        assert(decimal_two(n) =~= seq!['0'] + decimal(n));
    }
}

/// A single digit reads as its value.
pub proof fn law_read_digit(c: char, max: int)
    requires
        48 <= c as int <= 57,
    ensures
        read_decimal(seq![c], max) == (if c as int - 48 <= max {
            Some(c as int - 48)
        } else {
            None
        }),
{
    let s = seq![c];
    assert(s.drop_last() =~= seq![]);
    assert(decimal_value(s.drop_last()) == 0);
    assert(s.last() == c);
    assert(all_digits(s));
}

/// One more digit makes ten times as much and its value; a number that is too large stays so.
pub proof fn law_read_one_more_digit(s: Seq<char>, c: char, max: int)
    requires
        s.len() > 0,
        forall|i: int| 0 <= i < s.len() ==> 48 <= (#[trigger] s[i]) as int <= 57,
        48 <= c as int <= 57,
    ensures
        read_decimal(s.push(c), max) == (match read_decimal(s, max) {
            Some(n) => if 10 * n + (c as int - 48) <= max {
                Some(10 * n + (c as int - 48))
            } else {
                None
            },
            None => None,
        }),
{
    let t = s.push(c);
    assert(t.drop_last() =~= s);
    assert(t.last() == c);
    assert(all_digits(s)) by {
        assert forall|i: int| 0 <= i < s.len() implies is_digit(#[trigger] s[i]) by {
            assert(48 <= s[i] as int <= 57);
        }
    }
    assert(all_digits(t)) by {
        assert forall|i: int| 0 <= i < t.len() implies is_digit(#[trigger] t[i]) by {
            if i < s.len() {
                assert(t[i] == s[i]);
                assert(is_digit(s[i]));
            }
        }
    }
    assert(48 <= s[0] as int <= 57);
    assert(t[0] == s[0]);
    lemma_read_decimal_value(s);
}

/// A plus sign in front of a digit changes nothing.
pub proof fn law_read_plus(s: Seq<char>, max: int)
    requires
        s.len() > 0,
        s[0] != '+',
    ensures
        read_decimal(seq!['+'] + s, max) == read_decimal(s, max),
{
    assert((seq!['+'] + s).skip(1) =~= s);
}

/// Anything else is no number.
pub proof fn law_read_no_number(s: Seq<char>, i: int, max: int)
    ensures
        read_decimal(seq![], max) is None,
        read_decimal(seq!['+'], max) is None,
        0 <= i < s.len() && !(48 <= s[i] as int <= 57) && (i > 0 || s[i] != '+') ==> read_decimal(
            s,
            max,
        ) is None,
{
    assert(seq!['+'].skip(1) =~= seq![]);
    if 0 <= i < s.len() && !(48 <= s[i] as int <= 57) && (i > 0 || s[i] != '+') {
        if s[0] == '+' {
            assert(s.skip(1)[i - 1] == s[i]);
            assert(!is_digit(s.skip(1)[i - 1]));
        } else {
            assert(!is_digit(s[i]));
        }
    }
}

// ---------------------------------------------------------------------------
// Positions
// ---------------------------------------------------------------------------

/// A position is three numbers with colons between them: minutes of 60 seconds, seconds, and
/// frames of which a second has 75.
pub proof fn law_position(a: Seq<char>, b: Seq<char>, c: Seq<char>)
    requires
        !a.contains(':'),
        !b.contains(':'),
        !c.contains(':'),
    ensures
        msf_sectors(a + seq![':'] + b + seq![':'] + c) == (match (
            read_decimal(a, u64::MAX as int),
            read_decimal(b, u64::MAX as int),
            read_decimal(c, u64::MAX as int),
        ) {
            (Some(minutes), Some(seconds), Some(frames)) => Some(
                minutes * 4500 + seconds * 75 + frames,
            ),
            _ => None,
        }),
{
    let s = a + seq![':'] + b + seq![':'] + c;
    assert(s =~= a + seq![':'] + (b + seq![':'] + c));
    lemma_split_on_first(a, ':', b + seq![':'] + c);
    lemma_split_on_first(b, ':', c);
    lemma_split_on_none(c, ':');
    assert(split_on(s, ':') =~= seq![a, b, c]);
}

/// A text with another number of colons is no position.
pub proof fn law_no_position(a: Seq<char>, b: Seq<char>, c: Seq<char>, rest: Seq<char>)
    requires
        !a.contains(':'),
        !b.contains(':'),
        !c.contains(':'),
    ensures
        msf_sectors(a) is None,
        msf_sectors(a + seq![':'] + b) is None,
        msf_sectors(a + seq![':'] + b + seq![':'] + c + seq![':'] + rest) is None,
{
    lemma_split_on_none(a, ':');
    lemma_split_on_none(b, ':');
    lemma_split_on_first(a, ':', b);
    assert(split_on(a + seq![':'] + b, ':') =~= seq![a, b]);
    let s = a + seq![':'] + b + seq![':'] + c + seq![':'] + rest;
    let t = c + seq![':'] + rest;
    assert(s =~= a + seq![':'] + (b + seq![':'] + t));
    lemma_split_on_first(a, ':', b + seq![':'] + t);
    lemma_split_on_first(b, ':', t);
    lemma_split_on_first(c, ':', rest);
    lemma_split_on_nonempty(rest, ':');
    assert(split_on(s, ':').len() > 3);
}

/// A position is written with at least two digits for each number.
pub proof fn law_position_text(minutes: int, seconds: int, frames: int)
    requires
        0 <= minutes,
        0 <= seconds < 60,
        0 <= frames < 75,
    ensures
        msf_text(minutes * 4500 + seconds * 75 + frames) == decimal_two(minutes) + seq![':']
            + decimal_two(seconds) + seq![':'] + decimal_two(frames),
{
    let n = minutes * 4500 + seconds * 75 + frames;
    assert(n / 4500 == minutes);
    assert(n % 4500 / 75 == seconds);
    assert(n % 75 == frames);
}

/// The sizes of sectors.
pub proof fn law_sector_sizes(t: Seq<char>)
    ensures
        block_size("CDG"@) == 2448,
        block_size("MODE1/2048"@) == 2048,
        block_size("MODE2/2336"@) == 2336,
        block_size("CDI/2336"@) == 2336,
        t != "CDG"@ && t != "MODE1/2048"@ && t != "MODE2/2336"@ && t != "CDI/2336"@ ==> block_size(
            t,
        ) == 2352,
{
    reveal_strlit("CDG");
    reveal_strlit("MODE1/2048");
    reveal_strlit("MODE2/2336");
    reveal_strlit("CDI/2336");
    assert("CDG"@.len() == 3 && "CDI/2336"@.len() == 8);
    assert("MODE1/2048"@[4] != "MODE2/2336"@[4]);
}

} // verus!
