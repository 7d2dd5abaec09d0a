//! What is written into a sheet is what reading the sheet gives back.

use crate::casing::{upper_part, upper_text, uppercase};
use crate::cue::{index_line, index_words, is_file_line, line_fits};
use crate::cue::{CueIndex, FileModel, LineModel, TrackModel};
use crate::decimal::{decimal_two, law_decimal_round_trip, lemma_decimal_two};
use crate::layout::{in_32_bits, layout_kind, tracks_in};
use crate::msf::{block_size, law_msf_round_trip, msf_text};
use crate::names::{lemma_track_digits, track_digits, track_file_name};
use crate::order::{is_ranking, law_sort_keeps_items, stable_sort_of};
use crate::rename_plan::{fresh_cue, fresh_entry, number_le};
use crate::sheet::{
    files_of, indexes_of, said, sheet, sheet_block_size, sheet_fits, sheet_lines, tracks_of,
};
use crate::split::{index_entry, relative, split_cue, split_entry, split_steps};
use crate::text::{
    fields, is_ascii_char, is_ascii_text, is_digit, is_white_space, lemma_fields_field, lemma_fields_sep,
    lemma_flatten_singles, lemma_lines_one, lemma_lines_hold_no_line_feed, lemma_next_char, lemma_next_char_is, lemma_trim,
    lemma_trim_core, lines, next_char, occurs_at, trim, upper_ascii, upper_ascii_text, without_final_cr,
    words,
};
use vstd::prelude::*;
use vstd::seq_lib::lemma_flatten_concat;

verus! {

// ---------------------------------------------------------------------------
// Upper case
// ---------------------------------------------------------------------------

/// `u` is made of one part for each character of `s`, and the part for an ASCII character is that
/// character as a capital.
pub open spec fn is_upper_by(s: Seq<char>, u: Seq<char>, parts: Seq<Seq<char>>) -> bool {
    &&& parts.len() == s.len()
    &&& u == parts.flatten()
    &&& forall|i: int|
        0 <= i < s.len() && is_ascii_char(s[i]) ==> #[trigger] parts[i] == seq![upper_ascii(s[i])]
}

/// `u` may be taken for `s` in upper case.
pub open spec fn is_upper_of(s: Seq<char>, u: Seq<char>) -> bool {
    exists|parts: Seq<Seq<char>>| is_upper_by(s, u, parts)
}

/// The upper case of a text may be taken for it.
proof fn lemma_upper_text(s: Seq<char>)
    ensures
        is_upper_of(s, upper_text(s)),
{
    let parts = Seq::new(s.len(), |i: int| upper_part(s[i], uppercase(s, i)));
    assert(is_upper_by(s, upper_text(s), parts));
}

/// The upper case of two texts, one after the other, is that of the first and that of the second.
proof fn lemma_upper_split(a: Seq<char>, b: Seq<char>, u: Seq<char>) -> (r: (Seq<char>, Seq<char>))
    requires
        is_upper_of(a + b, u),
    ensures
        u == r.0 + r.1,
        is_upper_of(a, r.0),
        is_upper_of(b, r.1),
{
    let s = a + b;
    let parts = choose|parts: Seq<Seq<char>>| is_upper_by(s, u, parts);
    let n = a.len() as int;
    let pa = parts.take(n);
    let pb = parts.skip(n);
    assert(parts =~= pa + pb);
    lemma_flatten_concat(pa, pb);
    assert forall|i: int| 0 <= i < a.len() && is_ascii_char(a[i]) implies #[trigger] pa[i]
        == seq![upper_ascii(a[i])] by {
        assert(s[i] == a[i]);
        assert(parts[i] == seq![upper_ascii(s[i])]);
    }
    assert forall|i: int| 0 <= i < b.len() && is_ascii_char(b[i]) implies #[trigger] pb[i]
        == seq![upper_ascii(b[i])] by {
        assert(s[n + i] == b[i]);
        assert(parts[n + i] == seq![upper_ascii(s[n + i])]);
    }
    assert(is_upper_by(a, pa.flatten(), pa));
    assert(is_upper_by(b, pb.flatten(), pb));
    (pa.flatten(), pb.flatten())
}

/// The upper case of an ASCII text leaves nothing open.
proof fn lemma_upper_of_ascii(s: Seq<char>, u: Seq<char>)
    requires
        is_ascii_text(s),
        is_upper_of(s, u),
    ensures
        u == upper_ascii_text(s),
{
    let parts = choose|parts: Seq<Seq<char>>| is_upper_by(s, u, parts);
    assert forall|i: int| 0 <= i < s.len() implies #[trigger] parts[i] == seq![
        upper_ascii(s[i]),
    ] by {
        assert(is_ascii_char(s[i]));
    }
    lemma_flatten_singles(parts, upper_ascii_text(s));
}

// ---------------------------------------------------------------------------
// The lines of a written sheet
// ---------------------------------------------------------------------------

/// A line can be read back as one line that says a certain thing.
pub open spec fn reads_back(
    line: Seq<char>,
    item: LineModel,
) -> bool {
    &&& !line.contains('\n')
    &&& without_final_cr(line) == line
    &&& said(line) == item
    &&& line_fits(upper_text(trim(line)))
}

/// A first line that can be read back, and what follows.
proof fn lemma_first_line(
    line: Seq<char>,
    rest: Seq<char>,
    item: LineModel,
)
    requires
        reads_back(line, item),
    ensures
        sheet_lines(line + seq!['\n'] + rest) == seq![item] + sheet_lines(rest),
        sheet_fits(rest) ==> sheet_fits(line + seq!['\n'] + rest),
{
    lemma_lines_one(line, rest);
    let s = line + seq!['\n'] + rest;
    assert(sheet_lines(s) =~= seq![item] + sheet_lines(rest));
    if sheet_fits(rest) {
        assert forall|k: int| 0 <= k < lines(s).len() implies line_fits(
            upper_text(trim(#[trigger] lines(s)[k])),
        ) by {
            if k > 0 {
                assert(lines(s)[k] == lines(rest)[k - 1]);
                assert(line_fits(upper_text(trim(lines(rest)[k - 1]))));
            }
        }
    }
}

/// The line that begins a file.
pub open spec fn file_line_text(name: Seq<char>) -> Seq<char> {
    "FILE \""@ + name + "\" BINARY"@
}

/// The line that begins a track.
pub open spec fn track_line_text(num: int, track_type: Seq<char>) -> Seq<char> {
    "  TRACK "@ + decimal_two(num) + " "@ + track_type
}

/// The line for an index point.
pub open spec fn index_line_text(index: CueIndex) -> Seq<char> {
    "    INDEX "@ + decimal_two(index.id as int) + " "@ + msf_text(index.sectors as int)
}

/// The line that begins a track, without the white space in front.
pub open spec fn track_core(num: int, track_type: Seq<char>) -> Seq<char> {
    "TRACK "@ + decimal_two(num) + " "@ + track_type
}

/// The line for an index point, without the white space in front.
pub open spec fn index_core(index: CueIndex) -> Seq<char> {
    "INDEX "@ + decimal_two(index.id as int) + " "@ + msf_text(index.sectors as int)
}

proof fn lemma_file_line(name: Seq<char>)
    requires
        !name.contains('"'),
        !name.contains('\n'),
    ensures
        reads_back(file_line_text(name), LineModel::File(Some(name))),
{
    reveal_strlit("FILE \"");
    reveal_strlit("\" BINARY");
    reveal_strlit("FILE ");
    reveal_strlit("BINARY");
    let head = "FILE \""@;
    let tail = "\" BINARY"@;
    let line = file_line_text(name);
    let n = name.len() as int;
    assert(line.len() == n + 14);
    assert(line[0] == 'F');
    assert(line.last() == 'Y');
    assert(Seq::<char>::empty() + line =~= line);
    lemma_trim_core(seq![], line);
    if line.contains('\n') {
        let i = choose|i: int| 0 <= i < line.len() && line[i] == '\n';
        if 6 <= i < 6 + n {
            assert(name[i - 6] == '\n');
        }
    }
    let u = upper_text(line);
    lemma_upper_text(line);
    assert(line =~= head + (name + tail));
    let (uh, ur) = lemma_upper_split(head, name + tail, u);
    let (un, ut) = lemma_upper_split(name, tail, ur);
    lemma_upper_of_ascii(head, uh);
    lemma_upper_of_ascii(tail, ut);
    assert(uh =~= head);
    assert(ut =~= tail);
    assert("FILE "@.is_prefix_of(u)) by {
        assert(u.subrange(0, 5) =~= "FILE "@);
    }
    let at = (uh.len() + un.len() + 2) as int;
    assert(u.subrange(at, at + 6) =~= "BINARY"@);
    assert(occurs_at(u, "BINARY"@, at));
    assert(is_file_line(u));
    lemma_next_char_is(line, '"', 0, 5);
    assert forall|j: int| 6 <= j < 6 + n implies line[j] != '"' by {
        assert(line[j] == name[j - 6]);
        assert(name.contains(name[j - 6]));
    }
    assert(line[6 + n] == '"');
    lemma_next_char_is(line, '"', 6, 6 + n);
    assert(line.subrange(6, 6 + n) =~= name);
}

/// A track type that a sheet can give: it is not empty, has no white space around it and fits on
/// one line.
pub open spec fn is_plain_type(track_type: Seq<char>) -> bool {
    &&& track_type.len() > 0
    &&& !is_white_space(track_type[0])
    &&& !is_white_space(track_type.last())
    &&& !track_type.contains('\n')
}

proof fn lemma_track_line(num: u32, track_type: Seq<char>)
    requires
        is_plain_type(track_type),
    ensures
        reads_back(
            track_line_text(num as int, track_type),
            LineModel::Track(num, track_type),
        ),
{
    reveal_strlit("  TRACK ");
    reveal_strlit("TRACK ");
    reveal_strlit("FILE ");
    reveal_strlit("INDEX ");
    reveal_strlit(" ");
    let digits = decimal_two(num as int);
    lemma_decimal_two(num as int);
    law_decimal_round_trip(num as int, u32::MAX as int);
    let line = track_line_text(num as int, track_type);
    let core = track_core(num as int, track_type);
    let space = seq![' ', ' '];
    let n = digits.len() as int;
    assert(line =~= space + core);
    assert(core[0] == 'T');
    assert(core.last() == track_type.last());
    lemma_trim_core(space, core);
    if line.contains('\n') {
        let i = choose|i: int| 0 <= i < line.len() && line[i] == '\n';
        if 8 <= i < 8 + n {
            assert(is_digit(digits[i - 8]));
        } else if i > 8 + n {
            assert(track_type[i - 9 - n] == '\n');
        }
    }
    assert(line.last() == track_type.last());
    let u = upper_text(core);
    lemma_upper_text(core);
    assert(core =~= "TRACK "@ + (digits + " "@ + track_type));
    let (uh, ur) = lemma_upper_split("TRACK "@, digits + " "@ + track_type, u);
    lemma_upper_of_ascii("TRACK "@, uh);
    assert(uh =~= "TRACK "@);
    assert(u[0] == 'T');
    assert("TRACK "@.is_prefix_of(u)) by {
        assert(u.subrange(0, 6) =~= "TRACK "@);
    }
    assert(!"FILE "@.is_prefix_of(u)) by {
        if "FILE "@.is_prefix_of(u) {
            assert("FILE "@[0] == u.subrange(0, 5)[0]);
        }
    }
    assert(!"INDEX "@.is_prefix_of(u)) by {
        if "INDEX "@.is_prefix_of(u) {
            assert("INDEX "@[0] == u.subrange(0, 6)[0]);
        }
    }
    lemma_next_char_is(core, ' ', 0, 5);
    assert forall|j: int| 6 <= j < 6 + n implies core[j] != ' ' by {
        assert(core[j] == digits[j - 6]);
        assert(is_digit(digits[j - 6]));
    }
    assert(core[6 + n] == ' ');
    lemma_next_char_is(core, ' ', 6, 6 + n);
    assert(core.subrange(6, 6 + n) =~= digits);
    assert(core.skip(7 + n) =~= track_type);
    assert(Seq::<char>::empty() + track_type =~= track_type);
    lemma_trim_core(seq![], track_type);
}

/// Positions are written in digits and colons.
proof fn lemma_msf_chars(sectors: int)
    requires
        0 <= sectors,
    ensures
        msf_text(sectors).len() > 0,
        forall|i: int|
            0 <= i < msf_text(sectors).len() ==> is_digit(#[trigger] msf_text(sectors)[i])
                || msf_text(sectors)[i] == ':',
{
    let m = decimal_two(sectors / 4500);
    let s = decimal_two(sectors % 4500 / 75);
    let f = decimal_two(sectors % 75);
    lemma_decimal_two(sectors / 4500);
    lemma_decimal_two(sectors % 4500 / 75);
    lemma_decimal_two(sectors % 75);
    let t = msf_text(sectors);
    let a = m.len() as int;
    let b = a + 1 + s.len();
    assert forall|i: int| 0 <= i < t.len() implies is_digit(#[trigger] t[i]) || t[i] == ':' by {
        if i < a {
            assert(t[i] == m[i]);
            assert(is_digit(m[i]));
        } else if a < i < b {
            assert(t[i] == s[i - a - 1]);
            assert(is_digit(s[i - a - 1]));
        } else if i > b {
            assert(t[i] == f[i - b - 1]);
            assert(is_digit(f[i - b - 1]));
        }
    }
}

/// Two words with a blank between them.
proof fn lemma_two_words(a: Seq<char>, b: Seq<char>)
    requires
        a.len() > 0,
        b.len() > 0,
        forall|i: int| 0 <= i < a.len() ==> !is_white_space(#[trigger] a[i]),
        forall|i: int| 0 <= i < b.len() ==> !is_white_space(#[trigger] b[i]),
    ensures
        words(a + seq![' '] + b) == seq![a, b],
{
    let s = a + seq![' '] + b;
    let sep = |c: char| is_white_space(c);
    let n = a.len() as int;
    let len = s.len() as int;
    assert forall|j: int| 0 <= j < n implies !sep(#[trigger] s[j]) by {
        assert(s[j] == a[j]);
        assert(!is_white_space(a[j]));
    }
    assert(s[n] == ' ');
    assert(s.skip(0) =~= s);
    lemma_fields_field(s, sep, 0, n);
    lemma_fields_sep(s, sep, n);
    assert forall|j: int| n + 1 <= j < len implies !sep(#[trigger] s[j]) by {
        assert(s[j] == b[j - n - 1]);
        assert(!is_white_space(b[j - n - 1]));
    }
    lemma_fields_field(s, sep, n + 1, len);
    assert(s.subrange(0, n) =~= a);
    assert(s.subrange(n + 1, len) =~= b);
    assert(s.skip(len) =~= seq![]);
    assert(fields(s, sep) =~= seq![a, b]);
}

/// An `INDEX` line is in upper case and fits on one line.
proof fn lemma_index_core(index: CueIndex)
    ensures
        is_ascii_text(index_core(index)),
        upper_ascii_text(index_core(index)) == index_core(index),
        !index_core(index).contains('\n'),
{
    reveal_strlit("INDEX ");
    reveal_strlit(" ");
    let digits = decimal_two(index.id as int);
    let pos = msf_text(index.sectors as int);
    let core = index_core(index);
    let n = digits.len() as int;
    lemma_decimal_two(index.id as int);
    lemma_msf_chars(index.sectors as int);
    assert forall|i: int| 0 <= i < core.len() implies is_ascii_char(#[trigger] core[i])
        && upper_ascii(core[i]) == core[i] && core[i] != '\n' by {
        if 6 <= i < 6 + n {
            assert(core[i] == digits[i - 6]);
            assert(is_digit(digits[i - 6]));
        } else if i > 6 + n {
            assert(core[i] == pos[i - 7 - n]);
            assert(is_digit(pos[i - 7 - n]) || pos[i - 7 - n] == ':');
        }
    }
    assert(upper_ascii_text(core) =~= core);
}

proof fn lemma_index_line(index: CueIndex)
    ensures
        reads_back(index_line_text(index), LineModel::Index(index)),
{
    reveal_strlit("    INDEX ");
    reveal_strlit("TRACK ");
    reveal_strlit("FILE ");
    reveal_strlit("INDEX ");
    reveal_strlit(" ");
    let digits = decimal_two(index.id as int);
    let pos = msf_text(index.sectors as int);
    lemma_decimal_two(index.id as int);
    law_decimal_round_trip(index.id as int, u32::MAX as int);
    law_msf_round_trip(index.sectors as int);
    lemma_msf_chars(index.sectors as int);
    let line = index_line_text(index);
    let core = index_core(index);
    lemma_index_core(index);
    let rest = digits + seq![' '] + pos;
    let space = seq![' ', ' ', ' ', ' '];
    let n = digits.len() as int;
    assert(line =~= space + core);
    assert(core =~= "INDEX "@ + rest);
    assert(core[0] == 'I');
    assert(core.last() == pos[pos.len() - 1]);
    assert(is_digit(pos[pos.len() - 1]) || pos[pos.len() - 1] == ':');
    lemma_trim_core(space, core);
    if line.contains('\n') {
        let i = choose|i: int| 0 <= i < line.len() && line[i] == '\n';
        if i >= 4 {
            assert(line[i] == core[i - 4]);
        }
    }
    assert(line.last() == core.last());
    let u = upper_text(core);
    lemma_upper_text(core);
    lemma_upper_of_ascii(core, u);
    assert(u =~= core);
    assert("INDEX "@.is_prefix_of(u)) by {
        assert(u.subrange(0, 6) =~= "INDEX "@);
    }
    assert(!"FILE "@.is_prefix_of(u)) by {
        if "FILE "@.is_prefix_of(u) {
            assert("FILE "@[0] == u.subrange(0, 5)[0]);
        }
    }
    assert(!"TRACK "@.is_prefix_of(u)) by {
        if "TRACK "@.is_prefix_of(u) {
            assert("TRACK "@[0] == u.subrange(0, 6)[0]);
        }
    }
    assert(u.skip(6) =~= rest);
    assert forall|i: int| 0 <= i < digits.len() implies !is_white_space(#[trigger] digits[i]) by {
        assert(is_digit(digits[i]));
    }
    assert forall|i: int| 0 <= i < pos.len() implies !is_white_space(#[trigger] pos[i]) by {
        assert(is_digit(pos[i]) || pos[i] == ':');
    }
    lemma_two_words(digits, pos);
    assert(index_words(u) == seq![digits, pos]);
    assert(index_line(u) == Some(index));
}

// ---------------------------------------------------------------------------
// Whole sheets
// ---------------------------------------------------------------------------

/// A file with a single track, as a sheet gives it.
pub struct Entry {
    pub name: Seq<char>,
    pub num: u32,
    pub track_type: Seq<char>,
    pub indexes: Seq<CueIndex>,
}

/// A file name that a sheet can give.
pub open spec fn is_plain_name(name: Seq<char>) -> bool {
    !name.contains('"') && !name.contains('\n')
}

/// A sheet can give the entry.
pub open spec fn is_plain_entry(e: Entry) -> bool {
    &&& is_plain_name(e.name)
    &&& is_plain_type(e.track_type)
}

/// The lines for the index points of an entry.
pub open spec fn index_block(indexes: Seq<CueIndex>) -> Seq<char> {
    indexes.map_values(|x: CueIndex| index_line_text(x) + seq!['\n']).flatten()
}

/// The lines for an entry.
pub open spec fn entry_text(e: Entry) -> Seq<char> {
    file_line_text(e.name) + seq!['\n'] + (track_line_text(e.num as int, e.track_type)
        + seq!['\n'] + index_block(e.indexes))
}

/// The sheet for a list of entries.
pub open spec fn entries_text(entries: Seq<Entry>) -> Seq<char> {
    entries.map_values(|e: Entry| entry_text(e)).flatten()
}

/// What the lines for an entry say.
pub open spec fn entry_items(e: Entry) -> Seq<LineModel> {
    seq![LineModel::File(Some(e.name)), LineModel::Track(e.num, e.track_type)]
        + e.indexes.map_values(|x: CueIndex| LineModel::Index(x))
}

/// What reading gives for an entry.
pub open spec fn entry_file(e: Entry) -> (Seq<char>, Seq<TrackModel>) {
    (
        e.name,
        seq![
            TrackModel {
                num: e.num,
                track_type: e.track_type,
                indexes: e.indexes,
                sectors: None,
            },
        ],
    )
}

proof fn lemma_index_block(indexes: Seq<CueIndex>, rest: Seq<char>)
    requires
        sheet_fits(rest),
    ensures
        sheet_lines(index_block(indexes) + rest) == indexes.map_values(
            |x: CueIndex| LineModel::Index(x),
        ) + sheet_lines(rest),
        sheet_fits(index_block(indexes) + rest),
    decreases indexes.len(),
{
    let text = |x: CueIndex| index_line_text(x) + seq!['\n'];
    let item = |x: CueIndex| LineModel::Index(x);
    if indexes.len() == 0 {
        assert(indexes.map_values(text) =~= seq![]);
        assert(index_block(indexes) + rest =~= rest);
        assert(indexes.map_values(item) + sheet_lines(rest) =~= sheet_lines(rest));
    } else {
        let first = indexes[0];
        let others = indexes.drop_first();
        lemma_index_block(others, rest);
        lemma_index_line(first);
        assert(indexes.map_values(text).drop_first() =~= others.map_values(text));
        assert(index_block(indexes) == text(first) + index_block(others));
        assert(text(first) + index_block(others) + rest =~= index_line_text(first) + seq!['\n'] + (
        index_block(others) + rest));
        lemma_first_line(
            index_line_text(first),
            index_block(others) + rest,
            LineModel::Index(first),
        );
        assert(indexes.map_values(item) + sheet_lines(rest) =~= seq![LineModel::Index(first)] + (
        others.map_values(item) + sheet_lines(rest)));
    }
}

proof fn lemma_entry(e: Entry, rest: Seq<char>)
    requires
        is_plain_entry(e),
        sheet_fits(rest),
    ensures
        sheet_lines(entry_text(e) + rest) == entry_items(e) + sheet_lines(rest),
        sheet_fits(entry_text(e) + rest),
{
    let file = file_line_text(e.name);
    let track = track_line_text(e.num as int, e.track_type);
    let after_track = index_block(e.indexes) + rest;
    let after_file = track + seq!['\n'] + after_track;
    lemma_index_block(e.indexes, rest);
    lemma_track_line(e.num, e.track_type);
    lemma_first_line(track, after_track, LineModel::Track(e.num, e.track_type));
    lemma_file_line(e.name);
    lemma_first_line(file, after_file, LineModel::File(Some(e.name)));
    assert(entry_text(e) + rest =~= file + seq!['\n'] + after_file);
    let items = e.indexes.map_values(|x: CueIndex| LineModel::Index(x));
    assert(entry_items(e) + sheet_lines(rest) =~= seq![LineModel::File(Some(e.name))] + (seq![
        LineModel::Track(e.num, e.track_type),
    ] + (items + sheet_lines(rest))));
}

/// The index points of a track end where a file begins, or at the end.
proof fn lemma_only_indexes(indexes: Seq<CueIndex>, rest: Seq<LineModel>)
    requires
        rest.len() > 0 ==> rest[0] is File,
    ensures
        indexes_of(indexes.map_values(|x: CueIndex| LineModel::Index(x)) + rest) == indexes,
        tracks_of(indexes.map_values(|x: CueIndex| LineModel::Index(x)) + rest) == Seq::<
            TrackModel,
        >::empty(),
        files_of(indexes.map_values(|x: CueIndex| LineModel::Index(x)) + rest) == files_of(rest),
    decreases indexes.len(),
{
    let item = |x: CueIndex| LineModel::Index(x);
    let all = indexes.map_values(item) + rest;
    if indexes.len() == 0 {
        assert(all =~= rest);
        assert(indexes_of(rest) =~= indexes);
    } else {
        let others = indexes.drop_first();
        assert(all.skip(1) =~= others.map_values(item) + rest);
        lemma_only_indexes(others, rest);
        assert(all[0] == LineModel::Index(indexes[0]));
        assert(indexes_of(all) =~= indexes);
    }
}

proof fn lemma_entry_file(e: Entry, rest: Seq<LineModel>)
    requires
        rest.len() > 0 ==> rest[0] is File,
    ensures
        files_of(entry_items(e) + rest) == seq![entry_file(e)] + files_of(rest),
{
    let items = e.indexes.map_values(|x: CueIndex| LineModel::Index(x));
    let all = entry_items(e) + rest;
    let after_file = all.skip(1);
    let after_track = all.skip(2);
    assert(after_track =~= items + rest);
    assert(after_file.skip(1) =~= after_track);
    lemma_only_indexes(e.indexes, rest);
    assert(after_file[0] == LineModel::Track(e.num, e.track_type));
    assert(tracks_of(after_file) =~= entry_file(e).1);
    assert(files_of(after_file) == files_of(after_track));
    assert(all[0] == LineModel::File(Some(e.name)));
}

/// Reading the sheet that is written for a list of entries gives the entries back.
proof fn lemma_entries_read_back(entries: Seq<Entry>)
    requires
        forall|i: int| 0 <= i < entries.len() ==> is_plain_entry(#[trigger] entries[i]),
    ensures
        files_of(sheet_lines(entries_text(entries))) == entries.map_values(
            |e: Entry| entry_file(e),
        ),
        sheet_fits(entries_text(entries)),
        sheet_lines(entries_text(entries)).len() > 0 ==> sheet_lines(
            entries_text(entries))[0] is File,
        entries.len() > 0 ==> sheet_block_size(sheet_lines(entries_text(entries)))
            == block_size(entries[0].track_type),
    decreases entries.len(),
{
    let text = |e: Entry| entry_text(e);
    let file = |e: Entry| entry_file(e);
    if entries.len() == 0 {
        assert(entries.map_values(text) =~= seq![]);
        let none = Seq::<char>::empty();
        assert(entries_text(entries) =~= none);
        assert(next_char(none, '\n', 0) == 0);
        assert(lines(none) =~= seq![]);
        assert(sheet_lines(none) =~= seq![]);
        assert(entries.map_values(file) =~= seq![]);
    } else {
        let e = entries[0];
        let others = entries.drop_first();
        assert forall|i: int| 0 <= i < others.len() implies is_plain_entry(#[trigger] others[i]) by {
            assert(others[i] == entries[i + 1]);
        }
        lemma_entries_read_back(others);
        assert(is_plain_entry(e));
        assert(entries.map_values(text).drop_first() =~= others.map_values(text));
        assert(entries_text(entries) =~= entry_text(e) + entries_text(others));
        lemma_entry(e, entries_text(others));
        let rest = sheet_lines(entries_text(others));
        lemma_entry_file(e, rest);
        let all = entry_items(e) + rest;
        assert(all[0] == LineModel::File(Some(e.name)));
        assert(all[1] == LineModel::Track(e.num, e.track_type));
        assert(all.skip(1)[0] == all[1]);
        assert(sheet_block_size(all) == sheet_block_size(all.skip(1)));
        assert(entries.map_values(file) =~= seq![entry_file(e)] + others.map_values(file));
    }
}

// ---------------------------------------------------------------------------
// Laws
// ---------------------------------------------------------------------------

/// The index points of a track, counted from its start.
pub open spec fn rebased(track: TrackModel) -> Seq<CueIndex> {
    track.indexes.map_values(
        |x: CueIndex| CueIndex { id: x.id, sectors: relative(x, track) as u64 },
    )
}

/// What the sheet of a split disc gives for a track.
pub open spec fn split_entry_of(base: Seq<char>, track: TrackModel, total: int) -> Entry {
    Entry {
        name: track_file_name(base, track.num as int, total),
        num: track.num,
        track_type: track.track_type,
        indexes: rebased(track),
    }
}

/// The names of track files are plain where the base name is.
proof fn lemma_plain_name(base: Seq<char>, num: int, total: int)
    requires
        0 <= num,
        !base.contains('"'),
        !base.contains('\n'),
    ensures
        !track_file_name(base, num, total).contains('"'),
        !track_file_name(base, num, total).contains('\n'),
{
    reveal_strlit(" ");
    reveal_strlit("(Track ");
    reveal_strlit(")");
    reveal_strlit(".bin");
    let name = track_file_name(base, num, total);
    let b = base.len() as int;
    lemma_track_digits(num, total);
    let digits = track_digits(num, total);
    assert forall|i: int| 0 <= i < name.len() implies name[i] != '"' && name[i] != '\n' by {
        if i < b {
            assert(name[i] == base[i]);
            assert(base.contains(base[i]));
        } else if total != 1 && b + 8 <= i < b + 8 + digits.len() {
            assert(name[i] == digits[i - b - 8]);
            assert(is_digit(digits[i - b - 8]));
        }
    }
}

proof fn lemma_split_entry_text(base: Seq<char>, track: TrackModel, total: int)
    ensures
        split_entry(base, track, total) == entry_text(split_entry_of(base, track, total)),
{
    reveal_strlit("\n");
    reveal_strlit("\" BINARY\n");
    reveal_strlit("\" BINARY");
    let e = split_entry_of(base, track, total);
    let a = Seq::new(track.indexes.len(), |i: int| index_entry(track, i));
    let b = e.indexes.map_values(|x: CueIndex| index_line_text(x) + seq!['\n']);
    assert forall|i: int| 0 <= i < a.len() implies #[trigger] a[i] == b[i] by {
        assert(0 <= relative(track.indexes[i], track) <= u64::MAX);
        assert(a[i] =~= b[i]);
    }
    assert(a =~= b);
    assert("\" BINARY\n"@ =~= "\" BINARY"@ + seq!['\n']);
    assert("\n"@ =~= seq!['\n']);
    assert(split_entry(base, track, total) =~= entry_text(e));
}

/// What reading the sheet of a split disc gives.
pub open spec fn split_files(base: Seq<char>, tracks: Seq<TrackModel>) -> Seq<
    (Seq<char>, Seq<TrackModel>),
> {
    tracks.map_values(
        |t: TrackModel|
            (
                track_file_name(base, t.num as int, tracks.len() as int),
                seq![TrackModel { indexes: rebased(t), sectors: None, ..t }],
            ),
    )
}

/// Reading the sheet of a split disc gives one file for each track, under the name that the split
/// gives it, with that track alone: its number, its type, and its index points counted from its
/// start. No position in it is too far to count.
pub proof fn law_split_sheet_reads_back(base: Seq<char>, tracks: Seq<TrackModel>)
    requires
        is_plain_name(base),
        forall|i: int| 0 <= i < tracks.len() ==> is_plain_type(#[trigger] tracks[i].track_type),
    ensures
        files_of(sheet_lines(split_cue(base, tracks))) == split_files(base, tracks),
        sheet_fits(split_cue(base, tracks)),
        tracks.len() > 0 ==> sheet_block_size(sheet_lines(split_cue(base, tracks))) == block_size(
            tracks[0].track_type,
        ),
{
    let total = tracks.len() as int;
    let entries = tracks.map_values(|t: TrackModel| split_entry_of(base, t, total));
    assert forall|i: int| 0 <= i < entries.len() implies is_plain_entry(#[trigger] entries[i]) by {
        lemma_plain_name(base, tracks[i].num as int, total);
        assert(is_plain_type(tracks[i].track_type));
    }
    let a = Seq::new(tracks.len(), |i: int| split_entry(base, tracks[i], tracks.len() as int));
    let b = entries.map_values(|e: Entry| entry_text(e));
    assert forall|i: int| 0 <= i < a.len() implies #[trigger] a[i] == b[i] by {
        lemma_split_entry_text(base, tracks[i], total);
    }
    assert(a =~= b);
    lemma_entries_read_back(entries);
    let read = entries.map_values(|e: Entry| entry_file(e));
    let expected = split_files(base, tracks);
    assert forall|i: int| 0 <= i < read.len() implies #[trigger] read[i] == expected[i] by {
        assert(read[i].1 =~= expected[i].1);
    }
    assert(read =~= expected);
}

/// What a line gives as the type of a track, a sheet can give.
proof fn lemma_read_type(line: Seq<char>)
    requires
        !line.contains('\n'),
    ensures
        said(line) matches LineModel::Track(_, track_type) ==> is_plain_type(track_type),
{
    reveal_strlit("AUDIO");
    let core = trim(line);
    lemma_trim(line);
    let first = next_char(core, ' ', 0);
    lemma_next_char(core, ' ', 0);
    if first < core.len() {
        let second = next_char(core, ' ', first + 1);
        lemma_next_char(core, ' ', first + 1);
        if second < core.len() {
            let rest = core.skip(second + 1);
            assert(second < core.len() - 1);
            assert(rest.last() == core.last());
            assert(!is_white_space(rest[rest.len() - 1]));
            lemma_trim(rest);
            if trim(rest).contains('\n') {
                let i = choose|i: int| 0 <= i < rest.len() && rest[i] == '\n';
                assert(core[second + 1 + i] == '\n');
                assert(core.contains('\n'));
            }
        }
    }
}

proof fn lemma_types_of_tracks(items: Seq<LineModel>)
    requires
        forall|k: int|
            0 <= k < items.len() ==> ((#[trigger] items[k]) matches LineModel::Track(_, track_type)
                ==> is_plain_type(track_type)),
    ensures
        forall|i: int|
            0 <= i < tracks_of(items).len() ==> is_plain_type(
                (#[trigger] tracks_of(items)[i]).track_type,
            ),
    decreases items.len(),
{
    if items.len() > 0 {
        let rest = items.skip(1);
        assert forall|k: int| 0 <= k < rest.len() implies ((#[trigger] rest[k]) matches LineModel::Track(
            _,
            track_type,
        ) ==> is_plain_type(track_type)) by {
            assert(rest[k] == items[k + 1]);
        }
        lemma_types_of_tracks(rest);
        let tracks = tracks_of(items);
        assert forall|i: int| 0 <= i < tracks.len() implies is_plain_type(
            (#[trigger] tracks[i]).track_type,
        ) by {
            if items[0] is Track && i > 0 {
                assert(tracks[i] == tracks_of(rest)[i - 1]);
            }
        }
    }
}

proof fn lemma_types_of_files(items: Seq<LineModel>)
    requires
        forall|k: int|
            0 <= k < items.len() ==> ((#[trigger] items[k]) matches LineModel::Track(_, track_type)
                ==> is_plain_type(track_type)),
    ensures
        forall|f: int, i: int|
            0 <= f < files_of(items).len() && 0 <= i < files_of(items)[f].1.len()
                ==> is_plain_type((#[trigger] files_of(items)[f].1[i]).track_type),
    decreases items.len(),
{
    if items.len() > 0 {
        let rest = items.skip(1);
        assert forall|k: int| 0 <= k < rest.len() implies ((#[trigger] rest[k]) matches LineModel::Track(
            _,
            track_type,
        ) ==> is_plain_type(track_type)) by {
            assert(rest[k] == items[k + 1]);
        }
        lemma_types_of_files(rest);
        lemma_types_of_tracks(rest);
        let files = files_of(items);
        assert forall|f: int, i: int|
            0 <= f < files.len() && 0 <= i < files[f].1.len() implies is_plain_type(
            (#[trigger] files[f].1[i]).track_type,
        ) by {
            if items[0] is File && items[0]->File_0 is Some {
                if f > 0 {
                    assert(files[f] == files_of(rest)[f - 1]);
                } else {
                    assert(files[f].1 == tracks_of(rest));
                }
            }
        }
    }
}

/// The types of the tracks that are read from a sheet are types that a sheet can give, so that the
/// laws on the sheet of a split disc hold of every disc that was read.
pub proof fn law_read_types_are_plain(text: Seq<char>)
    ensures
        forall|f: int, i: int|
            0 <= f < files_of(sheet_lines(text)).len() && 0 <= i < files_of(
                sheet_lines(text),
            )[f].1.len() ==> is_plain_type(
                (#[trigger] files_of(sheet_lines(text))[f].1[i]).track_type,
            ),
{
    let items = sheet_lines(text);
    lemma_lines_hold_no_line_feed(text);
    assert forall|k: int| 0 <= k < items.len() implies ((#[trigger] items[k]) matches LineModel::Track(
        _,
        track_type,
    ) ==> is_plain_type(track_type)) by {
        assert(!lines(text)[k].contains('\n'));
        lemma_read_type(lines(text)[k]);
        assert(items[k] == said(lines(text)[k]));
    }
    lemma_types_of_files(items);
}

/// A disc that was split is laid out in several files with one track each, and cannot be split
/// again.
pub proof fn law_split_disc_is_multi_bin(
    base: Seq<char>,
    tracks: Seq<TrackModel>,
    sizes: Seq<Option<u64>>,
)
    requires
        is_plain_name(base),
        forall|i: int| 0 <= i < tracks.len() ==> is_plain_type(#[trigger] tracks[i].track_type),
        1 < tracks.len() <= u32::MAX,
    ensures
        ({
            let again = sheet(sheet_lines(split_cue(base, tracks)), sizes);
            &&& again.files.len() == tracks.len()
            &&& tracks_in(again.files) == tracks.len()
            &&& layout_kind(in_32_bits(again.files.len()), tracks_in(again.files)) == "multi-bin"@
            &&& forall|other: Seq<char>| #[trigger] split_steps(again, other) is Err
        }),
{
    let again = sheet(sheet_lines(split_cue(base, tracks)), sizes);
    law_split_sheet_reads_back(base, tracks);
    assert forall|i: int| 0 <= i < again.files.len() implies (#[trigger] again.files[i]).tracks.len()
        == 1 by {}
    lemma_one_track_each(again.files);
}

/// Files with one track each have as many tracks as there are files.
proof fn lemma_one_track_each(files: Seq<FileModel>)
    requires
        forall|i: int| 0 <= i < files.len() ==> (#[trigger] files[i]).tracks.len() == 1,
    ensures
        tracks_in(files) == files.len(),
    decreases files.len(),
{
    if files.len() > 0 {
        let rest = files.drop_last();
        assert forall|i: int| 0 <= i < rest.len() implies (#[trigger] rest[i]).tracks.len() == 1 by {
            assert(files[i].tracks.len() == 1);
        }
        lemma_one_track_each(rest);
        assert(files[files.len() - 1].tracks.len() == 1);
    }
}

/// What reading a sheet that was built anew gives: the files in the order of their tracks, each
/// with one audio track of its number that starts at 0.
pub open spec fn fresh_files(files: Seq<(Seq<char>, u32)>) -> Seq<(Seq<char>, Seq<TrackModel>)> {
    stable_sort_of(
        files,
        |a: (Seq<char>, u32), b: (Seq<char>, u32)| number_le(a, b),
    ).map_values(
        |f: (Seq<char>, u32)|
            (
                f.0,
                seq![
                    TrackModel {
                        num: f.1,
                        track_type: "AUDIO"@,
                        indexes: seq![CueIndex { id: 1, sectors: 0 }],
                        sectors: None,
                    },
                ],
            ),
    )
}

/// Reading a sheet that was built anew gives the files back in the order of their tracks, each
/// with one audio track of its number that starts at 0.
pub proof fn law_fresh_sheet_reads_back(files: Seq<(Seq<char>, u32)>)
    requires
        forall|i: int| 0 <= i < files.len() ==> is_plain_name((#[trigger] files[i]).0),
    ensures
        files_of(sheet_lines(fresh_cue(files))) == fresh_files(files),
        sheet_fits(fresh_cue(files)),
{
    let le = |a: (Seq<char>, u32), b: (Seq<char>, u32)| number_le(a, b);
    let sorted = stable_sort_of(files, le);
    assert(is_ranking(le));
    let entries = sorted.map_values(|f: (Seq<char>, u32)| fresh_entry_of(f));
    assert forall|i: int| 0 <= i < entries.len() implies is_plain_entry(#[trigger] entries[i]) by {
        reveal_strlit("AUDIO");
        law_sort_keeps_items(files, le, sorted[i]);
        assert(sorted.contains(sorted[i]));
        let k = choose|k: int| 0 <= k < files.len() && files[k] == sorted[i];
        assert(files[k] == sorted[i]);
        assert(is_plain_name(files[k].0));
    }
    let a = sorted.map_values(|f: (Seq<char>, u32)| fresh_entry(f));
    let b = entries.map_values(|e: Entry| entry_text(e));
    assert forall|i: int| 0 <= i < a.len() implies #[trigger] a[i] == b[i] by {
        lemma_fresh_entry_text(sorted[i]);
    }
    assert(a =~= b);
    lemma_entries_read_back(entries);
    assert(entries.map_values(|e: Entry| entry_file(e)) =~= fresh_files(files));
}

/// What a sheet that is built anew gives for a file.
pub open spec fn fresh_entry_of(file: (Seq<char>, u32)) -> Entry {
    Entry {
        name: file.0,
        num: file.1,
        track_type: "AUDIO"@,
        indexes: seq![CueIndex { id: 1, sectors: 0 }],
    }
}

proof fn lemma_fresh_entry_text(file: (Seq<char>, u32))
    ensures
        fresh_entry(file) == entry_text(fresh_entry_of(file)),
{
    reveal_strlit("\" BINARY\n");
    reveal_strlit("\" BINARY");
    reveal_strlit(" AUDIO\n");
    reveal_strlit("AUDIO");
    reveal_strlit(" ");
    reveal_strlit("    INDEX ");
    reveal_strlit("    INDEX 01 00:00:00\n");
    let e = fresh_entry_of(file);
    let index = CueIndex { id: 1, sectors: 0 };
    let texts = e.indexes.map_values(|x: CueIndex| index_line_text(x) + seq!['\n']);
    assert(texts =~= seq![index_line_text(index) + seq!['\n']]);
    texts.lemma_flatten_one_element();
    assert(index_block(e.indexes) =~= index_line_text(index) + seq!['\n']);
    assert(decimal_two(1) =~= seq!['0', '1']);
    assert(msf_text(0) =~= seq!['0', '0', ':', '0', '0', ':', '0', '0']);
    assert(index_line_text(index) + seq!['\n'] =~= "    INDEX 01 00:00:00\n"@);
    assert("\" BINARY\n"@ =~= "\" BINARY"@ + seq!['\n']);
    assert(" AUDIO\n"@ =~= " "@ + "AUDIO"@ + seq!['\n']);
    assert(fresh_entry(file) =~= entry_text(e));
}

} // verus!
