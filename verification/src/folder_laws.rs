//! What holds of every folder that is looked over: how one file more changes what is found.

use crate::bytes::{byte_len, lemma_byte_prefix_is};
use crate::casing::lower_text;
use crate::cue::{FileModel, ParsedCue};
use crate::files::{first_of_kind, kind_of, lemma_first_of_kind_is, stem, FileKind};
use crate::layout::{in_32_bits, layout_kind, tracks_countable, tracks_in};
use crate::scan::{
    bins_in, can_scan, is_broken, mark_of, marks_of, summary, told_title,
};
use crate::scan::{GuessModel, MarkModel, ScanModel};
use crate::text::{find, lemma_find_is, occurs_at};
use crate::text_laws::law_occurs;
use vstd::prelude::*;

verus! {

// ---------------------------------------------------------------------------
// Scans
// ---------------------------------------------------------------------------

/// How one file more changes what a scan finds. A `bin` file counts, a sheet and graphics are
/// noted. A sheet with a title gives the title from then on; a `bin` file gives it only where
/// nothing before it did. The name of the folder stands in where no file gives a title.
pub proof fn law_one_more_file_scanned(
    marks: Seq<MarkModel>,
    mark: MarkModel,
    folder_name: Option<Seq<char>>,
)
    ensures
        summary(Seq::empty(), None) == (ScanModel {
            bin_count: 0,
            cue_found: false,
            cdg_found: false,
            detected_base_name: None,
        }),
        ({
            let before = summary(marks, folder_name);
            let after = summary(marks.push(mark), folder_name);
            &&& after.bin_count == before.bin_count + (if mark is Bin {
                1int
            } else {
                0
            })
            &&& after.cue_found == (before.cue_found || mark is Cue)
            &&& after.cdg_found == (before.cdg_found || mark is Cdg)
        }),
        summary(marks.push(mark), None).detected_base_name == (match mark {
            MarkModel::Cue(Some(title)) => Some(title),
            MarkModel::Bin(GuessModel::Base(base)) if summary(marks, None).detected_base_name
                is None => Some(base),
            _ => summary(marks, None).detected_base_name,
        }),
        summary(marks, folder_name).detected_base_name == (if summary(
            marks,
            None,
        ).detected_base_name is None && folder_name is Some && folder_name->0.len() > 0 {
            folder_name
        } else {
            summary(marks, None).detected_base_name
        }),
{
    reveal(Seq::filter);
    let more = marks.push(mark);
    let none = Seq::<MarkModel>::empty();
    assert(more.drop_last() =~= marks);
    assert(more.last() == mark);
    assert(none.filter(|m: MarkModel| m is Bin).len() == 0);
    assert(bins_in(none) == 0);
    assert(forall|i: int| 0 <= i < marks.len() ==> #[trigger] more[i] == marks[i]);
    assert(more[marks.len() as int] == mark);
    if exists|i: int| 0 <= i < marks.len() && #[trigger] marks[i] is Cue {
        let i = choose|i: int| 0 <= i < marks.len() && #[trigger] marks[i] is Cue;
        assert(more[i] is Cue);
    }
    if exists|i: int| 0 <= i < marks.len() && #[trigger] marks[i] is Cdg {
        let i = choose|i: int| 0 <= i < marks.len() && #[trigger] marks[i] is Cdg;
        assert(more[i] is Cdg);
    }
    assert(summary(none, None) =~= ScanModel {
        bin_count: 0,
        cue_found: false,
        cdg_found: false,
        detected_base_name: None,
    });
}

/// A scan comes to a result unless a `bin` file whose name cannot be parted comes before any title
/// is known, or the `bin` files are too many to count.
pub proof fn law_what_can_be_scanned(marks: Seq<MarkModel>, mark: MarkModel)
    ensures
        can_scan(Seq::empty()),
        can_scan(marks.push(mark)) == (can_scan(marks) && !(mark == MarkModel::Bin(
            GuessModel::Broken,
        ) && summary(marks, None).detected_base_name is None) && summary(
            marks.push(mark),
            None,
        ).bin_count <= u32::MAX),
{
    let more = marks.push(mark);
    let none = Seq::<MarkModel>::empty();
    let n = marks.len() as int;
    law_one_more_file_scanned(marks, mark, None);
    assert(!is_broken(none));
    assert(bins_in(none) == summary(none, None).bin_count);
    assert(more[n] == mark);
    assert(more.take(n) =~= marks);
    if is_broken(marks) {
        let i = choose|i: int|
            0 <= i < marks.len() && #[trigger] marks[i] == MarkModel::Bin(GuessModel::Broken)
                && told_title(marks.take(i)) is None;
        assert(more[i] == marks[i]);
        assert(more.take(i) =~= marks.take(i));
    }
    if is_broken(more) {
        let i = choose|i: int|
            0 <= i < more.len() && #[trigger] more[i] == MarkModel::Bin(GuessModel::Broken)
                && told_title(more.take(i)) is None;
        if i < n {
            assert(more[i] == marks[i]);
            assert(more.take(i) =~= marks.take(i));
        }
    }
}

/// Each file of a folder is judged by its own name and by its lower case.
pub proof fn law_marks_of_a_folder(names: Seq<Seq<char>>, k: int)
    requires
        0 <= k < names.len(),
    ensures
        marks_of(names).len() == names.len(),
        marks_of(names)[k] == mark_of(names[k], lower_text(names[k]), lower_text(stem(names[k]))),
{
}

/// The kind of a file decides what its name tells. A sheet has a title, its stem, where that is at
/// least four bytes long and none of four common words.
pub proof fn law_mark_of_a_file(name: Seq<char>, lower: Seq<char>, lower_stem: Seq<char>)
    ensures
        ({
            let mark = mark_of(name, lower, lower_stem);
            &&& mark is Bin <==> kind_of(name) == FileKind::Bin
            &&& mark is Cue <==> kind_of(name) == FileKind::Cue
            &&& mark is Cdg <==> kind_of(name) == FileKind::Cdg
            &&& kind_of(name) == FileKind::Cue ==> mark == MarkModel::Cue(
                if byte_len(stem(name)) >= 4 && lower_stem != "cue"@ && lower_stem != "disc"@
                    && lower_stem != "track"@ && lower_stem != "cd"@ {
                    Some(stem(name))
                } else {
                    None
                },
            )
        }),
{
}

/// The title in the name of a `bin` file is what stands before the first ` (track ` of its lower
/// case, counted in bytes.
pub proof fn law_title_in_a_name(
    title: Seq<char>,
    name_rest: Seq<char>,
    front: Seq<char>,
    rest: Seq<char>,
    lower_stem: Seq<char>,
)
    requires
        kind_of(title + name_rest) == FileKind::Bin,
        forall|j: int|
            0 <= j < front.len() ==> #[trigger] (front + " (track "@ + rest).subrange(
                j,
                j + " (track "@.len(),
            ) != " (track "@,
        byte_len(title) == byte_len(front),
    ensures
        mark_of(title + name_rest, front + " (track "@ + rest, lower_stem) == MarkModel::Bin(
            GuessModel::Base(title),
        ),
{
    let name = title + name_rest;
    let lower = front + " (track "@ + rest;
    lemma_place_in_name(front, rest);
    assert(name.take(title.len() as int) =~= title);
    lemma_byte_prefix_is(name, title.len() as int);
}

proof fn lemma_place_in_name(front: Seq<char>, rest: Seq<char>)
    requires
        forall|j: int|
            0 <= j < front.len() ==> #[trigger] (front + " (track "@ + rest).subrange(
                j,
                j + " (track "@.len(),
            ) != " (track "@,
    ensures
        find(front + " (track "@ + rest, " (track "@) == Some(front.len() as int),
        (front + " (track "@ + rest).take(front.len() as int) == front,
{
    let lower = front + " (track "@ + rest;
    let p = " (track "@;
    let i = front.len() as int;
    assert(lower.subrange(i, i + p.len()) =~= p);
    assert forall|j: int| 0 <= j < i implies !occurs_at(lower, p, j) by {
        assert(lower.subrange(j, j + p.len()) != p);
    }
    lemma_find_is(lower, p, i);
    assert(lower.take(i) =~= front);
}

/// Where no beginning of the name has as many bytes, the name cannot be parted.
pub proof fn law_name_that_cannot_be_parted(
    name: Seq<char>,
    front: Seq<char>,
    rest: Seq<char>,
    lower_stem: Seq<char>,
)
    requires
        kind_of(name) == FileKind::Bin,
        forall|j: int|
            0 <= j < front.len() ==> #[trigger] (front + " (track "@ + rest).subrange(
                j,
                j + " (track "@.len(),
            ) != " (track "@,
        forall|a: Seq<char>, b: Seq<char>|
            name == #[trigger] (a + b) ==> byte_len(a) != byte_len(front),
    ensures
        mark_of(name, front + " (track "@ + rest, lower_stem) == MarkModel::Bin(GuessModel::Broken),
{
    lemma_place_in_name(front, rest);
    assert forall|k: int| 0 <= k <= name.len() implies byte_len(#[trigger] name.take(k))
        != byte_len(front) by {
        assert(name =~= name.take(k) + name.skip(k));
    }
}

/// A name whose lower case has no ` (track ` gives no title.
pub proof fn law_name_without_a_title(name: Seq<char>, lower: Seq<char>, lower_stem: Seq<char>)
    requires
        kind_of(name) == FileKind::Bin,
        forall|a: Seq<char>, b: Seq<char>| lower != #[trigger] (a + " (track "@ + b),
    ensures
        mark_of(name, lower, lower_stem) == MarkModel::Bin(GuessModel::Nothing),
{
    law_occurs(lower, " (track "@);
}

// ---------------------------------------------------------------------------
// Layouts
// ---------------------------------------------------------------------------

/// The tracks of a sheet are those of all its files.
pub proof fn law_tracks_of_all_files(files: Seq<FileModel>, file: FileModel)
    requires
        file.tracks.len() <= u32::MAX,
    ensures
        tracks_in(Seq::empty()) == 0,
        tracks_in(files.push(file)) == tracks_in(files) + file.tracks.len(),
{
    assert(files.push(file).drop_last() =~= files);
    assert(files.push(file).last() == file);
}

/// They can be counted where 32 bits hold their number.
pub proof fn law_tracks_that_can_be_counted(parsed: ParsedCue)
    ensures
        tracks_countable(parsed) == (tracks_in(parsed@.files) <= u32::MAX),
{
}

/// A count that 32 bits hold is kept, and they hold it again after each full turn.
pub proof fn law_counts_in_32_bits(n: nat)
    ensures
        n <= u32::MAX ==> in_32_bits(n) == n,
        in_32_bits(n + 0x1_0000_0000) == in_32_bits(n),
{
}

/// Several files make the one layout; a single file makes another one by its tracks.
pub proof fn law_kinds_of_layout(file_count: int, track_count: int)
    ensures
        file_count > 1 ==> layout_kind(file_count, track_count) == "multi-bin"@,
        file_count <= 1 && track_count > 1 ==> layout_kind(file_count, track_count)
            == "single-multi-track"@,
        file_count <= 1 && track_count <= 1 ==> layout_kind(file_count, track_count)
            == "single-single-track"@,
{
}

/// The sheet of a folder is the first entry of that kind.
pub proof fn law_sheet_of_a_folder(names: Seq<Seq<char>>, i: int)
    requires
        0 <= i <= names.len(),
        i < names.len() ==> kind_of(names[i]) == FileKind::Cue,
        forall|j: int| 0 <= j < i ==> kind_of(#[trigger] names[j]) != FileKind::Cue,
    ensures
        i < names.len() ==> first_of_kind(names, FileKind::Cue) == Some(i),
        i == names.len() ==> first_of_kind(names, FileKind::Cue) is None,
{
    lemma_first_of_kind_is(names, FileKind::Cue, i);
}

} // verus!
