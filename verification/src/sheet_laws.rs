//! What holds of every sheet that is read: how one line more changes it, and which lines say
//! nothing.

use crate::casing::upper_text;
use crate::cue::{line_fits, line_model, quoted};
use crate::cue::{CueIndex, LineModel, TrackModel};
use crate::decimal::read_decimal;
use crate::msf::{block_size, msf_sectors};
use crate::sheet::{
    file_names, files_of, indexes_of, said, sheet, sheet_block_size, sheet_fits, sheet_lines, tracks_of,
};
use crate::text::{
    is_white_space, lemma_lines_one, lemma_next_char_is, lines, occurs_at, trim, without_final_cr,
    words,
};
use crate::text_laws::{law_first_word, law_last_line, law_lines_of_parts, law_no_words, law_occurs, law_trim};
use vstd::prelude::*;

verus! {

// ---------------------------------------------------------------------------
// Lists of lines
// ---------------------------------------------------------------------------

/// The last line that speaks of a file begins one with a name.
pub open spec fn file_is_open(items: Seq<LineModel>) -> bool {
    exists|k: int|
        0 <= k < items.len() && (#[trigger] items[k] matches LineModel::File(Some(_))) && (forall|
            j: int,
        |
            k < j < items.len() ==> !(#[trigger] items[j] is File))
}

/// The last line that speaks of a file or of a track begins a track.
pub open spec fn track_is_open(items: Seq<LineModel>) -> bool {
    exists|k: int|
        0 <= k < items.len() && #[trigger] items[k] is Track && (forall|j: int|
            k < j < items.len() ==> (#[trigger] items[j] is Index || items[j] is Other))
}

spec fn no_file(items: Seq<LineModel>) -> bool {
    forall|j: int| 0 <= j < items.len() ==> !(#[trigger] items[j] is File)
}

spec fn no_track_nor_file(items: Seq<LineModel>) -> bool {
    forall|j: int| 0 <= j < items.len() ==> (#[trigger] items[j] is Index || items[j] is Other)
}

proof fn lemma_skip_first(items: Seq<LineModel>, line: LineModel)
    requires
        items.len() > 0,
    ensures
        items.push(line)[0] == items[0],
        items.push(line).skip(1) == items.skip(1).push(line),
{
    assert(items.push(line).skip(1) =~= items.skip(1).push(line));
}

proof fn lemma_open_after_first(items: Seq<LineModel>)
    requires
        items.len() > 0,
    ensures
        no_file(items) == (!(items[0] is File) && no_file(items.skip(1))),
        no_track_nor_file(items) == ((items[0] is Index || items[0] is Other)
            && no_track_nor_file(items.skip(1))),
        file_is_open(items) == (file_is_open(items.skip(1)) || (items[0] matches LineModel::File(
            Some(_),
        ) && no_file(items.skip(1)))),
        track_is_open(items) == (track_is_open(items.skip(1)) || (items[0] is Track
            && no_track_nor_file(items.skip(1)))),
{
    let rest = items.skip(1);
    assert(forall|j: int| 0 <= j < rest.len() ==> #[trigger] rest[j] == items[j + 1]);
    assert(forall|j: int| 1 <= j < items.len() ==> #[trigger] items[j] == rest[j - 1]);
    if file_is_open(items) {
        let k = choose|k: int|
            0 <= k < items.len() && (#[trigger] items[k] matches LineModel::File(Some(_))) && (
            forall|j: int| k < j < items.len() ==> !(#[trigger] items[j] is File));
        if k > 0 {
            assert(rest[k - 1] == items[k]);
        }
    }
    if file_is_open(rest) {
        let k = choose|k: int|
            0 <= k < rest.len() && (#[trigger] rest[k] matches LineModel::File(Some(_))) && (
            forall|j: int| k < j < rest.len() ==> !(#[trigger] rest[j] is File));
        assert(items[k + 1] == rest[k]);
    }
    if track_is_open(items) {
        let k = choose|k: int|
            0 <= k < items.len() && #[trigger] items[k] is Track && (forall|j: int|
                k < j < items.len() ==> (#[trigger] items[j] is Index || items[j] is Other));
        if k > 0 {
            assert(rest[k - 1] == items[k]);
        }
    }
    if track_is_open(rest) {
        let k = choose|k: int|
            0 <= k < rest.len() && #[trigger] rest[k] is Track && (forall|j: int|
                k < j < rest.len() ==> (#[trigger] rest[j] is Index || rest[j] is Other));
        assert(items[k + 1] == rest[k]);
    }
}

proof fn lemma_one_more_index(items: Seq<LineModel>, line: LineModel)
    ensures
        indexes_of(items.push(line)) == (match line {
            LineModel::Index(index) if no_track_nor_file(items) => indexes_of(items).push(index),
            _ => indexes_of(items),
        }),
    decreases items.len(),
{
    if items.len() == 0 {
        assert(items.push(line)[0] == line);
        assert(items.push(line).skip(1) =~= items);
    } else {
        lemma_skip_first(items, line);
        lemma_open_after_first(items);
        lemma_one_more_index(items.skip(1), line);
    }
    assert(indexes_of(items.push(line)) =~= match line {
        LineModel::Index(index) if no_track_nor_file(items) => indexes_of(items).push(index),
        _ => indexes_of(items),
    });
}

spec fn with_track(tracks: Seq<TrackModel>, num: u32, track_type: Seq<char>) -> Seq<TrackModel> {
    tracks.push(TrackModel { num, track_type, indexes: seq![], sectors: None })
}

spec fn with_index(tracks: Seq<TrackModel>, index: CueIndex) -> Seq<TrackModel> {
    tracks.drop_last().push(
        TrackModel { indexes: tracks.last().indexes.push(index), ..tracks.last() },
    )
}

proof fn lemma_one_more_track(items: Seq<LineModel>, line: LineModel)
    ensures
        no_file(items) && track_is_open(items) ==> tracks_of(items).len() > 0,
        tracks_of(items.push(line)) == (match line {
            LineModel::Track(num, track_type) if no_file(items) => with_track(
                tracks_of(items),
                num,
                track_type,
            ),
            LineModel::Index(index) if no_file(items) && track_is_open(items) => with_index(
                tracks_of(items),
                index,
            ),
            _ => tracks_of(items),
        }),
    decreases items.len(),
{
    let all = items.push(line);
    if items.len() == 0 {
        assert(all[0] == line);
        assert(all.skip(1) =~= items);
        assert(!track_is_open(items));
    } else {
        let rest = items.skip(1);
        lemma_skip_first(items, line);
        lemma_open_after_first(items);
        lemma_one_more_track(rest, line);
        lemma_one_more_index(rest, line);
        if items[0] is Track {
            if no_track_nor_file(rest) {
                lemma_no_tracks(rest);
            }
            lemma_open_excludes(rest);
        }
    }
    assert(tracks_of(all) =~= match line {
        LineModel::Track(num, track_type) if no_file(items) => with_track(
            tracks_of(items),
            num,
            track_type,
        ),
        LineModel::Index(index) if no_file(items) && track_is_open(items) => with_index(
            tracks_of(items),
            index,
        ),
        _ => tracks_of(items),
    });
}

proof fn lemma_no_tracks(items: Seq<LineModel>)
    requires
        no_track_nor_file(items),
    ensures
        tracks_of(items) == Seq::<TrackModel>::empty(),
        no_file(items),
    decreases items.len(),
{
    if items.len() > 0 {
        lemma_open_after_first(items);
        lemma_no_tracks(items.skip(1));
    }
}

proof fn lemma_open_excludes(items: Seq<LineModel>)
    ensures
        track_is_open(items) ==> !no_track_nor_file(items),
        file_is_open(items) ==> !no_file(items),
{
}

proof fn lemma_no_files(items: Seq<LineModel>)
    requires
        no_file(items),
    ensures
        files_of(items) == Seq::<(Seq<char>, Seq<TrackModel>)>::empty(),
    decreases items.len(),
{
    if items.len() > 0 {
        lemma_open_after_first(items);
        lemma_no_files(items.skip(1));
    }
}

proof fn lemma_open_file_is_there(items: Seq<LineModel>)
    requires
        file_is_open(items),
    ensures
        files_of(items).len() > 0,
    decreases items.len(),
{
    lemma_open_after_first(items);
    if file_is_open(items.skip(1)) {
        lemma_open_file_is_there(items.skip(1));
    }
}

/// How one line more changes the files of a sheet. A `FILE` line with a name begins a file without
/// tracks. A `TRACK` line puts a track without index points behind the tracks of the file that is
/// open, and an `INDEX` line puts an index point behind those of the track that is open in it.
/// Nothing else changes anything.
pub proof fn law_one_more_line(items: Seq<LineModel>, line: LineModel)
    ensures
        ({
            let before = files_of(items);
            let after = files_of(items.push(line));
            match line {
                LineModel::File(Some(name)) => after == before.push((name, seq![])),
                LineModel::Track(num, track_type) if file_is_open(items) => {
                    &&& before.len() > 0
                    &&& after == before.drop_last().push(
                        (
                            before.last().0,
                            before.last().1.push(
                                TrackModel { num, track_type, indexes: seq![], sectors: None },
                            ),
                        ),
                    )
                },
                LineModel::Index(index) if file_is_open(items) && track_is_open(items) => {
                    let tracks = before.last().1;
                    &&& before.len() > 0
                    &&& tracks.len() > 0
                    &&& after == before.drop_last().push(
                        (
                            before.last().0,
                            tracks.drop_last().push(
                                TrackModel {
                                    indexes: tracks.last().indexes.push(index),
                                    ..tracks.last()
                                },
                            ),
                        ),
                    )
                },
                _ => after == before,
            }
        }),
    decreases items.len(),
{
    let all = items.push(line);
    let before = files_of(items);
    let after = files_of(all);
    if items.len() == 0 {
        assert(all[0] == line);
        assert(all.skip(1) =~= items);
        assert(!file_is_open(items));
    } else {
        let rest = items.skip(1);
        lemma_skip_first(items, line);
        lemma_open_after_first(items);
        law_one_more_line(rest, line);
        lemma_one_more_track(rest, line);
        lemma_open_excludes(rest);
        if no_file(rest) {
            lemma_no_files(rest);
            if items[0] is File && track_is_open(items) {
                assert(track_is_open(rest));
            }
        }
        if let LineModel::File(Some(name)) = items[0] {
            assert(before =~= seq![(name, tracks_of(rest))] + files_of(rest));
            assert(after =~= seq![(name, tracks_of(rest.push(line)))] + files_of(rest.push(line)));
            if !no_file(rest) {
                assert(tracks_of(rest.push(line)) == tracks_of(rest));
            }
            if file_is_open(rest) {
                lemma_open_file_is_there(rest);
                assert(before.last() == files_of(rest).last());
                assert(before.drop_last() =~= seq![(name, tracks_of(rest))] + files_of(
                    rest,
                ).drop_last());
            } else if no_file(rest) {
                assert(before =~= seq![(name, tracks_of(rest))]);
                assert(before.drop_last() =~= seq![]);
                assert(before.last() == (name, tracks_of(rest)));
            }
        }
        if track_is_open(items) && file_is_open(items) && !(items[0] is File) {
            if !track_is_open(rest) {
                assert(no_track_nor_file(rest));
                lemma_no_tracks(rest);
                assert(false);
            }
        }
    }
}

/// The first line that begins a track gives the sector size of the sheet, whatever the lines
/// before it say.
pub proof fn law_first_track_gives_sector_size(items: Seq<LineModel>, k: int)
    requires
        0 <= k < items.len(),
        items[k] is Track,
        forall|j: int| 0 <= j < k ==> !(#[trigger] items[j] is Track),
    ensures
        forall|sizes: Seq<Option<u64>>|
            #[trigger] sheet(items, sizes).blocksize == block_size(items[k]->Track_1),
        sheet_block_size(items) == block_size(items[k]->Track_1),
    decreases k,
{
    if k > 0 {
        let rest = items.skip(1);
        assert(!(items[0] is Track));
        assert forall|j: int| 0 <= j < k - 1 implies !(#[trigger] rest[j] is Track) by {
            assert(rest[j] == items[j + 1]);
        }
        law_first_track_gives_sector_size(rest, k - 1);
    }
}

/// A sheet without a track has the sectors of an audio disc.
pub proof fn law_sector_size_without_tracks(items: Seq<LineModel>)
    requires
        forall|j: int| 0 <= j < items.len() ==> !(#[trigger] items[j] is Track),
    ensures
        forall|sizes: Seq<Option<u64>>| #[trigger] sheet(items, sizes).blocksize == 2352,
        sheet_block_size(items) == 2352,
    decreases items.len(),
{
    if items.len() > 0 {
        let rest = items.skip(1);
        assert(!(items[0] is Track));
        assert forall|j: int| 0 <= j < rest.len() implies !(#[trigger] rest[j] is Track) by {
            assert(rest[j] == items[j + 1]);
        }
        law_sector_size_without_tracks(rest);
    }
}

proof fn lemma_silent_line(items: Seq<LineModel>, k: int)
    requires
        0 <= k < items.len(),
        items[k] is Other,
    ensures
        indexes_of(items.remove(k)) == indexes_of(items),
        tracks_of(items.remove(k)) == tracks_of(items),
        files_of(items.remove(k)) == files_of(items),
        sheet_block_size(items.remove(k)) == sheet_block_size(items),
    decreases k,
{
    let less = items.remove(k);
    if k == 0 {
        assert(less =~= items.skip(1));
    } else {
        assert(less[0] == items[0]);
        assert(less.skip(1) =~= items.skip(1).remove(k - 1));
        lemma_silent_line(items.skip(1), k - 1);
    }
}

/// A line that says nothing changes nothing, wherever it stands: neither the sector size nor the
/// files, the tracks, their index points and their lengths.
pub proof fn law_silent_line_changes_nothing(
    items: Seq<LineModel>,
    k: int,
    sizes: Seq<Option<u64>>,
)
    requires
        0 <= k <= items.len(),
    ensures
        sheet(items.insert(k, LineModel::Other), sizes) == sheet(items, sizes),
{
    let more = items.insert(k, LineModel::Other);
    assert(more.remove(k) =~= items);
    lemma_silent_line(more, k);
    assert(sheet(more, sizes).files =~= sheet(items, sizes).files);
}

/// A sheet has the files that its lines give, each with its size, and a size that is not known
/// counts as nothing. Where there is a single file its tracks have lengths: each reaches from its
/// first index point to that of the next track, and the last one to the end of the file, in whole
/// sectors; one that would end before it starts has the length 0. Otherwise no track has a length.
pub proof fn law_sheet_of_lines(items: Seq<LineModel>, sizes: Seq<Option<u64>>)
    ensures
        ({
            let read = sheet(items, sizes);
            let files = files_of(items);
            &&& read.files.len() == files.len()
            &&& forall|k: int|
                0 <= k < files.len() ==> {
                    &&& (#[trigger] read.files[k]).name == files[k].0
                    &&& read.files[k].size_bytes == (if k < sizes.len() && sizes[k] is Some {
                        sizes[k]->0
                    } else {
                        0
                    })
                    &&& read.files[k].tracks.len() == files[k].1.len()
                }
            &&& forall|k: int, i: int|
                0 <= k < files.len() && 0 <= i < files[k].1.len() ==> {
                    let track = #[trigger] read.files[k].tracks[i];
                    &&& track.num == files[k].1[i].num
                    &&& track.track_type == files[k].1[i].track_type
                    &&& track.indexes == files[k].1[i].indexes
                    &&& track.sectors is Some == (files.len() == 1)
                }
            &&& files.len() == 1 ==> forall|i: int|
                0 <= i < read.files[0].tracks.len() ==> {
                    let tracks = read.files[0].tracks;
                    let length = (#[trigger] read.files[0].tracks[i]).sectors->0 as int;
                    let from = first_point(tracks[i]);
                    let to = if i == tracks.len() - 1 {
                        read.files[0].size_bytes as int / read.blocksize as int
                    } else {
                        first_point(tracks[i + 1])
                    };
                    &&& from <= to ==> from + length == to
                    &&& from > to ==> length == 0
                }
        }),
{
    let read = sheet(items, sizes);
    let files = files_of(items);
    lemma_sector_size_positive(items);
    if files.len() == 1 {
        assert(read.files.len() == 1);
        assert forall|i: int| 0 <= i < read.files[0].tracks.len() implies ({
            let tracks = read.files[0].tracks;
            let length = (#[trigger] read.files[0].tracks[i]).sectors->0 as int;
            let from = first_point(tracks[i]);
            let to = if i == tracks.len() - 1 {
                read.files[0].size_bytes as int / read.blocksize as int
            } else {
                first_point(tracks[i + 1])
            };
            &&& from <= to ==> from + length == to
            &&& from > to ==> length == 0
        }) by {
            let tracks = read.files[0].tracks;
            assert(first_point(tracks[i]) == first_point(files[0].1[i]));
            if i + 1 < tracks.len() {
                assert(first_point(tracks[i + 1]) == first_point(files[0].1[i + 1]));
            }
        }
    } else {
        assert forall|k: int, i: int|
            0 <= k < files.len() && 0 <= i < files[k].1.len() implies (
        #[trigger] read.files[k].tracks[i]).sectors is None by {
            lemma_tracks_without_lengths(items, k, i);
        }
    }
}

/// The first index point of a track; a track without one counts from the start of its file.
pub open spec fn first_point(track: TrackModel) -> int {
    if track.indexes.len() == 0 {
        0
    } else {
        track.indexes[0].sectors as int
    }
}

proof fn lemma_sector_size_positive(items: Seq<LineModel>)
    ensures
        sheet_block_size(items) > 0,
    decreases items.len(),
{
    if items.len() > 0 {
        lemma_sector_size_positive(items.skip(1));
    }
}

proof fn lemma_no_length(items: Seq<LineModel>, i: int)
    requires
        0 <= i < tracks_of(items).len(),
    ensures
        tracks_of(items)[i].sectors is None,
    decreases items.len(),
{
    if let LineModel::Track(_, _) = items[0] {
        if i > 0 {
            lemma_no_length(items.skip(1), i - 1);
        }
    } else {
        lemma_no_length(items.skip(1), i);
    }
}

proof fn lemma_tracks_without_lengths(items: Seq<LineModel>, k: int, i: int)
    requires
        0 <= k < files_of(items).len(),
        0 <= i < files_of(items)[k].1.len(),
    ensures
        files_of(items)[k].1[i].sectors is None,
    decreases items.len(),
{
    if let LineModel::File(Some(_)) = items[0] {
        if k > 0 {
            lemma_tracks_without_lengths(items.skip(1), k - 1, i);
        } else {
            lemma_no_length(items.skip(1), i);
        }
    } else {
        lemma_tracks_without_lengths(items.skip(1), k, i);
    }
}

// ---------------------------------------------------------------------------
// Lines of text
// ---------------------------------------------------------------------------

/// The first line of a text is read without the white space around it, and the rest is read as if
/// it stood alone.
pub proof fn law_sheet_is_read_by_lines(
    before: Seq<char>,
    line: Seq<char>,
    after: Seq<char>,
    rest: Seq<char>,
)
    requires
        !(before + line + after).contains('\n'),
        forall|i: int| 0 <= i < before.len() ==> is_white_space(#[trigger] before[i]),
        forall|i: int| 0 <= i < after.len() ==> is_white_space(#[trigger] after[i]),
        line.len() > 0 ==> !is_white_space(line[0]) && !is_white_space(line.last()),
    ensures
        sheet_lines(before + line + after + seq!['\n'] + rest) == seq![
            line_model(line, upper_text(line)),
        ] + sheet_lines(rest),
        sheet_lines(before + line + after) == (if (before + line + after).len() > 0 {
            seq![line_model(line, upper_text(line))]
        } else {
            seq![]
        }),
        sheet_lines(seq![]) == Seq::<LineModel>::empty(),
        sheet_fits(before + line + after + seq!['\n'] + rest) == (line_fits(upper_text(line))
            && sheet_fits(rest)),
        sheet_fits(before + line + after) == ((before + line + after).len() > 0 ==> line_fits(
            upper_text(line),
        )),
{
    let whole = before + line + after;
    let text = whole + seq!['\n'] + rest;
    let read = |l: Seq<char>| said(l);
    lemma_lines_one(whole, rest);
    law_last_line(whole);
    law_last_line(seq![]);
    law_trim(before, line, after);
    let kept = without_final_cr(whole);
    if kept != whole {
        assert(whole.last() == '\r');
        if after.len() > 0 {
            let less = after.drop_last();
            assert forall|i: int| 0 <= i < less.len() implies is_white_space(
                #[trigger] less[i],
            ) by {
                assert(less[i] == after[i]);
            }
            law_trim(before, line, less);
            assert(kept =~= before + line + less);
        } else if line.len() > 0 {
            assert(whole.last() == line.last());
            assert(is_white_space('\r'));
        } else {
            let less = before.drop_last();
            assert forall|i: int| 0 <= i < less.len() implies is_white_space(
                #[trigger] less[i],
            ) by {
                assert(less[i] == before[i]);
            }
            law_trim(less, line, after);
            assert(kept =~= less + line + after);
        }
    }
    assert(trim(kept) == line);
    assert(lines(text) == seq![kept] + lines(rest));
    assert(sheet_lines(text) =~= seq![said(kept)] + sheet_lines(rest));
    assert(whole.len() > 0 ==> sheet_lines(whole) =~= seq![said(whole)]);
    assert(whole.len() == 0 ==> sheet_lines(whole) =~= seq![]);
    assert(sheet_lines(seq![]) =~= seq![]);
    assert(lines(text)[0] == kept);
    assert(forall|k: int| 0 <= k < lines(rest).len() ==> lines(text)[k + 1] == #[trigger] lines(
        rest,
    )[k]);
    assert(forall|k: int|
        1 <= k < lines(text).len() ==> #[trigger] lines(text)[k] == lines(rest)[k - 1]);
    if sheet_fits(text) {
        assert(line_fits(upper_text(trim(lines(text)[0]))));
        assert forall|k: int| 0 <= k < lines(rest).len() implies line_fits(
            upper_text(trim(#[trigger] lines(rest)[k])),
        ) by {
            assert(line_fits(upper_text(trim(lines(text)[k + 1]))));
        }
    }
    if whole.len() > 0 {
        assert(lines(whole)[0] == whole);
    }
}

/// A line of a text that says nothing changes nothing of what the text says, wherever it stands.
pub proof fn law_silent_line_of_text(
    front: Seq<char>,
    line: Seq<char>,
    rest: Seq<char>,
    sizes: Seq<Option<u64>>,
)
    requires
        front.len() == 0 || front.last() == '\n',
        !line.contains('\n'),
        said(without_final_cr(line)) == LineModel::Other,
    ensures
        sheet(sheet_lines(front + line + seq!['\n'] + rest), sizes) == sheet(
            sheet_lines(front + rest),
            sizes,
        ),
{
    let own = line + seq!['\n'] + rest;
    let k = lines(front).len() as int;
    assert(front + line + seq!['\n'] + rest =~= front + own);
    law_lines_of_parts(front, own);
    law_lines_of_parts(front, rest);
    lemma_lines_one(line, rest);
    let items = sheet_lines(front + rest);
    assert(sheet_lines(front + own) =~= items.insert(k, LineModel::Other));
    law_silent_line_changes_nothing(items, k, sizes);
}

/// The files of a sheet have the names that it refers to, in that order.
pub proof fn law_names_of_files(items: Seq<LineModel>, sizes: Seq<Option<u64>>)
    ensures
        sheet(items, sizes).files.len() == file_names(items).len(),
        forall|k: int|
            0 <= k < file_names(items).len() ==> (#[trigger] sheet(items, sizes).files[k]).name
                == file_names(items)[k],
{
    law_sheet_of_lines(items, sizes);
}

/// The name of a file is the text between the first two quotation marks.
pub proof fn law_quoted(front: Seq<char>, name: Seq<char>, rest: Seq<char>)
    requires
        !front.contains('"'),
        !name.contains('"'),
    ensures
        quoted(front + seq!['"'] + name + seq!['"'] + rest) == Some(name),
        quoted(front + seq!['"'] + name) is None,
        quoted(front) is None,
{
    let s = front + seq!['"'] + name + seq!['"'] + rest;
    let n = front.len() as int;
    let m = n + 1 + name.len();
    assert forall|j: int| 0 <= j < n implies s[j] != '"' by {
        assert(front.contains(front[j]));
    }
    assert forall|j: int| n < j < m implies s[j] != '"' by {
        assert(name.contains(name[j - n - 1]));
    }
    lemma_next_char_is(s, '"', 0, n);
    lemma_next_char_is(s, '"', n + 1, m);
    assert(s.subrange(n + 1, m) =~= name);
    let t = front + seq!['"'] + name;
    assert forall|j: int| 0 <= j < n implies t[j] != '"' by {
        assert(t[j] == s[j]);
    }
    assert forall|j: int| n < j < m implies t[j] != '"' by {
        assert(t[j] == s[j]);
    }
    lemma_next_char_is(t, '"', 0, n);
    lemma_next_char_is(t, '"', n + 1, m);
    assert forall|j: int| 0 <= j < n implies front[j] != '"' by {
        assert(front[j] == s[j]);
    }
    lemma_next_char_is(front, '"', 0, n);
}

/// A line that starts with `FILE ` and speaks of `BINARY` or `WAVE` begins a file.
pub proof fn law_file_line(line: Seq<char>, a: Seq<char>, b: Seq<char>)
    ensures
        line_model(line, "FILE "@ + a + "BINARY"@ + b) == LineModel::File(quoted(line)),
        line_model(line, "FILE "@ + a + "WAVE"@ + b) == LineModel::File(quoted(line)),
{
    let s = "FILE "@ + a + "BINARY"@ + b;
    let t = "FILE "@ + a + "WAVE"@ + b;
    let i = "FILE "@.len() + a.len() as int;
    assert(s.subrange(i, i + "BINARY"@.len()) =~= "BINARY"@);
    assert(t.subrange(i, i + "WAVE"@.len()) =~= "WAVE"@);
    assert(occurs_at(s, "BINARY"@, i));
    assert(occurs_at(t, "WAVE"@, i));
    assert("FILE "@.is_prefix_of(s));
    assert("FILE "@.is_prefix_of(t));
}

/// Other lines that start with `FILE ` say nothing.
pub proof fn law_file_line_of_another_kind(line: Seq<char>, upper: Seq<char>)
    requires
        "FILE "@.is_prefix_of(upper),
        forall|a: Seq<char>, b: Seq<char>| upper != #[trigger] (a + "BINARY"@ + b),
        forall|a: Seq<char>, b: Seq<char>| upper != #[trigger] (a + "WAVE"@ + b),
    ensures
        line_model(line, upper) == LineModel::Other,
        line_fits(upper),
{
    law_occurs(upper, "BINARY"@);
    law_occurs(upper, "WAVE"@);
    reveal_strlit("FILE ");
    reveal_strlit("TRACK ");
    reveal_strlit("INDEX ");
    assert(upper[0] == "FILE "@[0]);
    if "TRACK "@.is_prefix_of(upper) {
        assert(upper[0] == "TRACK "@[0]);
    }
    if "INDEX "@.is_prefix_of(upper) {
        assert(upper[0] == "INDEX "@[0]);
    }
}

/// A line that starts with none of the three words says nothing, such as a remark, a title or an
/// empty line.
pub proof fn law_line_that_says_nothing(line: Seq<char>, upper: Seq<char>)
    requires
        !"FILE "@.is_prefix_of(upper),
        !"TRACK "@.is_prefix_of(upper),
        !"INDEX "@.is_prefix_of(upper),
    ensures
        line_model(line, upper) == LineModel::Other,
        line_fits(upper),
{
}

/// A line that starts with `TRACK ` begins a track. Blanks part it: its second part is the number,
/// which is 0 where it reads as none, and all that follows is the type.
pub proof fn law_track_line(
    word: Seq<char>,
    num: Seq<char>,
    kind: Seq<char>,
    upper: Seq<char>,
)
    requires
        "TRACK "@.is_prefix_of(upper),
        !word.contains(' '),
        !num.contains(' '),
    ensures
        line_model(word + seq![' '] + num + seq![' '] + kind, upper) == LineModel::Track(
            match read_decimal(num, u32::MAX as int) {
                Some(n) => n as u32,
                None => 0,
            },
            trim(kind),
        ),
        line_model(word + seq![' '] + num, upper) == LineModel::Track(
            match read_decimal(num, u32::MAX as int) {
                Some(n) => n as u32,
                None => 0,
            },
            "AUDIO"@,
        ),
        line_model(word, upper) == LineModel::Track(0, "AUDIO"@),
        line_fits(upper),
{
    reveal_strlit("FILE ");
    reveal_strlit("TRACK ");
    reveal_strlit("INDEX ");
    assert(upper[0] == "TRACK "@[0]);
    if "FILE "@.is_prefix_of(upper) {
        assert(upper[0] == "FILE "@[0]);
    }
    if "INDEX "@.is_prefix_of(upper) {
        assert(upper[0] == "INDEX "@[0]);
    }
    let s = word + seq![' '] + num + seq![' '] + kind;
    let t = word + seq![' '] + num;
    let n = word.len() as int;
    let m = n + 1 + num.len();
    assert forall|j: int| 0 <= j < n implies s[j] != ' ' && t[j] != ' ' && word[j] != ' ' by {
        assert(word.contains(word[j]));
    }
    assert forall|j: int| n < j < m implies s[j] != ' ' && t[j] != ' ' by {
        assert(num.contains(num[j - n - 1]));
    }
    lemma_next_char_is(s, ' ', 0, n);
    lemma_next_char_is(s, ' ', n + 1, m);
    lemma_next_char_is(t, ' ', 0, n);
    lemma_next_char_is(t, ' ', n + 1, m);
    lemma_next_char_is(word, ' ', 0, n);
    assert(s.subrange(n + 1, m) =~= num);
    assert(t.subrange(n + 1, m) =~= num);
    assert(s.skip(m + 1) =~= kind);
}

/// A line that starts with `INDEX ` gives an index point where a number and a position follow,
/// with white space between them; whatever follows them does not count.
pub proof fn law_index_line(
    line: Seq<char>,
    space: Seq<char>,
    id: Seq<char>,
    between: Seq<char>,
    position: Seq<char>,
    rest: Seq<char>,
)
    requires
        forall|i: int| 0 <= i < space.len() ==> is_white_space(#[trigger] space[i]),
        forall|i: int| 0 <= i < id.len() ==> !is_white_space(#[trigger] id[i]),
        forall|i: int| 0 <= i < between.len() ==> is_white_space(#[trigger] between[i]),
        forall|i: int| 0 <= i < position.len() ==> !is_white_space(#[trigger] position[i]),
        id.len() > 0,
        between.len() > 0,
        position.len() > 0,
        rest.len() > 0 ==> is_white_space(rest[0]),
    ensures
        ({
            let upper = "INDEX "@ + space + id + between + position + rest;
            &&& line_model(line, upper) == (match (
                read_decimal(id, u32::MAX as int),
                msf_sectors(position),
            ) {
                (Some(n), Some(sectors)) => LineModel::Index(
                    CueIndex { id: n as u32, sectors: sectors as u64 },
                ),
                _ => LineModel::Other,
            })
            &&& line_fits(upper) == (match msf_sectors(position) {
                Some(sectors) => sectors <= u64::MAX,
                None => true,
            })
        }),
        line_model(line, "INDEX "@ + space + id) == LineModel::Other,
        line_fits("INDEX "@ + space + id),
        line_model(line, "INDEX "@ + space) == LineModel::Other,
        line_fits("INDEX "@ + space),
{
    reveal_strlit("FILE ");
    reveal_strlit("TRACK ");
    reveal_strlit("INDEX ");
    let key = "INDEX "@;
    let n = key.len() as int;
    let tail = between + position + rest;
    let upper = key + space + id + between + position + rest;
    assert(upper.skip(n) =~= space + id + tail);
    assert(tail[0] == between[0]);
    law_first_word(space, id, tail);
    law_first_word(between, position, rest);
    assert(words(upper.skip(n))[0] == id);
    assert(words(upper.skip(n))[1] == position);
    assert(upper.take(n) =~= key);
    lemma_index_line_only(upper);
    let short = key + space + id;
    assert(short.skip(n) =~= space + id + Seq::<char>::empty());
    law_first_word(space, id, seq![]);
    law_no_words(seq![]);
    assert(short.take(n) =~= key);
    lemma_index_line_only(short);
    let bare = key + space;
    assert(bare.skip(n) =~= space);
    law_no_words(space);
    assert(bare.take(n) =~= key);
    lemma_index_line_only(bare);
}

proof fn lemma_index_line_only(upper: Seq<char>)
    requires
        upper.len() >= "INDEX "@.len(),
        upper.take("INDEX "@.len() as int) == "INDEX "@,
    ensures
        "INDEX "@.is_prefix_of(upper),
        !"FILE "@.is_prefix_of(upper),
        !"TRACK "@.is_prefix_of(upper),
{
    reveal_strlit("FILE ");
    reveal_strlit("TRACK ");
    reveal_strlit("INDEX ");
    assert(upper[0] == upper.take("INDEX "@.len() as int)[0]);
    if "FILE "@.is_prefix_of(upper) {
        assert(upper[0] == "FILE "@[0]);
    }
    if "TRACK "@.is_prefix_of(upper) {
        assert(upper[0] == "TRACK "@[0]);
    }
}

} // verus!
