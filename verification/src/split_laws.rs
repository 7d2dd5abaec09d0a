//! What holds of every split: its steps agree with the sheet that it writes and with the disc that
//! it reads.

use crate::cue::{CueIndex, SheetModel, TrackModel};
use crate::decimal::{decimal, decimal_two};
use crate::msf::msf_text;
use crate::names::{track_file_name, track_suffix};
use crate::round_trip::{is_plain_name, is_plain_type, law_split_sheet_reads_back, split_files};
use crate::sheet::{files_of, sheet_lines};
use crate::sheet_laws::first_point;
use crate::split::{
    index_entries, index_entry, split_cue, split_entry, split_fits, split_steps, track_fits,
    track_steps, tracks_fit,
};
use crate::split::SplitStepModel;
use vstd::prelude::*;

verus! {

/// The name of the file of a track: the title alone on a disc of one track; else the number
/// follows it, with at least two digits on a disc of more than nine.
pub open spec fn name_on_disc(base: Seq<char>, num: u32, count: int) -> Seq<char> {
    if count == 1 {
        base + ".bin"@
    } else if count > 9 {
        base + " (Track "@ + decimal_two(num as int) + ").bin"@
    } else {
        base + " (Track "@ + decimal(num as int) + ").bin"@
    }
}

/// How far an index point lies behind the first one of its track; one before it counts as 0.
pub open spec fn offset_in_track(track: TrackModel, i: int) -> int {
    if track.indexes[i].sectors <= first_point(track) {
        0
    } else {
        track.indexes[i].sectors - first_point(track)
    }
}

proof fn lemma_name_on_disc(base: Seq<char>, num: u32, count: int)
    ensures
        track_file_name(base, num as int, count) == name_on_disc(base, num, count),
{
    reveal_strlit(" ");
    reveal_strlit("(Track ");
    reveal_strlit(" (Track ");
    reveal_strlit(")");
    reveal_strlit(".bin");
    reveal_strlit(").bin");
    assert(track_file_name(base, num as int, count) =~= name_on_disc(base, num, count));
}

/// How the file of a track is named, and the part of the name that gives the number.
pub proof fn law_names_on_disc(base: Seq<char>, num: u32, count: int)
    ensures
        count == 1 ==> track_file_name(base, num as int, count) == base + ".bin"@,
        count > 9 ==> track_file_name(base, num as int, count) == base + " (Track "@
            + decimal_two(num as int) + ").bin"@,
        count != 1 && count <= 9 ==> track_file_name(base, num as int, count) == base
            + " (Track "@ + decimal(num as int) + ").bin"@,
        track_suffix(num as int, count) == "(Track "@ + (if count > 9 {
            decimal_two(num as int)
        } else {
            decimal(num as int)
        }) + ")"@,
{
    lemma_name_on_disc(base, num, count);
}

/// Only a disc in a single file with more than one track is split.
pub proof fn law_what_is_split(disc: SheetModel, base: Seq<char>)
    ensures
        split_steps(disc, base) is Ok <==> disc.files.len() == 1 && disc.files[0].tracks.len() > 1,
        disc.files.len() == 0 ==> split_steps(disc, base) == Err::<Seq<SplitStepModel>, Seq<char>>(
            "No FILE entries found in CUE"@,
        ),
        disc.files.len() > 1 ==> split_steps(disc, base) == Err::<Seq<SplitStepModel>, Seq<char>>(
            "CUE references multiple bin files — Split only works on a single-bin disc."@,
        ),
        disc.files.len() == 1 && disc.files[0].tracks.len() <= 1 ==> split_steps(disc, base)
            == Err::<Seq<SplitStepModel>, Seq<char>>("Only one track in CUE — nothing to split"@),
{
}

/// The steps for the first `m` tracks of a disc from position `i` on, all of which have lengths.
proof fn lemma_track_plan(
    base: Seq<char>,
    tracks: Seq<TrackModel>,
    blocksize: u64,
    m: int,
    i: int,
    k: int,
)
    requires
        0 <= i <= m <= tracks.len(),
        forall|j: int| 0 <= j < m ==> (#[trigger] tracks[j]).sectors is Some,
    ensures
        ({
            let steps = track_steps(base, tracks, blocksize, i);
            let at = 5 * (k - i);
            let name = name_on_disc(base, tracks[k].num, tracks.len() as int);
            &&& steps.len() == 5 * (m - i) + track_steps(base, tracks, blocksize, m).len()
            &&& steps.skip(5 * (m - i)) == track_steps(base, tracks, blocksize, m)
            &&& i <= k < m ==> {
                &&& steps[at] == SplitStepModel::Log("  writing "@ + name)
                &&& steps[at + 1] == SplitStepModel::Seek(
                    (first_point(tracks[k]) * blocksize) as u64,
                )
                &&& steps[at + 2] == SplitStepModel::Create(name)
                &&& steps[at + 3] == SplitStepModel::Copy(
                    tracks[k].num,
                    (tracks[k].sectors->0 * blocksize) as u64,
                )
                &&& steps[at + 4] == SplitStepModel::Report(name)
            }
        }),
    decreases m - i,
{
    let steps = track_steps(base, tracks, blocksize, i);
    if i < m {
        let rest = track_steps(base, tracks, blocksize, i + 1);
        lemma_track_plan(base, tracks, blocksize, m, i + 1, k);
        assert(tracks[i].sectors is Some);
        lemma_name_on_disc(base, tracks[i].num, tracks.len() as int);
        assert(steps.skip(5) =~= rest);
        assert(steps.skip(5 * (m - i)) =~= rest.skip(5 * (m - (i + 1))));
        assert(forall|j: int| 5 <= j < steps.len() ==> #[trigger] steps[j] == rest[j - 5]);
    } else {
        assert(steps.skip(0) =~= steps);
    }
}

/// The steps of a split. The source is opened, and for each track in turn: the split goes to the
/// byte at which the track starts, creates the file of the track, copies all bytes of the track
/// into it and reports it. At last the sheet is written. A track without a length, of which the
/// first one stands at `m`, ends the split before its file is created and before any sheet is
/// written.
pub proof fn law_steps_of_a_split(disc: SheetModel, base: Seq<char>, m: int)
    requires
        disc.files.len() == 1,
        disc.files[0].tracks.len() > 1,
        0 <= m <= disc.files[0].tracks.len(),
        forall|j: int| 0 <= j < m ==> (#[trigger] disc.files[0].tracks[j]).sectors is Some,
        m < disc.files[0].tracks.len() ==> disc.files[0].tracks[m].sectors is None,
    ensures
        ({
            let tracks = disc.files[0].tracks;
            let n = tracks.len() as int;
            let steps = split_steps(disc, base)->Ok_0;
            &&& split_steps(disc, base) is Ok
            &&& steps.len() == 5 * m + 4
            &&& steps[0] == SplitStepModel::LogSource(
                "Splitting "@ + decimal(n) + " tracks from "@,
                "…"@,
            )
            &&& steps[1] == SplitStepModel::OpenSource
            &&& forall|k: int|
                0 <= k < m ==> {
                    let track = #[trigger] tracks[k];
                    let name = name_on_disc(base, track.num, n);
                    &&& steps[5 * k + 2] == SplitStepModel::Log("  writing "@ + name)
                    &&& steps[5 * k + 3] == SplitStepModel::Seek(
                        (first_point(track) * disc.blocksize) as u64,
                    )
                    &&& steps[5 * k + 4] == SplitStepModel::Create(name)
                    &&& steps[5 * k + 5] == SplitStepModel::Copy(
                        track.num,
                        (track.sectors->0 * disc.blocksize) as u64,
                    )
                    &&& steps[5 * k + 6] == SplitStepModel::Report(name)
                }
            &&& m == n ==> {
                &&& steps[5 * m + 2] == SplitStepModel::WriteSheet(
                    base + ".cue"@,
                    split_cue(base, tracks),
                )
                &&& steps[5 * m + 3] == SplitStepModel::LogSheet("Split CUE   : "@)
            }
            &&& m < n ==> {
                &&& steps[5 * m + 2] == SplitStepModel::Log(
                    "  writing "@ + name_on_disc(base, tracks[m].num, n),
                )
                &&& steps[5 * m + 3] == SplitStepModel::Fail(
                    "Track "@ + decimal(tracks[m].num as int) + " has no computed sector length"@,
                )
            }
        }),
{
    let tracks = disc.files[0].tracks;
    let n = tracks.len() as int;
    let b = disc.blocksize;
    let steps = split_steps(disc, base)->Ok_0;
    let all = track_steps(base, tracks, b, 0);
    let last = track_steps(base, tracks, b, m);
    lemma_track_plan(base, tracks, b, m, 0, 0);
    assert(last.len() == 2);
    assert(steps =~= steps.take(2) + all);
    assert(steps[5 * m + 2] == all[5 * m] && all[5 * m] == all.skip(5 * m)[0]);
    assert(steps[5 * m + 3] == all[5 * m + 1] && all[5 * m + 1] == all.skip(5 * m)[1]);
    if m < n {
        lemma_name_on_disc(base, tracks[m].num, n);
    }
    assert forall|k: int| 0 <= k < m implies ({
        let track = #[trigger] tracks[k];
        let name = name_on_disc(base, track.num, n);
        &&& steps[5 * k + 2] == SplitStepModel::Log("  writing "@ + name)
        &&& steps[5 * k + 3] == SplitStepModel::Seek((first_point(track) * b) as u64)
        &&& steps[5 * k + 4] == SplitStepModel::Create(name)
        &&& steps[5 * k + 5] == SplitStepModel::Copy(track.num, (track.sectors->0 * b) as u64)
        &&& steps[5 * k + 6] == SplitStepModel::Report(name)
    }) by {
        lemma_track_plan(base, tracks, b, m, 0, k);
        lemma_behind_the_opening(steps, all, 5 * k);
    }
}

proof fn lemma_behind_the_opening(
    steps: Seq<SplitStepModel>,
    all: Seq<SplitStepModel>,
    at: int,
)
    requires
        steps.len() >= 2,
        steps == steps.take(2) + all,
        0 <= at,
        at + 4 < all.len(),
    ensures
        steps[at + 2] == all[at],
        steps[at + 3] == all[at + 1],
        steps[at + 4] == all[at + 2],
        steps[at + 5] == all[at + 3],
        steps[at + 6] == all[at + 4],
{
    let whole = steps.take(2) + all;
    assert(whole[at + 2] == all[at]);
    assert(whole[at + 3] == all[at + 1]);
    assert(whole[at + 4] == all[at + 2]);
    assert(whole[at + 5] == all[at + 3]);
    assert(whole[at + 6] == all[at + 4]);
}

/// The files that a split creates are those that its sheet names, whatever the number of tracks:
/// reading the sheet that is written gives one file for each track, in the order in which the
/// files are created; the file has the name under which it was created and is reported, and holds
/// the track whose number and bytes are copied into it. No other file is created.
pub proof fn law_created_files_are_those_of_the_sheet(disc: SheetModel, base: Seq<char>)
    requires
        disc.files.len() == 1,
        disc.files[0].tracks.len() > 1,
        is_plain_name(base),
        forall|k: int|
            0 <= k < disc.files[0].tracks.len() ==> (#[trigger] disc.files[0].tracks[k]).sectors
                is Some && is_plain_type(disc.files[0].tracks[k].track_type),
    ensures
        ({
            let tracks = disc.files[0].tracks;
            let n = tracks.len() as int;
            let steps = split_steps(disc, base)->Ok_0;
            let text = steps[5 * n + 2]->WriteSheet_1;
            let files = files_of(sheet_lines(text));
            &&& split_steps(disc, base) is Ok
            &&& steps.len() == 5 * n + 4
            &&& steps[5 * n + 2] == SplitStepModel::WriteSheet(base + ".cue"@, text)
            &&& files.len() == n
            &&& forall|k: int|
                0 <= k < n ==> {
                    &&& steps[5 * k + 4] == SplitStepModel::Create((#[trigger] files[k]).0)
                    &&& steps[5 * k + 6] == SplitStepModel::Report(files[k].0)
                    &&& files[k].1.len() == 1
                    &&& steps[5 * k + 5] == SplitStepModel::Copy(
                        files[k].1[0].num,
                        (tracks[k].sectors->0 * disc.blocksize) as u64,
                    )
                    &&& files[k].1[0].num == tracks[k].num
                    &&& files[k].1[0].track_type == tracks[k].track_type
                    &&& files[k].1[0].indexes.len() == tracks[k].indexes.len()
                    &&& forall|i: int|
                        0 <= i < tracks[k].indexes.len() ==> #[trigger] files[k].1[0].indexes[i]
                            == (CueIndex {
                            id: tracks[k].indexes[i].id,
                            sectors: offset_in_track(tracks[k], i) as u64,
                        })
                }
            &&& forall|i: int|
                0 <= i < steps.len() ==> {
                    &&& #[trigger] steps[i] is Create ==> i % 5 == 4 && i < 5 * n + 2
                    &&& steps[i] is Copy ==> i % 5 == 0 && 0 < i < 5 * n + 2
                    &&& steps[i] is Report ==> i % 5 == 1 && 1 < i < 5 * n + 2
                    &&& steps[i] is WriteSheet ==> i == 5 * n + 2
                    &&& !(steps[i] is Fail)
                }
        }),
{
    let tracks = disc.files[0].tracks;
    let n = tracks.len() as int;
    let steps = split_steps(disc, base)->Ok_0;
    law_steps_of_a_split(disc, base, n);
    law_split_sheet_reads_back(base, tracks);
    let files = files_of(sheet_lines(split_cue(base, tracks)));
    assert(files == split_files(base, tracks));
    assert forall|k: int| 0 <= k < n implies ({
        &&& steps[5 * k + 4] == SplitStepModel::Create((#[trigger] files[k]).0)
        &&& steps[5 * k + 6] == SplitStepModel::Report(files[k].0)
        &&& files[k].1.len() == 1
        &&& steps[5 * k + 5] == SplitStepModel::Copy(
            files[k].1[0].num,
            (tracks[k].sectors->0 * disc.blocksize) as u64,
        )
        &&& files[k].1[0].num == tracks[k].num
        &&& files[k].1[0].track_type == tracks[k].track_type
        &&& files[k].1[0].indexes.len() == tracks[k].indexes.len()
        &&& forall|i: int|
            0 <= i < tracks[k].indexes.len() ==> #[trigger] files[k].1[0].indexes[i] == (CueIndex {
                id: tracks[k].indexes[i].id,
                sectors: offset_in_track(tracks[k], i) as u64,
            })
    }) by {
        assert(tracks[k].sectors is Some);
        lemma_name_on_disc(base, tracks[k].num, n);
    }
    assert forall|i: int| 0 <= i < steps.len() implies ({
        &&& #[trigger] steps[i] is Create ==> i % 5 == 4 && i < 5 * n + 2
        &&& steps[i] is Copy ==> i % 5 == 0 && 0 < i < 5 * n + 2
        &&& steps[i] is Report ==> i % 5 == 1 && 1 < i < 5 * n + 2
        &&& steps[i] is WriteSheet ==> i == 5 * n + 2
        &&& !(steps[i] is Fail)
    }) by {
        if 2 <= i < 5 * n + 2 {
            let k = (i - 2) / 5;
            assert(tracks[k].sectors is Some);
            assert(i == 5 * k + 2 || i == 5 * k + 3 || i == 5 * k + 4 || i == 5 * k + 5 || i == 5
                * k + 6);
        }
    }
}

/// The text of the sheet of a split disc: for each track a `FILE` line with the name of its file, a
/// `TRACK` line with its number and type, and an `INDEX` line for each of its index points, counted
/// from the first one.
pub proof fn law_text_of_a_split_sheet(base: Seq<char>, tracks: Seq<TrackModel>)
    ensures
        split_cue(base, tracks) == Seq::new(
            tracks.len(),
            |k: int|
                "FILE \""@ + name_on_disc(base, tracks[k].num, tracks.len() as int)
                    + "\" BINARY\n"@ + ("  TRACK "@ + decimal_two(tracks[k].num as int) + " "@
                    + tracks[k].track_type + "\n"@) + Seq::new(
                    tracks[k].indexes.len(),
                    |i: int|
                        "    INDEX "@ + decimal_two(tracks[k].indexes[i].id as int) + " "@
                            + msf_text(offset_in_track(tracks[k], i)) + "\n"@,
                ).flatten(),
        ).flatten(),
{
    let n = tracks.len() as int;
    let entries = Seq::new(tracks.len(), |k: int| split_entry(base, tracks[k], n));
    let texts = Seq::new(
        tracks.len(),
        |k: int|
            "FILE \""@ + name_on_disc(base, tracks[k].num, tracks.len() as int) + "\" BINARY\n"@ + (
            "  TRACK "@ + decimal_two(tracks[k].num as int) + " "@ + tracks[k].track_type + "\n"@)
                + Seq::new(
                tracks[k].indexes.len(),
                |i: int|
                    "    INDEX "@ + decimal_two(tracks[k].indexes[i].id as int) + " "@ + msf_text(
                        offset_in_track(tracks[k], i),
                    ) + "\n"@,
            ).flatten(),
    );
    assert forall|k: int| 0 <= k < n implies #[trigger] entries[k] == texts[k] by {
        let t = tracks[k];
        lemma_name_on_disc(base, t.num, n);
        let a = Seq::new(t.indexes.len(), |i: int| index_entry(t, i));
        let b = Seq::new(
            t.indexes.len(),
            |i: int|
                "    INDEX "@ + decimal_two(tracks[k].indexes[i].id as int) + " "@ + msf_text(
                    offset_in_track(tracks[k], i),
                ) + "\n"@,
        );
        assert(a =~= b);
        assert(index_entries(t) == b.flatten());
    }
    assert(entries =~= texts);
}

/// A split can be planned where the offset and the length in bytes of every track that it comes to
/// can be counted in 64 bits.
pub proof fn law_splits_in_range(disc: SheetModel)
    ensures
        disc.files.len() != 1 || disc.files[0].tracks.len() <= 1 ==> split_fits(disc),
        disc.files.len() == 1 && disc.files[0].tracks.len() > 1 ==> split_fits(disc) == (forall|
            i: int,
        |
            #![trigger disc.files[0].tracks[i]]
            0 <= i < disc.files[0].tracks.len() && (forall|j: int|
                0 <= j <= i ==> (#[trigger] disc.files[0].tracks[j]).sectors is Some)
                ==> first_point(disc.files[0].tracks[i]) * disc.blocksize <= u64::MAX
                && disc.files[0].tracks[i].sectors->0 * disc.blocksize <= u64::MAX),
{
    if disc.files.len() == 1 && disc.files[0].tracks.len() > 1 {
        let tracks = disc.files[0].tracks;
        let b = disc.blocksize;
        if tracks_fit(tracks, b) {
            assert forall|i: int|
                #![trigger disc.files[0].tracks[i]]
                0 <= i < tracks.len() && (forall|j: int|
                    0 <= j <= i ==> (#[trigger] tracks[j]).sectors is Some) implies first_point(
                tracks[i],
            ) * b <= u64::MAX && tracks[i].sectors->0 * b <= u64::MAX by {
                assert(tracks[i].sectors is Some);
                assert(track_fits(tracks[i], b));
            }
        }
        if forall|i: int|
            #![trigger disc.files[0].tracks[i]]
            0 <= i < disc.files[0].tracks.len() && (forall|j: int|
                0 <= j <= i ==> (#[trigger] disc.files[0].tracks[j]).sectors is Some)
                ==> first_point(disc.files[0].tracks[i]) * disc.blocksize <= u64::MAX
                && disc.files[0].tracks[i].sectors->0 * disc.blocksize <= u64::MAX {
            assert forall|i: int|
                0 <= i < tracks.len() && (forall|j: int|
                    0 <= j < i ==> (#[trigger] tracks[j]).sectors is Some) implies track_fits(
                #[trigger] tracks[i],
                b,
            ) by {
                if tracks[i].sectors is Some {
                    assert forall|j: int| 0 <= j <= i implies (#[trigger] tracks[j]).sectors
                        is Some by {}
                    assert(first_point(disc.files[0].tracks[i]) * b <= u64::MAX);
                }
            }
        }
    }
}

} // verus!
