//! Splitting a disc in a single file into one file per track.
//!
//! A split is a list of steps. Whoever carries them out stops at the first that fails.

use crate::cue::{file_models, track_models};
use crate::cue::{CueIndex, CueTrack, ParsedCue};
use crate::cue::{SheetModel, TrackModel};
use crate::decimal::{decimal, decimal_string, decimal_two, decimal_two_string};
use crate::msf::{msf_text, sectors_to_msf};
use crate::names::{track_bin_name, track_file_name};
use crate::cue::LineModel;
use crate::sheet::{
    lemma_block_size, measured, sheet, sized_files, start_of, track_end, track_length, track_start,
};
use crate::text::{concat2, concat3, concat4};
use vstd::prelude::*;
use vstd::string::StringExecFns;

verus! {

// ---------------------------------------------------------------------------
// The sheet of a split disc
// ---------------------------------------------------------------------------

/// The offset of an index point from the start of its track.
pub open spec fn relative(index: CueIndex, track: TrackModel) -> int {
    if index.sectors >= track_start(track) {
        index.sectors - track_start(track)
    } else {
        0
    }
}

/// The line for the index point at position `i` of a track.
pub open spec fn index_entry(track: TrackModel, i: int) -> Seq<char> {
    "    INDEX "@ + decimal_two(track.indexes[i].id as int) + " "@ + msf_text(
        relative(track.indexes[i], track),
    ) + "\n"@
}

/// The lines for the index points of a track.
pub open spec fn index_entries(track: TrackModel) -> Seq<char> {
    Seq::new(track.indexes.len(), |i: int| index_entry(track, i)).flatten()
}

/// The line that begins the file of a track.
pub open spec fn file_entry(base: Seq<char>, track: TrackModel, total: int) -> Seq<char> {
    "FILE \""@ + track_file_name(base, track.num as int, total) + "\" BINARY\n"@
}

/// The line that begins a track.
pub open spec fn track_entry(track: TrackModel) -> Seq<char> {
    "  TRACK "@ + decimal_two(track.num as int) + " "@ + track.track_type + "\n"@
}

/// The lines for one track of a disc with `total` tracks.
pub open spec fn split_entry(base: Seq<char>, track: TrackModel, total: int) -> Seq<char> {
    file_entry(base, track, total) + track_entry(track) + index_entries(track)
}

/// The sheet of a disc with one file for each track.
pub open spec fn split_cue(base: Seq<char>, tracks: Seq<TrackModel>) -> Seq<char> {
    Seq::new(
        tracks.len(),
        |i: int| split_entry(base, tracks[i], tracks.len() as int),
    ).flatten()
}

/// Writes the lines for the index points of a track.
fn write_index_entries(track: &CueTrack) -> (s: String)
    ensures
        s@ == index_entries(track@),
{
    let start: u64 = start_of(track);
    let ghost all = Seq::new(track@.indexes.len(), |i: int| index_entry(track@, i));
    let mut out = String::new();
    assert(all.take(0).flatten() =~= seq![]);
    for i in 0..track.indexes.len()
        invariant
            start == track_start(track@),
            all == Seq::new(track@.indexes.len(), |i: int| index_entry(track@, i)),
            out@ == all.take(i as int).flatten(),
    {
        let index = track.indexes[i];
        let offset: u64 = index.sectors.saturating_sub(start);
        let mut line = concat4(
            "    INDEX ",
            decimal_two_string(index.id as u64).as_str(),
            " ",
            sectors_to_msf(offset).as_str(),
        );
        line.append("\n");
        assert(line@ =~= all[i as int]);
        proof {
            assert(all.take(i + 1) =~= all.take(i as int).push(all[i as int]));
            all.take(i as int).lemma_flatten_push(all[i as int]);
        }
        out.append(line.as_str());
    }
    assert(all.take(all.len() as int) =~= all);
    out
}

/// Generates the sheet of a split disc: one `FILE` for each track, with index points that count
/// from the start of the track.
pub fn gen_split_cue(base_name: &str, tracks: &[CueTrack]) -> (s: String)
    ensures
        s@ == split_cue(base_name@, track_models(tracks@)),
{
    let ghost models = track_models(tracks@);
    let ghost all = Seq::new(
        models.len(),
        |i: int| split_entry(base_name@, models[i], models.len() as int),
    );
    let total: usize = tracks.len();
    let mut out = String::new();
    assert(all.take(0).flatten() =~= seq![]);
    for i in 0..total
        invariant
            total == tracks@.len(),
            models == track_models(tracks@),
            all == Seq::new(
                models.len(),
                |i: int| split_entry(base_name@, models[i], models.len() as int),
            ),
            out@ == all.take(i as int).flatten(),
    {
        let t = &tracks[i];
        let name = track_bin_name(base_name, t.num, total);
        let file = concat3("FILE \"", name.as_str(), "\" BINARY\n");
        let mut track = concat4(
            "  TRACK ",
            decimal_two_string(t.num as u64).as_str(),
            " ",
            t.track_type.as_str(),
        );
        track.append("\n");
        let entry = concat3(file.as_str(), track.as_str(), write_index_entries(t).as_str());
        assert(models[i as int] == t@);
        assert(entry@ =~= all[i as int]);
        proof {
            assert(all.take(i + 1) =~= all.take(i as int).push(all[i as int]));
            all.take(i as int).lemma_flatten_push(all[i as int]);
        }
        out.append(entry.as_str());
    }
    assert(all.take(all.len() as int) =~= all);
    out
}

// ---------------------------------------------------------------------------
// The steps of a split
// ---------------------------------------------------------------------------

/// A step of a split.
#[derive(Debug, PartialEq, Eq)]
pub enum SplitStep {
    /// Log a message.
    Log(String),
    /// Log the path of the source file, between the two texts.
    LogSource(String, String),
    /// Open the source file.
    OpenSource,
    /// Go to an offset in the source file.
    Seek(u64),
    /// Create the file of that name, to write to.
    Create(String),
    /// Copy bytes of the track with that number from the source file to the created file.
    Copy(u32, u64),
    /// Add the path of the file of that name to the result.
    Report(String),
    /// Write the sheet: its file name and its text.
    WriteSheet(String, String),
    /// Log the path of the sheet, after the text.
    LogSheet(String),
    /// Give up with a message.
    Fail(String),
}

/// The mathematical content of a `SplitStep`.
pub enum SplitStepModel {
    Log(Seq<char>),
    LogSource(Seq<char>, Seq<char>),
    OpenSource,
    Seek(u64),
    Create(Seq<char>),
    Copy(u32, u64),
    Report(Seq<char>),
    WriteSheet(Seq<char>, Seq<char>),
    LogSheet(Seq<char>),
    Fail(Seq<char>),
}

impl View for SplitStep {
    type V = SplitStepModel;

    open spec fn view(&self) -> SplitStepModel {
        match self {
            SplitStep::Log(msg) => SplitStepModel::Log(msg@),
            SplitStep::LogSource(before, after) => SplitStepModel::LogSource(before@, after@),
            SplitStep::OpenSource => SplitStepModel::OpenSource,
            SplitStep::Seek(offset) => SplitStepModel::Seek(*offset),
            SplitStep::Create(name) => SplitStepModel::Create(name@),
            SplitStep::Copy(num, bytes) => SplitStepModel::Copy(*num, *bytes),
            SplitStep::Report(name) => SplitStepModel::Report(name@),
            SplitStep::WriteSheet(name, text) => SplitStepModel::WriteSheet(name@, text@),
            SplitStep::LogSheet(before) => SplitStepModel::LogSheet(before@),
            SplitStep::Fail(msg) => SplitStepModel::Fail(msg@),
        }
    }
}

/// The contents of the steps of a list.
pub open spec fn split_step_models(steps: Seq<SplitStep>) -> Seq<SplitStepModel> {
    steps.map_values(|s: SplitStep| s@)
}

/// The byte at which a track starts in the source file.
pub open spec fn byte_offset(track: TrackModel, blocksize: u64) -> int {
    track_start(track) * blocksize
}

/// The bytes of a track whose length is known.
pub open spec fn byte_length(track: TrackModel, blocksize: u64) -> int {
    track.sectors->0 * blocksize
}

/// The steps for the tracks of a disc from position `i` on, and for the sheet at the end. A track
/// without a length ends them.
pub open spec fn track_steps(
    base: Seq<char>,
    tracks: Seq<TrackModel>,
    blocksize: u64,
    i: int,
) -> Seq<SplitStepModel>
    decreases tracks.len() - i,
{
    if 0 <= i < tracks.len() {
        let track = tracks[i];
        let name = track_file_name(base, track.num as int, tracks.len() as int);
        let log = seq![SplitStepModel::Log("  writing "@ + name)];
        if track.sectors is Some {
            log + seq![
                SplitStepModel::Seek(byte_offset(track, blocksize) as u64),
                SplitStepModel::Create(name),
                SplitStepModel::Copy(track.num, byte_length(track, blocksize) as u64),
                SplitStepModel::Report(name),
            ] + track_steps(base, tracks, blocksize, i + 1)
        } else {
            log + seq![
                SplitStepModel::Fail(
                    "Track "@ + decimal(track.num as int) + " has no computed sector length"@,
                ),
            ]
        }
    } else {
        seq![
            SplitStepModel::WriteSheet(base + ".cue"@, split_cue(base, tracks)),
            SplitStepModel::LogSheet("Split CUE   : "@),
        ]
    }
}

/// The steps of the split of a sheet, or why it cannot be split.
pub open spec fn split_steps(sheet: SheetModel, base: Seq<char>) -> Result<
    Seq<SplitStepModel>,
    Seq<char>,
> {
    if sheet.files.len() == 0 {
        Err("No FILE entries found in CUE"@)
    } else if sheet.files.len() > 1 {
        Err("CUE references multiple bin files — Split only works on a single-bin disc."@)
    } else if sheet.files[0].tracks.len() <= 1 {
        Err("Only one track in CUE — nothing to split"@)
    } else {
        let tracks = sheet.files[0].tracks;
        Ok(
            seq![
                SplitStepModel::LogSource(
                    "Splitting "@ + decimal(tracks.len() as int) + " tracks from "@,
                    "…"@,
                ),
                SplitStepModel::OpenSource,
            ] + track_steps(base, tracks, sheet.blocksize, 0),
        )
    }
}

/// The offset and the length of a track can be counted in 64 bits.
pub open spec fn track_fits(track: TrackModel, blocksize: u64) -> bool {
    track.sectors is Some ==> byte_offset(track, blocksize) <= u64::MAX && byte_length(
        track,
        blocksize,
    ) <= u64::MAX
}

/// So can those of every track that a split comes to.
pub open spec fn tracks_fit(tracks: Seq<TrackModel>, blocksize: u64) -> bool {
    forall|i: int|
        0 <= i < tracks.len() && (forall|j: int| 0 <= j < i ==> (#[trigger] tracks[j]).sectors
            is Some) ==> track_fits(#[trigger] tracks[i], blocksize)
}

/// The bytes that a split of the sheet moves about can be counted in 64 bits.
pub open spec fn split_fits(sheet: SheetModel) -> bool {
    sheet.files.len() == 1 && sheet.files[0].tracks.len() > 1 ==> tracks_fit(
        sheet.files[0].tracks,
        sheet.blocksize,
    )
}

/// Tells whether the bytes that a split of the sheet moves about can be counted.
pub fn split_in_range(parsed: &ParsedCue) -> (b: bool)
    ensures
        b == split_fits(parsed@),
{
    if parsed.files.len() != 1 || parsed.files[0].tracks.len() <= 1 {
        assert(parsed.files@.len() == 1 ==> file_models(parsed.files@)[0] == parsed.files@[0]@);
        return true;
    }
    let tracks = &parsed.files[0].tracks;
    let ghost models = track_models(tracks@);
    assert(parsed@.files[0] == parsed.files@[0]@);
    for i in 0..tracks.len()
        invariant
            models == track_models(tracks@),
            parsed@.files.len() == 1,
            parsed@.files[0].tracks == models,
            models.len() > 1,
            forall|j: int| 0 <= j < i ==> (#[trigger] models[j]).sectors is Some,
            forall|j: int| 0 <= j < i ==> track_fits(#[trigger] models[j], parsed.blocksize),
    {
        let t = &tracks[i];
        assert(models[i as int] == t@);
        match t.sectors {
            Some(sectors) => {
                let start: u64 = start_of(t);
                if start.checked_mul(parsed.blocksize).is_none() || sectors.checked_mul(
                    parsed.blocksize,
                ).is_none() {
                    assert(!track_fits(models[i as int], parsed.blocksize));
                    return false;
                }
            },
            None => {
                assert(tracks_fit(models, parsed.blocksize)) by {
                    assert forall|k: int|
                        0 <= k < models.len() && (forall|j: int|
                            0 <= j < k ==> (#[trigger] models[j]).sectors
                                is Some) implies track_fits(
                        #[trigger] models[k],
                        parsed.blocksize,
                    ) by {
                        if k > i {
                            assert(models[i as int].sectors is Some);
                        }
                    }
                }
                return true;
            },
        }
    }
    true
}

/// Plans the split of a disc. `parsed` is what reading its sheet gave.
pub fn split_blocking(parsed: &Result<ParsedCue, String>, base_name: &str) -> (r: Result<
    Vec<SplitStep>,
    String,
>)
    requires
        parsed matches Ok(p) ==> split_fits(p@),
    ensures
        match parsed {
            Ok(p) => match (r, split_steps(p@, base_name@)) {
                (Ok(steps), Ok(expected)) => split_step_models(steps@) == expected,
                (Err(msg), Err(expected)) => msg@ == expected,
                _ => false,
            },
            Err(e) => r matches Err(msg) && msg@ == e@,
        },
{
    let sheet = match parsed {
        Ok(p) => p,
        Err(e) => {
            return Err(e.clone());
        },
    };
    if sheet.files.len() == 0 {
        return Err("No FILE entries found in CUE".to_owned());
    }
    if sheet.files.len() > 1 {
        return Err(
            "CUE references multiple bin files — Split only works on a single-bin disc.".to_owned(),
        );
    }
    assert(sheet@.files[0] == sheet.files@[0]@);
    let tracks = &sheet.files[0].tracks;
    let total: usize = tracks.len();
    if total <= 1 {
        return Err("Only one track in CUE — nothing to split".to_owned());
    }
    let ghost models = track_models(tracks@);
    let ghost blocksize = sheet.blocksize;
    let ghost plan = split_steps(sheet@, base_name@)->Ok_0;
    let mut steps: Vec<SplitStep> = Vec::new();
    steps.push(
        SplitStep::LogSource(
            concat3("Splitting ", decimal_string(total as u64).as_str(), " tracks from "),
            "…".to_owned(),
        ),
    );
    steps.push(SplitStep::OpenSource);
    assert(split_step_models(steps@) + track_steps(base_name@, models, blocksize, 0) =~= plan);
    for i in 0..total
        invariant
            parsed is Ok && parsed->Ok_0 == *sheet,
            total == tracks@.len(),
            models == track_models(tracks@),
            blocksize == sheet.blocksize,
            tracks_fit(models, blocksize),
            split_steps(sheet@, base_name@) == Ok::<Seq<SplitStepModel>, Seq<char>>(plan),
            forall|j: int| 0 <= j < i ==> (#[trigger] models[j]).sectors is Some,
            split_step_models(steps@) + track_steps(base_name@, models, blocksize, i as int)
                == plan,
    {
        let t = &tracks[i];
        let ghost before = split_step_models(steps@);
        assert(models[i as int] == t@);
        assert(track_fits(models[i as int], blocksize));
        let name = track_bin_name(base_name, t.num, total);
        let log = SplitStep::Log(concat2("  writing ", name.as_str()));
        match t.sectors {
            Some(sectors) => {
                let bytes: u64 = sectors * sheet.blocksize;
                let offset: u64 = start_of(t) * sheet.blocksize;
                steps.push(log);
                steps.push(SplitStep::Seek(offset));
                steps.push(SplitStep::Create(name.clone()));
                steps.push(SplitStep::Copy(t.num, bytes));
                steps.push(SplitStep::Report(name));
                assert(split_step_models(steps@) + track_steps(base_name@, models, blocksize, i + 1)
                    =~= before + track_steps(base_name@, models, blocksize, i as int));
            },
            None => {
                steps.push(log);
                steps.push(
                    SplitStep::Fail(
                        concat3(
                            "Track ",
                            decimal_string(t.num as u64).as_str(),
                            " has no computed sector length",
                        ),
                    ),
                );
                assert(split_step_models(steps@) =~= before + track_steps(
                    base_name@,
                    models,
                    blocksize,
                    i as int,
                ));
                return Ok(steps);
            },
        }
    }
    let ghost before = split_step_models(steps@);
    steps.push(
        SplitStep::WriteSheet(
            concat2(base_name, ".cue"),
            gen_split_cue(base_name, tracks.as_slice()),
        ),
    );
    steps.push(SplitStep::LogSheet("Split CUE   : ".to_owned()));
    assert(split_step_models(steps@) =~= before + track_steps(
        base_name@,
        models,
        blocksize,
        total as int,
    ));
    Ok(steps)
}

// ---------------------------------------------------------------------------
// Carrying the steps out
// ---------------------------------------------------------------------------

/// The most bytes that are read at once.
pub const CHUNK: usize = 1048576;

/// The error of a split whose step failed for the reason `e`. A step that only logs or reports
/// cannot fail; the reason stands for itself there.
pub fn split_failure(step: &SplitStep, e: &str) -> (msg: String)
    ensures
        msg@ == (match step@ {
            SplitStepModel::OpenSource => "Cannot open source bin: "@ + e@,
            SplitStepModel::Seek(_) => "Seek error: "@ + e@,
            SplitStepModel::Create(name) => "Cannot create "@ + name + ": "@ + e@,
            SplitStepModel::WriteSheet(_, _) => "Cannot write split CUE: "@ + e@,
            SplitStepModel::Copy(num, _) => "Read error on track "@ + decimal(num as int) + ": "@
                + e@,
            _ => e@,
        }),
{
    match step {
        SplitStep::OpenSource => concat2("Cannot open source bin: ", e),
        SplitStep::Seek(_) => concat2("Seek error: ", e),
        SplitStep::Create(name) => concat4("Cannot create ", name.as_str(), ": ", e),
        SplitStep::WriteSheet(_, _) => concat2("Cannot write split CUE: ", e),
        SplitStep::Copy(num, _) => concat4(
            "Read error on track ",
            decimal_string(*num as u64).as_str(),
            ": ",
            e,
        ),
        _ => e.to_owned(),
    }
}

/// The error of a split where writing a track failed for the reason `e`.
pub fn split_write_failure(num: u32, e: &str) -> (msg: String)
    ensures
        msg@ == "Write error on track "@ + decimal(num as int) + ": "@ + e@,
{
    concat4("Write error on track ", decimal_string(num as u64).as_str(), ": ", e)
}

/// How many bytes to read next when `remaining` bytes of a track are left.
pub fn next_read(remaining: u64) -> (n: usize)
    ensures
        n == (if remaining as usize <= CHUNK {
            remaining as usize
        } else {
            CHUNK
        }),
        n <= remaining,
        n <= CHUNK,
{
    let all: usize = remaining as usize;
    assert(all <= remaining) by (bit_vector)
        requires
            all == remaining as usize,
    ;
    if all <= CHUNK {
        all
    } else {
        CHUNK
    }
}

/// How many bytes of track `num` are left when a read gave `n` of the `remaining` bytes. A read
/// that gives nothing means that the source file is too short.
pub fn after_read(num: u32, remaining: u64, n: usize) -> (r: Result<u64, String>)
    requires
        n <= remaining,
    ensures
        match r {
            Ok(left) => n > 0 && left == remaining - n,
            Err(msg) => n == 0 && msg@ == "Unexpected EOF at track "@ + decimal(num as int)
                + " — bin file may be truncated"@,
        },
{
    if n == 0 {
        Err(
            concat3(
                "Unexpected EOF at track ",
                decimal_string(num as u64).as_str(),
                " — bin file may be truncated",
            ),
        )
    } else {
        Ok(remaining - n as u64)
    }
}

// ---------------------------------------------------------------------------
// Laws
// ---------------------------------------------------------------------------

/// The tracks start one after the other, and none after the end of the file.
pub open spec fn in_order(tracks: Seq<TrackModel>, total: u64) -> bool {
    &&& forall|i: int, j: int|
        0 <= i <= j < tracks.len() ==> track_start(#[trigger] tracks[i]) <= track_start(
            #[trigger] tracks[j],
        )
    &&& forall|i: int| 0 <= i < tracks.len() ==> track_start(#[trigger] tracks[i]) <= total
}

/// The tracks of a file, taken in order, lie next to each other without a gap: each ends at the
/// byte at which the next starts, and the last at the end of the last whole sector.
pub proof fn law_split_leaves_no_gap(tracks: Seq<TrackModel>, total: u64, blocksize: u64)
    requires
        in_order(tracks, total),
    ensures
        forall|i: int|
            0 <= i < tracks.len() - 1 ==> byte_offset(
                #[trigger] measured(tracks, total)[i],
                blocksize,
            ) + byte_length(measured(tracks, total)[i], blocksize) == byte_offset(
                measured(tracks, total)[i + 1],
                blocksize,
            ),
        tracks.len() > 0 ==> byte_offset(measured(tracks, total).last(), blocksize) + byte_length(
            measured(tracks, total).last(),
            blocksize,
        ) == total * blocksize,
{
    let m = measured(tracks, total);
    assert forall|i: int| 0 <= i < tracks.len() implies byte_offset(#[trigger] m[i], blocksize)
        + byte_length(m[i], blocksize) == track_end(tracks, total, i) * blocksize by {
        let start = track_start(tracks[i]);
        let end = track_end(tracks, total, i);
        if i + 1 < tracks.len() {
            assert(track_start(tracks[i]) <= track_start(tracks[i + 1]));
        }
        assert(start <= end);
        assert(m[i].sectors == Some((end - start) as u64));
        assert(start * blocksize + (end - start) * blocksize == end * blocksize)
            by (nonlinear_arith);
    }
    assert forall|i: int| 0 <= i < tracks.len() - 1 implies byte_offset(
        #[trigger] m[i],
        blocksize,
    ) + byte_length(m[i], blocksize) == byte_offset(m[i + 1], blocksize) by {
        assert(track_start(m[i + 1]) == track_start(tracks[i + 1]));
    }
    if tracks.len() > 0 {
        assert(m.last() == m[tracks.len() - 1]);
    }
}

/// The sectors of the tracks up to position `n`.
pub open spec fn sectors_before(tracks: Seq<TrackModel>, n: int) -> int
    decreases n,
{
    if n <= 0 {
        0
    } else {
        sectors_before(tracks, n - 1) + tracks[n - 1].sectors->0
    }
}

/// The lengths of tracks in order add up to all that follows the start of the first.
pub proof fn law_lengths_add_up(tracks: Seq<TrackModel>, total: u64)
    requires
        in_order(tracks, total),
        tracks.len() > 0,
    ensures
        sectors_before(measured(tracks, total), tracks.len() as int) == total - track_start(
            tracks[0],
        ),
{
    lemma_lengths_up_to(tracks, total, tracks.len() as int);
}

proof fn lemma_lengths_up_to(tracks: Seq<TrackModel>, total: u64, n: int)
    requires
        in_order(tracks, total),
        0 < n <= tracks.len(),
    ensures
        sectors_before(measured(tracks, total), n) == track_end(tracks, total, n - 1)
            - track_start(tracks[0]),
    decreases n,
{
    let m = measured(tracks, total);
    assert(m[n - 1].sectors == Some(track_length(tracks, total, n - 1)));
    if n < tracks.len() {
        assert(track_start(tracks[n - 1]) <= track_start(tracks[n]));
    } else {
        assert(track_start(tracks[n - 1]) <= total);
    }
    if n > 1 {
        lemma_lengths_up_to(tracks, total, n - 1);
        assert(track_end(tracks, total, n - 2) == track_start(tracks[n - 1]));
    } else {
        assert(sectors_before(m, 0) == 0);
    }
}

/// The pieces of the source file that steps copy, one for each copy, where reading goes on at byte
/// `pos`.
pub open spec fn copied(steps: Seq<SplitStepModel>, source: Seq<u8>, pos: int) -> Seq<Seq<u8>>
    decreases steps.len(),
{
    if steps.len() == 0 {
        seq![]
    } else {
        match steps[0] {
            SplitStepModel::Seek(offset) => copied(steps.skip(1), source, offset as int),
            SplitStepModel::Copy(_, bytes) => seq![source.subrange(pos, pos + bytes)] + copied(
                steps.skip(1),
                source,
                pos + bytes,
            ),
            _ => copied(steps.skip(1), source, pos),
        }
    }
}

/// The bytes of a track whose length is known.
pub open spec fn track_bytes(source: Seq<u8>, track: TrackModel, blocksize: u64) -> Seq<u8> {
    source.subrange(
        byte_offset(track, blocksize),
        byte_offset(track, blocksize) + byte_length(track, blocksize),
    )
}

proof fn lemma_copied_tracks(
    base: Seq<char>,
    tracks: Seq<TrackModel>,
    blocksize: u64,
    source: Seq<u8>,
    pos: int,
    i: int,
)
    requires
        0 <= i <= tracks.len(),
        forall|k: int| 0 <= k < tracks.len() ==> (#[trigger] tracks[k]).sectors is Some,
        forall|k: int| 0 <= k < tracks.len() ==> track_fits(#[trigger] tracks[k], blocksize),
    ensures
        copied(track_steps(base, tracks, blocksize, i), source, pos) == tracks.skip(i).map_values(
            |t: TrackModel| track_bytes(source, t, blocksize),
        ),
    decreases tracks.len() - i,
{
    let steps = track_steps(base, tracks, blocksize, i);
    let piece = |t: TrackModel| track_bytes(source, t, blocksize);
    reveal_with_fuel(copied, 6);
    if i < tracks.len() {
        let track = tracks[i];
        let rest = track_steps(base, tracks, blocksize, i + 1);
        let offset = byte_offset(track, blocksize);
        let length = byte_length(track, blocksize);
        assert(track.sectors is Some && track_fits(track, blocksize));
        assert(0 <= offset && 0 <= length) by (nonlinear_arith)
            requires
                offset == track_start(track) * blocksize,
                length == track.sectors->0 * blocksize,
        ;
        assert(steps.skip(1).skip(1).skip(1).skip(1).skip(1) =~= rest);
        lemma_copied_tracks(base, tracks, blocksize, source, offset + length, i + 1);
        assert(copied(steps, source, pos) == copied(steps.skip(1), source, pos));
        let second = steps.skip(1);
        assert(second[0] == SplitStepModel::Seek(offset as u64));
        assert(copied(second, source, pos) == copied(second.skip(1), source, offset));
        let third = second.skip(1);
        assert(copied(third, source, offset) == copied(third.skip(1), source, offset));
        let fourth = third.skip(1);
        assert(fourth[0] == SplitStepModel::Copy(track.num, length as u64));
        assert(copied(fourth, source, offset) == seq![piece(track)] + copied(
            fourth.skip(1),
            source,
            offset + length,
        ));
        let fifth = fourth.skip(1);
        assert(copied(fifth, source, offset + length) == copied(rest, source, offset + length));
        assert(tracks.skip(i).map_values(piece) =~= seq![piece(track)] + tracks.skip(i + 1).map_values(
            piece,
        ));
    } else {
        assert(steps.skip(1).skip(1) =~= seq![]);
        assert(copied(steps, source, pos) =~= seq![]);
        assert(tracks.skip(i).map_values(piece) =~= seq![]);
    }
}

/// Pieces that lie next to each other make up the whole.
proof fn lemma_pieces_join(
    tracks: Seq<TrackModel>,
    blocksize: u64,
    source: Seq<u8>,
    end: int,
)
    requires
        tracks.len() > 0,
        end <= source.len(),
        forall|i: int|
            0 <= i < tracks.len() ==> 0 <= byte_offset(#[trigger] tracks[i], blocksize) && 0
                <= byte_length(tracks[i], blocksize),
        forall|i: int|
            0 <= i < tracks.len() - 1 ==> byte_offset(#[trigger] tracks[i], blocksize)
                + byte_length(tracks[i], blocksize) == byte_offset(tracks[i + 1], blocksize),
        byte_offset(tracks.last(), blocksize) + byte_length(tracks.last(), blocksize) == end,
    ensures
        byte_offset(tracks[0], blocksize) <= end,
        tracks.map_values(|t: TrackModel| track_bytes(source, t, blocksize)).flatten()
            == source.subrange(byte_offset(tracks[0], blocksize), end),
    decreases tracks.len(),
{
    let piece = |t: TrackModel| track_bytes(source, t, blocksize);
    let all = tracks.map_values(piece);
    let offset = byte_offset(tracks[0], blocksize);
    let next = offset + byte_length(tracks[0], blocksize);
    if tracks.len() == 1 {
        assert(all =~= seq![piece(tracks[0])]);
        all.lemma_flatten_one_element();
    } else {
        let rest = tracks.drop_first();
        assert(rest.last() == tracks.last());
        assert(rest[0] == tracks[1]);
        assert forall|i: int| 0 <= i < rest.len() implies 0 <= byte_offset(
            #[trigger] rest[i],
            blocksize,
        ) && 0 <= byte_length(rest[i], blocksize) by {
            assert(rest[i] == tracks[i + 1]);
        }
        assert forall|i: int| 0 <= i < rest.len() - 1 implies byte_offset(
            #[trigger] rest[i],
            blocksize,
        ) + byte_length(rest[i], blocksize) == byte_offset(rest[i + 1], blocksize) by {
            assert(rest[i] == tracks[i + 1]);
            assert(rest[i + 1] == tracks[i + 2]);
        }
        lemma_pieces_join(rest, blocksize, source, end);
        assert(next == byte_offset(tracks[1], blocksize));
        assert(all.drop_first() =~= rest.map_values(piece));
        assert(source.subrange(offset, next) + source.subrange(next, end) =~= source.subrange(
            offset,
            end,
        ));
    }
}

/// A split of a disc that was read from its sheet, with tracks in order, copies the bytes of each
/// track from within the source file, and the copies one after the other are the source file from
/// the start of the first track to the end of the last whole sector.
pub proof fn law_split_keeps_every_byte(
    items: Seq<LineModel>,
    sizes: Seq<Option<u64>>,
    base: Seq<char>,
    source: Seq<u8>,
)
    requires
        split_steps(sheet(items, sizes), base) is Ok,
        source.len() == sheet(items, sizes).files[0].size_bytes,
        in_order(
            sheet(items, sizes).files[0].tracks,
            sheet(items, sizes).files[0].size_bytes / sheet(items, sizes).blocksize,
        ),
    ensures
        split_fits(sheet(items, sizes)),
        ({
            let disc = sheet(items, sizes);
            let tracks = disc.files[0].tracks;
            let pieces = copied(split_steps(disc, base)->Ok_0, source, 0);
            &&& pieces == tracks.map_values(
                |t: TrackModel| track_bytes(source, t, disc.blocksize),
            )
            &&& forall|i: int|
                0 <= i < tracks.len() ==> byte_offset(#[trigger] tracks[i], disc.blocksize)
                    + byte_length(tracks[i], disc.blocksize) <= source.len()
            &&& pieces.flatten() == source.subrange(
                byte_offset(tracks[0], disc.blocksize),
                source.len() as int / disc.blocksize as int * disc.blocksize,
            )
        }),
{
    let disc = sheet(items, sizes);
    let blocksize = disc.blocksize;
    let tracks = disc.files[0].tracks;
    let size = disc.files[0].size_bytes;
    let total = size / blocksize;
    let read = sized_files(items, sizes)[0].tracks;
    lemma_block_size(items);
    assert(tracks == measured(read, total));
    assert forall|i: int| 0 <= i < read.len() implies track_start(#[trigger] read[i])
        == track_start(tracks[i]) by {}
    assert(in_order(read, total)) by {
        assert forall|i: int, j: int| 0 <= i <= j < read.len() implies track_start(
            #[trigger] read[i],
        ) <= track_start(#[trigger] read[j]) by {
            assert(track_start(tracks[i]) <= track_start(tracks[j]));
        }
        assert forall|i: int| 0 <= i < read.len() implies track_start(#[trigger] read[i])
            <= total by {
            assert(track_start(tracks[i]) <= total);
        }
    }
    law_split_leaves_no_gap(read, total, blocksize);
    let end = total * blocksize;
    assert(end <= size && 0 <= end) by (nonlinear_arith)
        requires
            end == total * blocksize,
            total == size / blocksize,
            blocksize > 0,
    ;
    assert forall|i: int| 0 <= i < tracks.len() implies 0 <= byte_offset(
        #[trigger] tracks[i],
        blocksize,
    ) && 0 <= byte_length(tracks[i], blocksize) && byte_offset(tracks[i], blocksize)
        + byte_length(tracks[i], blocksize) <= end && tracks[i].sectors is Some && track_fits(
        tracks[i],
        blocksize,
    ) by {
        let start = track_start(tracks[i]);
        let length = tracks[i].sectors->0;
        assert(start == track_start(read[i]));
        assert(length == track_length(read, total, i));
        assert(track_start(read[i]) <= total);
        if i + 1 < read.len() {
            assert(track_start(read[i + 1]) <= total);
        }
        assert(start + length <= total);
        assert(0 <= start * blocksize && 0 <= length * blocksize && start * blocksize + length
            * blocksize <= total * blocksize) by (nonlinear_arith)
            requires
                start + length <= total,
        ;
    }
    assert(tracks.last() == tracks[tracks.len() - 1]);
    assert(tracks_fit(tracks, blocksize));
    let steps = split_steps(disc, base)->Ok_0;
    let rest = track_steps(base, tracks, blocksize, 0);
    assert(steps.skip(1).skip(1) =~= rest);
    reveal_with_fuel(copied, 3);
    assert(copied(steps, source, 0) == copied(steps.skip(1), source, 0));
    assert(copied(steps.skip(1), source, 0) == copied(rest, source, 0));
    lemma_copied_tracks(base, tracks, blocksize, source, 0, 0);
    assert(tracks.skip(0) =~= tracks);
    lemma_pieces_join(tracks, blocksize, source, end);
    assert(total as int == size as int / blocksize as int);
}

/// In the sheet of a split disc every track starts at 0.
pub proof fn law_first_index_is_zero(track: TrackModel)
    requires
        track.indexes.len() > 0,
    ensures
        relative(track.indexes[0], track) == 0,
        msf_text(relative(track.indexes[0], track)) == "00:00:00"@,
{
    reveal_strlit("00:00:00");
    assert(msf_text(0) =~= "00:00:00"@);
}

/// In the sheet of a split disc the index points of a track lie as far apart as before.
pub proof fn law_index_distances_stay(track: TrackModel, i: int, j: int)
    requires
        0 <= i < track.indexes.len(),
        0 <= j < track.indexes.len(),
        track_start(track) <= track.indexes[i].sectors <= track.indexes[j].sectors,
    ensures
        relative(track.indexes[j], track) - relative(track.indexes[i], track)
            == track.indexes[j].sectors - track.indexes[i].sectors,
{
}

/// The split of a sheet that was read from its lines never gives up for want of a length.
pub proof fn law_read_sheet_has_lengths(
    items: Seq<LineModel>,
    sizes: Seq<Option<u64>>,
    base: Seq<char>,
)
    ensures
        split_steps(sheet(items, sizes), base) matches Ok(steps) ==> forall|k: int|
            0 <= k < steps.len() ==> !((#[trigger] steps[k]) is Fail),
{
    let s = sheet(items, sizes);
    if split_steps(s, base) is Ok {
        let tracks = s.files[0].tracks;
        assert forall|i: int| 0 <= i < tracks.len() implies (#[trigger] tracks[i]).sectors
            is Some by {}
        lemma_no_fail(base, tracks, s.blocksize, 0);
        let head = seq![
            SplitStepModel::LogSource(
                "Splitting "@ + decimal(tracks.len() as int) + " tracks from "@,
                "…"@,
            ),
            SplitStepModel::OpenSource,
        ];
        let rest = track_steps(base, tracks, s.blocksize, 0);
        let steps = head + rest;
        assert forall|k: int| 0 <= k < steps.len() implies !((#[trigger] steps[k]) is Fail) by {
            if k >= 2 {
                assert(steps[k] == rest[k - 2]);
            }
        }
    }
}

proof fn lemma_no_fail(base: Seq<char>, tracks: Seq<TrackModel>, blocksize: u64, i: int)
    requires
        0 <= i <= tracks.len(),
        forall|k: int| 0 <= k < tracks.len() ==> (#[trigger] tracks[k]).sectors is Some,
    ensures
        forall|k: int|
            0 <= k < track_steps(base, tracks, blocksize, i).len() ==> !((#[trigger] track_steps(
                base,
                tracks,
                blocksize,
                i,
            )[k]) is Fail),
    decreases tracks.len() - i,
{
    let steps = track_steps(base, tracks, blocksize, i);
    if i < tracks.len() {
        lemma_no_fail(base, tracks, blocksize, i + 1);
        let rest = track_steps(base, tracks, blocksize, i + 1);
        assert(tracks[i].sectors is Some);
        assert forall|k: int| 0 <= k < steps.len() implies !((#[trigger] steps[k]) is Fail) by {
            if k >= 5 {
                assert(steps[k] == rest[k - 5]);
            }
        }
    }
}

} // verus!
