//! Reading a whole CUE sheet.

use crate::casing::{to_uppercase, upper_text};
use crate::cue::{
    extract_quoted, file_line, file_models, line_fits, line_in_range, line_model, line_models,
    read_line, track_models,
};
use crate::cue::{CueFile, CueIndex, CueLine, CueTrack, ParsedCue};
use crate::cue::{FileModel, LineModel, SheetModel, TrackModel};
use crate::msf::{block_size, blocksize_for_type};
use crate::text::{chars_of, concat2, lines, lines_of, string_of, texts, trim, trim_of};
use vstd::prelude::*;

verus! {

// ---------------------------------------------------------------------------
// What a sheet says
// ---------------------------------------------------------------------------

/// The index points that belong to a track that has begun: those before the next track or file.
pub open spec fn indexes_of(items: Seq<LineModel>) -> Seq<CueIndex>
    decreases items.len(),
{
    if items.len() == 0 {
        seq![]
    } else {
        match items[0] {
            LineModel::Index(index) => seq![index] + indexes_of(items.skip(1)),
            LineModel::Other => indexes_of(items.skip(1)),
            _ => seq![],
        }
    }
}

/// The tracks that belong to a file that has begun: those before the next file.
pub open spec fn tracks_of(items: Seq<LineModel>) -> Seq<TrackModel>
    decreases items.len(),
{
    if items.len() == 0 {
        seq![]
    } else {
        match items[0] {
            LineModel::File(_) => seq![],
            LineModel::Track(num, track_type) => seq![
                TrackModel { num, track_type, indexes: indexes_of(items.skip(1)), sectors: None },
            ] + tracks_of(items.skip(1)),
            _ => tracks_of(items.skip(1)),
        }
    }
}

/// The named files with their tracks.
pub open spec fn files_of(items: Seq<LineModel>) -> Seq<(Seq<char>, Seq<TrackModel>)>
    decreases items.len(),
{
    if items.len() == 0 {
        seq![]
    } else {
        match items[0] {
            LineModel::File(Some(name)) => seq![(name, tracks_of(items.skip(1)))] + files_of(
                items.skip(1),
            ),
            _ => files_of(items.skip(1)),
        }
    }
}

/// The sector size of a sheet: that of its first track, or of an audio track where there is none.
pub open spec fn sheet_block_size(items: Seq<LineModel>) -> u64
    decreases items.len(),
{
    if items.len() == 0 {
        2352
    } else {
        match items[0] {
            LineModel::Track(_, track_type) => block_size(track_type),
            _ => sheet_block_size(items.skip(1)),
        }
    }
}

/// The size of the file at position `k`. A size that is not known counts as 0.
pub open spec fn size_of_file(sizes: Seq<Option<u64>>, k: int) -> u64 {
    if 0 <= k < sizes.len() {
        match sizes[k] {
            Some(size) => size,
            None => 0,
        }
    } else {
        0
    }
}

/// Where a track starts: at its first index point, or at 0 where it has none.
pub open spec fn track_start(track: TrackModel) -> u64 {
    if track.indexes.len() > 0 {
        track.indexes[0].sectors
    } else {
        0
    }
}

/// Where the track at position `i` ends: at the start of the next one, or at the end of the file.
pub open spec fn track_end(tracks: Seq<TrackModel>, total: u64, i: int) -> u64 {
    if i + 1 < tracks.len() {
        track_start(tracks[i + 1])
    } else {
        total
    }
}

/// The length of the track at position `i`, which is 0 where the track ends before it starts.
pub open spec fn track_length(tracks: Seq<TrackModel>, total: u64, i: int) -> u64 {
    if track_end(tracks, total, i) >= track_start(tracks[i]) {
        (track_end(tracks, total, i) - track_start(tracks[i])) as u64
    } else {
        0
    }
}

/// The tracks of a file of `total` sectors, each with its length.
pub open spec fn measured(tracks: Seq<TrackModel>, total: u64) -> Seq<TrackModel> {
    Seq::new(
        tracks.len(),
        |i: int|
            TrackModel { sectors: Some(track_length(tracks, total, i)), ..tracks[i] },
    )
}

/// The files of a sheet with their sizes; their tracks have no length yet.
pub open spec fn sized_files(items: Seq<LineModel>, sizes: Seq<Option<u64>>) -> Seq<FileModel> {
    Seq::new(
        files_of(items).len(),
        |k: int|
            FileModel {
                name: files_of(items)[k].0,
                size_bytes: size_of_file(sizes, k),
                tracks: files_of(items)[k].1,
            },
    )
}

/// What the lines of a sheet say, where the files have the given sizes. The tracks have a length
/// where there is a single file.
pub open spec fn sheet(items: Seq<LineModel>, sizes: Seq<Option<u64>>) -> SheetModel {
    let blocksize = sheet_block_size(items);
    let files = sized_files(items, sizes);
    SheetModel {
        files: if files.len() == 1 {
            seq![
                FileModel {
                    tracks: measured(files[0].tracks, files[0].size_bytes / blocksize),
                    ..files[0]
                },
            ]
        } else {
            files
        },
        blocksize,
    }
}

/// What a line says, with the white space around it set aside.
pub open spec fn said(line: Seq<char>) -> LineModel {
    line_model(trim(line), upper_text(trim(line)))
}

/// What the lines of a text say.
pub open spec fn sheet_lines(text: Seq<char>) -> Seq<LineModel> {
    lines(text).map_values(|l: Seq<char>| said(l))
}

/// No line of the text gives a position that is too far to count.
pub open spec fn sheet_fits(text: Seq<char>) -> bool {
    forall|k: int|
        0 <= k < lines(text).len() ==> line_fits(upper_text(trim(#[trigger] lines(text)[k])))
}

// ---------------------------------------------------------------------------
// Reading the lines
// ---------------------------------------------------------------------------

/// What the files will be when the lines `rest` have been read after a state of reading: `done`
/// files are complete, `file` and `track` have begun.
spec fn outcome(
    done: Seq<(Seq<char>, Seq<TrackModel>)>,
    file: Option<(Seq<char>, Seq<TrackModel>)>,
    track: Option<TrackModel>,
    rest: Seq<LineModel>,
) -> Seq<(Seq<char>, Seq<TrackModel>)> {
    let begun = match track {
        Some(t) => seq![TrackModel { indexes: t.indexes + indexes_of(rest), ..t }],
        None => seq![],
    };
    let current = match file {
        Some((name, tracks)) => seq![(name, tracks + begun + tracks_of(rest))],
        None => seq![],
    };
    done + current + files_of(rest)
}

/// The tracks of a file together with the one that has begun, if one has.
spec fn with_track(tracks: Seq<TrackModel>, track: Option<TrackModel>) -> Seq<TrackModel> {
    match track {
        Some(t) => tracks.push(t),
        None => tracks,
    }
}

/// The file that has begun, complete.
spec fn closed(
    file: Option<(Seq<char>, Seq<TrackModel>)>,
    track: Option<TrackModel>,
) -> Seq<(Seq<char>, Seq<TrackModel>)> {
    match file {
        Some((name, tracks)) => seq![(name, with_track(tracks, track))],
        None => seq![],
    }
}

/// Where a file begins, or nothing follows, the one before is complete.
proof fn lemma_outcome_closed(
    done: Seq<(Seq<char>, Seq<TrackModel>)>,
    file: Option<(Seq<char>, Seq<TrackModel>)>,
    track: Option<TrackModel>,
    rest: Seq<LineModel>,
)
    requires
        rest.len() > 0 ==> rest[0] is File,
    ensures
        outcome(done, file, track, rest) == done + closed(file, track) + files_of(rest),
{
    if let Some((name, tracks)) = file {
        match track {
            Some(t) => {
                assert(t.indexes + indexes_of(rest) =~= t.indexes);
                let begun = seq![TrackModel { indexes: t.indexes + indexes_of(rest), ..t }];
                assert(tracks + begun + tracks_of(rest) =~= tracks.push(t));
            },
            None => {
                assert(tracks + Seq::<TrackModel>::empty() + tracks_of(rest) =~= tracks);
            },
        }
    }
}

/// Where a track begins, the one before is complete.
proof fn lemma_outcome_track(
    done: Seq<(Seq<char>, Seq<TrackModel>)>,
    file: Option<(Seq<char>, Seq<TrackModel>)>,
    track: Option<TrackModel>,
    new: TrackModel,
    rest: Seq<LineModel>,
)
    requires
        rest.len() > 0,
        rest[0] == LineModel::Track(new.num, new.track_type),
        new.indexes == Seq::<CueIndex>::empty(),
        new.sectors is None,
    ensures
        outcome(done, file, track, rest) == outcome(
            done,
            match file {
                Some((name, tracks)) => Some((name, with_track(tracks, track))),
                None => None,
            },
            Some(new),
            rest.skip(1),
        ),
{
    let next = rest.skip(1);
    let begun = TrackModel { indexes: new.indexes + indexes_of(next), ..new };
    assert(new.indexes + indexes_of(next) =~= indexes_of(next));
    assert(tracks_of(rest) =~= seq![begun] + tracks_of(next));
    if let Some((name, tracks)) = file {
        match track {
            Some(t) => {
                assert(t.indexes + indexes_of(rest) =~= t.indexes);
                assert(tracks + seq![TrackModel { indexes: t.indexes + indexes_of(rest), ..t }]
                    + tracks_of(rest) =~= tracks.push(t) + seq![begun] + tracks_of(next));
            },
            None => {
                assert(tracks + Seq::<TrackModel>::empty() + tracks_of(rest) =~= tracks
                    + seq![begun] + tracks_of(next));
            },
        }
    }
}

/// An index point goes to the track that has begun.
proof fn lemma_outcome_index(
    done: Seq<(Seq<char>, Seq<TrackModel>)>,
    file: Option<(Seq<char>, Seq<TrackModel>)>,
    track: Option<TrackModel>,
    index: CueIndex,
    rest: Seq<LineModel>,
)
    requires
        rest.len() > 0,
        rest[0] == LineModel::Index(index),
    ensures
        outcome(done, file, track, rest) == outcome(
            done,
            file,
            match track {
                Some(t) => Some(TrackModel { indexes: t.indexes.push(index), ..t }),
                None => None,
            },
            rest.skip(1),
        ),
{
    if let Some(t) = track {
        assert(t.indexes + indexes_of(rest) =~= t.indexes.push(index) + indexes_of(rest.skip(1)));
    }
}

spec fn pair(f: CueFile) -> (Seq<char>, Seq<TrackModel>) {
    (f.name@, track_models(f.tracks@))
}

spec fn pairs(files: Seq<CueFile>) -> Seq<(Seq<char>, Seq<TrackModel>)> {
    files.map_values(|f: CueFile| pair(f))
}

spec fn file_pair(file: Option<CueFile>) -> Option<(Seq<char>, Seq<TrackModel>)> {
    match file {
        Some(f) => Some(pair(f)),
        None => None,
    }
}

spec fn track_view(track: Option<CueTrack>) -> Option<TrackModel> {
    match track {
        Some(t) => Some(t@),
        None => None,
    }
}

/// The file with the track that has begun in it, if one has.
fn close_track(file: Option<CueFile>, track: Option<CueTrack>) -> (r: Option<CueFile>)
    ensures
        match (file, track) {
            (Some(f), Some(t)) => r matches Some(g) && g.name@ == f.name@ && g.size_bytes
                == f.size_bytes && track_models(g.tracks@) == track_models(f.tracks@).push(t@),
            (f, _) => r == f,
        },
{
    match (file, track) {
        (Some(f), Some(t)) => {
            let CueFile { name, size_bytes, tracks } = f;
            let mut tracks = tracks;
            tracks.push(t);
            assert(track_models(tracks@) =~= track_models(f.tracks@).push(t@));
            Some(CueFile { name, size_bytes, tracks })
        },
        (f, _) => f,
    }
}

fn known_size(sizes: &Vec<Option<u64>>, k: usize) -> (size: u64)
    ensures
        size == size_of_file(sizes@, k as int),
{
    if k < sizes.len() {
        match sizes[k] {
            Some(size) => size,
            None => 0,
        }
    } else {
        0
    }
}

/// Gathers the files of a sheet and its sector size.
fn gather(items: &Vec<CueLine>, sizes: &Vec<Option<u64>>) -> (r: (Vec<CueFile>, u64))
    ensures
        file_models(r.0@) == sized_files(line_models(items@), sizes@),
        r.1 == sheet_block_size(line_models(items@)),
{
    let ghost models = line_models(items@);
    let mut files: Vec<CueFile> = Vec::new();
    let mut file: Option<CueFile> = None;
    let mut track: Option<CueTrack> = None;
    let mut blocksize: Option<u64> = None;
    assert(models.skip(0) =~= models);
    assert(outcome(pairs(files@), None, None, models) =~= files_of(models));
    let mut i: usize = 0;
    while i < items.len()
        invariant
            i <= items@.len(),
            models == line_models(items@),
            models.len() == items@.len(),
            outcome(
                pairs(files@),
                file_pair(file),
                track_view(track),
                models.skip(i as int),
            ) == files_of(models),
            forall|k: int|
                0 <= k < files@.len() ==> (#[trigger] files@[k]).size_bytes == size_of_file(
                    sizes@,
                    k,
                ),
            file matches Some(f) ==> f.size_bytes == size_of_file(sizes@, files@.len() as int),
            match blocksize {
                Some(size) => size == sheet_block_size(models),
                None => sheet_block_size(models.skip(i as int)) == sheet_block_size(models),
            },
        decreases items@.len() - i,
    {
        let ghost rest = models.skip(i as int);
        let ghost next = models.skip(i + 1);
        let ghost files0 = files@;
        let ghost file0 = file;
        let ghost track0 = track;
        assert(rest[0] == items@[i as int]@);
        assert(rest.skip(1) =~= next);
        match &items[i] {
            CueLine::File(name) => {
                let complete = close_track(file, track);
                track = None;
                file = None;
                if let Some(f) = complete {
                    files.push(f);
                    assert(pairs(files@) =~= pairs(files0).push(pair(f)));
                }
                proof {
                    assert(pairs(files@) =~= pairs(files0) + closed(
                        file_pair(file0),
                        track_view(track0),
                    ));
                    lemma_outcome_closed(
                        pairs(files0),
                        file_pair(file0),
                        track_view(track0),
                        rest,
                    );
                }
                if let Some(name) = name {
                    file = Some(
                        CueFile {
                            name: name.clone(),
                            size_bytes: known_size(sizes, files.len()),
                            tracks: Vec::new(),
                        },
                    );
                }
                proof {
                    if let Some((_, tracks)) = file_pair(file) {
                        assert(tracks =~= seq![]);
                        assert(tracks + Seq::<TrackModel>::empty() + tracks_of(next)
                            =~= tracks_of(next));
                    }
                    assert(outcome(pairs(files@), file_pair(file), None, next) =~= pairs(files@)
                        + files_of(rest));
                }
            },
            CueLine::Track(num, track_type) => {
                file = close_track(file, track);
                if blocksize.is_none() {
                    blocksize = Some(blocksize_for_type(track_type.as_str()));
                }
                track = Some(
                    CueTrack {
                        num: *num,
                        track_type: track_type.clone(),
                        indexes: Vec::new(),
                        sectors: None,
                    },
                );
                proof {
                    lemma_outcome_track(
                        pairs(files0),
                        file_pair(file0),
                        track_view(track0),
                        track.unwrap()@,
                        rest,
                    );
                }
            },
            CueLine::Index(index) => {
                track = match track {
                    Some(t) => {
                        let CueTrack { num, track_type, indexes, sectors } = t;
                        let mut indexes = indexes;
                        indexes.push(*index);
                        Some(CueTrack { num, track_type, indexes, sectors })
                    },
                    None => None,
                };
                proof {
                    lemma_outcome_index(
                        pairs(files0),
                        file_pair(file0),
                        track_view(track0),
                        *index,
                        rest,
                    );
                }
            },
            CueLine::Other => {
            },
        }
        i += 1;
    }
    assert(models.skip(i as int) =~= seq![]);
    let ghost files0 = files@;
    let ghost file0 = file;
    let ghost track0 = track;
    if let Some(f) = close_track(file, track) {
        files.push(f);
    }
    proof {
        lemma_outcome_closed(pairs(files0), file_pair(file0), track_view(track0), seq![]);
        assert(pairs(files@) =~= pairs(files0) + closed(file_pair(file0), track_view(track0)));
        assert(pairs(files@) =~= files_of(models));
    }
    assert forall|k: int| 0 <= k < files@.len() implies #[trigger] files@[k]@
        == sized_files(models, sizes@)[k] by {
        assert(pairs(files@)[k] == pair(files@[k]));
    }
    assert(file_models(files@) =~= sized_files(models, sizes@));
    let blocksize: u64 = match blocksize {
        Some(size) => size,
        None => 2352,
    };
    (files, blocksize)
}

/// Where a track starts.
pub(crate) fn start_of(track: &CueTrack) -> (start: u64)
    ensures
        start == track_start(track@),
{
    if track.indexes.len() > 0 {
        track.indexes[0].sectors
    } else {
        0
    }
}

/// Gives each track of a file of `total` sectors its length.
fn measure(tracks: &mut Vec<CueTrack>, total: u64)
    ensures
        track_models(final(tracks)@) == measured(track_models(old(tracks)@), total),
{
    let ghost before = track_models(tracks@);
    let mut next: u64 = total;
    let mut i: usize = tracks.len();
    while i > 0
        invariant
            i <= tracks@.len(),
            tracks@.len() == before.len(),
            i > 0 ==> next == track_end(before, total, i - 1),
            forall|k: int| 0 <= k < i ==> (#[trigger] tracks@[k])@ == before[k],
            forall|k: int|
                i <= k < tracks@.len() ==> (#[trigger] tracks@[k])@ == measured(before, total)[k],
        decreases i,
    {
        i -= 1;
        assert(tracks@[i as int]@ == before[i as int]);
        let start: u64 = start_of(&tracks[i]);
        tracks[i].sectors = Some(next.saturating_sub(start));
        next = start;
    }
    assert(track_models(tracks@) =~= measured(before, total));
}

/// Makes a sheet of what its lines say, where the files have the given sizes, in the order of the
/// sheet. A size that is not known counts as 0. Where there is a single file, each track gets its
/// length.
pub fn parse_lines(items: &Vec<CueLine>, sizes: &Vec<Option<u64>>) -> (r: ParsedCue)
    ensures
        r@ == sheet(line_models(items@), sizes@),
{
    let (mut files, blocksize) = gather(items, sizes);
    if files.len() == 1 {
        let ghost before = files@[0]@;
        assert(file_models(files@)[0] == before);
        proof {
            lemma_block_size(line_models(items@));
        }
        let total: u64 = files[0].size_bytes / blocksize;
        measure(&mut files[0].tracks, total);
        assert(file_models(files@) =~= seq![
            FileModel { tracks: measured(before.tracks, total), ..before },
        ]);
    }
    ParsedCue { files, blocksize }
}

/// A sector is never empty.
pub proof fn lemma_block_size(items: Seq<LineModel>)
    ensures
        2048 <= sheet_block_size(items) <= 2448,
    decreases items.len(),
{
    if items.len() > 0 {
        lemma_block_size(items.skip(1));
    }
}

/// Reads the lines of a sheet.
fn read_lines(text: &str) -> (r: Vec<CueLine>)
    requires
        sheet_fits(text@),
    ensures
        line_models(r@) == sheet_lines(text@),
{
    let cs = chars_of(text);
    let all = lines_of(cs.as_slice());
    let mut r: Vec<CueLine> = Vec::new();
    for i in 0..all.len()
        invariant
            all@.len() == lines(text@).len(),
            forall|k: int| 0 <= k < all@.len() ==> (#[trigger] all@[k])@ == lines(text@)[k],
            sheet_fits(text@),
            r@.len() == i,
            forall|k: int| 0 <= k < i ==> (#[trigger] r@[k])@ == line_model(
                    trim(lines(text@)[k]),
                    upper_text(trim(lines(text@)[k])),
                ),
    {
        let line = string_of(trim_of(all[i].as_slice()));
        let upper = to_uppercase(line.as_str());
        assert(all@[i as int]@ == lines(text@)[i as int]);
        r.push(read_line(line.as_str(), upper.as_str()));
    }
    assert(line_models(r@) =~= sheet_lines(text@));
    r
}

/// Tells whether `parse_cue_full` can count every position in the text of a sheet.
pub fn sheet_in_range(text: &str) -> (b: bool)
    ensures
        b == sheet_fits(text@),
{
    let cs = chars_of(text);
    let all = lines_of(cs.as_slice());
    for i in 0..all.len()
        invariant
            all@.len() == lines(text@).len(),
            forall|k: int| 0 <= k < all@.len() ==> (#[trigger] all@[k])@ == lines(text@)[k],
            forall|k: int|
                0 <= k < i ==> line_fits(upper_text(trim(#[trigger] lines(text@)[k]))),
    {
        let line = string_of(trim_of(all[i].as_slice()));
        let upper = to_uppercase(line.as_str());
        assert(all@[i as int]@ == lines(text@)[i as int]);
        if !line_in_range(upper.as_str()) {
            return false;
        }
    }
    true
}

/// Reads a sheet. `text` is what reading the file of the sheet gave, and `sizes` are the sizes of
/// the files that `cue_file_names` lists.
pub fn parse_cue_full(text: Result<String, String>, sizes: &Vec<Option<u64>>) -> (r: Result<
    ParsedCue,
    String,
>)
    requires
        text matches Ok(t) ==> sheet_fits(t@),
    ensures
        match (text, r) {
            (Ok(t), Ok(parsed)) => parsed@ == sheet(sheet_lines(t@), sizes@),
            (Err(e), Err(msg)) => msg@ == "Cannot read CUE: "@ + e@,
            _ => false,
        },
{
    match text {
        Ok(t) => {
            let items = read_lines(t.as_str());
            Ok(parse_lines(&items, sizes))
        },
        Err(e) => {
            Err(concat2("Cannot read CUE: ", e.as_str()))
        },
    }
}

/// Reads a sheet as `parse_cue_full` does, or gives nothing where a position in it is too far to
/// count.
pub fn parse_cue_checked(text: Result<String, String>, sizes: &Vec<Option<u64>>) -> (r: Option<
    Result<ParsedCue, String>,
>)
    ensures
        match (text, r) {
            (Ok(t), Some(Ok(parsed))) => sheet_fits(t@) && parsed@ == sheet(
                sheet_lines(t@),
                sizes@,
            ),
            (Ok(t), None) => !sheet_fits(t@),
            (Err(e), Some(Err(msg))) => msg@ == "Cannot read CUE: "@ + e@,
            _ => false,
        },
{
    if let Ok(t) = &text {
        if !sheet_in_range(t.as_str()) {
            return None;
        }
    }
    Some(parse_cue_full(text, sizes))
}

/// The names of the files that a sheet refers to.
pub open spec fn file_names(items: Seq<LineModel>) -> Seq<Seq<char>> {
    files_of(items).map_values(|f: (Seq<char>, Seq<TrackModel>)| f.0)
}

proof fn lemma_file_names_step(items: Seq<LineModel>, i: int)
    requires
        0 <= i < items.len(),
    ensures
        file_names(items.skip(i)) == (match items[i] {
            LineModel::File(Some(name)) => seq![name],
            _ => seq![],
        }) + file_names(items.skip(i + 1)),
{
    let rest = items.skip(i);
    assert(rest.skip(1) =~= items.skip(i + 1));
    assert(rest[0] == items[i]);
    assert(file_names(rest) =~= (match items[i] {
        LineModel::File(Some(name)) => seq![name],
        _ => seq![],
    }) + file_names(items.skip(i + 1)));
}

/// Lists the names of the files that the text of a sheet refers to, in its order.
pub fn cue_file_names(text: &str) -> (r: Vec<String>)
    ensures
        texts(r@) == file_names(sheet_lines(text@)),
{
    let cs = chars_of(text);
    let all = lines_of(cs.as_slice());
    let ghost items = sheet_lines(text@);
    let mut r: Vec<String> = Vec::new();
    assert(items.skip(0) =~= items);
    assert(texts(r@) + file_names(items) =~= file_names(items));
    for i in 0..all.len()
        invariant
            all@.len() == lines(text@).len(),
            forall|k: int| 0 <= k < all@.len() ==> (#[trigger] all@[k])@ == lines(text@)[k],
            items == sheet_lines(text@),
            items.len() == all@.len(),
            texts(r@) + file_names(items.skip(i as int)) == file_names(items),
    {
        let line = string_of(trim_of(all[i].as_slice()));
        let upper = to_uppercase(line.as_str());
        proof {
            assert(all@[i as int]@ == lines(text@)[i as int]);
            assert(items[i as int] == line_model(line@, upper@));
            lemma_file_names_step(items, i as int);
        }
        let ghost before = texts(r@);
        if file_line(chars_of(upper.as_str()).as_slice()) {
            if let Some(name) = extract_quoted(line.as_str()) {
                let name = name.to_owned();
                assert(texts(r@.push(name)) =~= before.push(name@));
                assert(before.push(name@) + file_names(items.skip(i + 1)) =~= before + (seq![name@]
                    + file_names(items.skip(i + 1))));
                r.push(name);
            } else {
                assert(before + (Seq::<Seq<char>>::empty() + file_names(items.skip(i + 1)))
                    =~= before + file_names(items.skip(i + 1)));
            }
        } else {
            assert(before + (Seq::<Seq<char>>::empty() + file_names(items.skip(i + 1))) =~= before
                + file_names(items.skip(i + 1)));
        }
    }
    assert(items.skip(items.len() as int) =~= seq![]);
    assert(file_names(seq![]) =~= seq![]);
    assert(texts(r@) =~= file_names(items));
    r
}

} // verus!
