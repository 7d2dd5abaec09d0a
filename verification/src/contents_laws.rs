//! The mathematical contents of values: a value holds its texts and numbers as they are, and a
//! list holds its items one by one.

use crate::archive::{UploadStep, UploadStepModel, ZipStep, ZipStepModel};
use crate::cue::{file_models, line_models, track_models};
use crate::cue::{CueFile, CueIndex, CueLine, CueTrack, LineModel, ParsedCue};
use crate::order::views;
use crate::rename::{CasedName, RenamePreview};
use crate::rename_plan::{NumberedFile, RenameStep, RenameStepModel};
use crate::scan::{mark_models, text_view};
use crate::scan::{BaseGuess, FileMark, GuessModel, MarkModel, ScanResult};
use crate::split::{split_step_models, SplitStep, SplitStepModel};
use crate::text::texts;
use vstd::prelude::*;

verus! {

/// A list has as many contents as items, at the same places.
pub proof fn law_contents_of_lists<T: View>(
    items: Seq<T>,
    list: Seq<String>,
    tracks: Seq<CueTrack>,
    files: Seq<CueFile>,
    lines: Seq<CueLine>,
    steps: Seq<SplitStep>,
    marks: Seq<FileMark>,
)
    ensures
        views(items).len() == items.len(),
        forall|i: int| 0 <= i < items.len() ==> #[trigger] views(items)[i] == items[i]@,
        texts(list).len() == list.len(),
        forall|i: int| 0 <= i < list.len() ==> #[trigger] texts(list)[i] == list[i]@,
        track_models(tracks).len() == tracks.len(),
        forall|i: int| 0 <= i < tracks.len() ==> #[trigger] track_models(tracks)[i] == tracks[i]@,
        file_models(files).len() == files.len(),
        forall|i: int| 0 <= i < files.len() ==> #[trigger] file_models(files)[i] == files[i]@,
        line_models(lines).len() == lines.len(),
        forall|i: int| 0 <= i < lines.len() ==> #[trigger] line_models(lines)[i] == lines[i]@,
        split_step_models(steps).len() == steps.len(),
        forall|i: int| 0 <= i < steps.len() ==> #[trigger] split_step_models(steps)[i] == steps[i]@,
        mark_models(marks).len() == marks.len(),
        forall|i: int| 0 <= i < marks.len() ==> #[trigger] mark_models(marks)[i] == marks[i]@,
{
}

/// A sheet, its files and their tracks.
pub proof fn law_contents_of_sheets(parsed: ParsedCue, file: CueFile, track: CueTrack)
    ensures
        parsed@.blocksize == parsed.blocksize,
        parsed@.files == file_models(parsed.files@),
        file@.name == file.name@,
        file@.size_bytes == file.size_bytes,
        file@.tracks == track_models(file.tracks@),
        track@.num == track.num,
        track@.track_type == track.track_type@,
        track@.indexes == track.indexes@,
        track@.sectors == track.sectors,
{
}

/// What a line of a sheet says.
pub proof fn law_contents_of_lines(name: String, num: u32, index: CueIndex)
    ensures
        CueLine::File(Some(name))@ == LineModel::File(Some(name@)),
        CueLine::File(None)@ == LineModel::File(None),
        CueLine::Track(num, name)@ == LineModel::Track(num, name@),
        CueLine::Index(index)@ == LineModel::Index(index),
        CueLine::Other@ == LineModel::Other,
{
}

/// The steps of a split.
pub proof fn law_contents_of_split_steps(a: String, b: String, num: u32, bytes: u64)
    ensures
        SplitStep::Log(a)@ == SplitStepModel::Log(a@),
        SplitStep::LogSource(a, b)@ == SplitStepModel::LogSource(a@, b@),
        SplitStep::OpenSource@ == SplitStepModel::OpenSource,
        SplitStep::Seek(bytes)@ == SplitStepModel::Seek(bytes),
        SplitStep::Create(a)@ == SplitStepModel::Create(a@),
        SplitStep::Copy(num, bytes)@ == SplitStepModel::Copy(num, bytes),
        SplitStep::Report(a)@ == SplitStepModel::Report(a@),
        SplitStep::WriteSheet(a, b)@ == SplitStepModel::WriteSheet(a@, b@),
        SplitStep::LogSheet(a)@ == SplitStepModel::LogSheet(a@),
        SplitStep::Fail(a)@ == SplitStepModel::Fail(a@),
{
}

/// The steps of a rename, and what they are planned from.
pub proof fn law_contents_of_renames(
    a: String,
    b: String,
    shown: RenamePreview,
    cased: CasedName,
    file: NumberedFile,
)
    ensures
        RenameStep::Log(a)@ == RenameStepModel::Log(a@),
        RenameStep::Write(a, b)@ == RenameStepModel::Write(a@, b@),
        RenameStep::Remove(a)@ == RenameStepModel::Remove(a@),
        RenameStep::Rename(a, b)@ == RenameStepModel::Rename(a@, b@),
        RenameStep::Report(a)@ == RenameStepModel::Report(a@),
        shown@.old_name == shown.old_name@,
        shown@.new_name == shown.new_name@,
        shown@.kind == shown.kind@,
        cased@ == (cased.name@, cased.lower@),
        file@ == (file.name@, file.num),
{
}

/// The steps of packing and of sending.
pub proof fn law_contents_of_archive_steps(a: String, b: String, args: Vec<String>)
    ensures
        ZipStep::Log(a)@ == ZipStepModel::Log(a@),
        ZipStep::Create(a)@ == ZipStepModel::Create(a@),
        ZipStep::AddDirectory(a)@ == ZipStepModel::AddDirectory(a@),
        ZipStep::BeginEntry(a, b)@ == ZipStepModel::BeginEntry(a@, b@),
        ZipStep::OpenFile(a)@ == ZipStepModel::OpenFile(a@),
        ZipStep::CopyFile(a)@ == ZipStepModel::CopyFile(a@),
        ZipStep::Finish@ == ZipStepModel::Finish,
        ZipStep::LogZip(a)@ == ZipStepModel::LogZip(a@),
        ZipStep::Fail(a)@ == ZipStepModel::Fail(a@),
        UploadStep::Log(a)@ == UploadStepModel::Log(a@),
        UploadStep::Probe(args)@ == UploadStepModel::Probe(texts(args@)),
        UploadStep::Configure(args)@ == UploadStepModel::Configure(texts(args@)),
        UploadStep::Upload(args)@ == UploadStepModel::Upload(texts(args@)),
{
}

/// What a scan notes and finds.
pub proof fn law_contents_of_scans(title: String, guess: BaseGuess, found: ScanResult)
    ensures
        BaseGuess::Nothing@ == GuessModel::Nothing,
        BaseGuess::Base(title)@ == GuessModel::Base(title@),
        BaseGuess::Broken@ == GuessModel::Broken,
        FileMark::Bin(guess)@ == MarkModel::Bin(guess@),
        FileMark::Cue(Some(title))@ == MarkModel::Cue(Some(title@)),
        FileMark::Cue(None)@ == MarkModel::Cue(None),
        FileMark::Cdg@ == MarkModel::Cdg,
        FileMark::Other@ == MarkModel::Other,
        text_view(Some(title)) == Some(title@),
        text_view(None) is None,
        found@.bin_count == found.bin_count,
        found@.cue_found == found.cue_found,
        found@.cdg_found == found.cdg_found,
        found@.detected_base_name == text_view(found.detected_base_name),
{
}

} // verus!
