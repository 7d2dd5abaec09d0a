//! CUE sheets: their data model, and what one line says.

use crate::decimal::{parse_decimal, read_decimal};
use crate::msf::{msf_fits, msf_in_range, msf_sectors, msf_to_sectors};
use crate::text::{
    chars_of, contains_text, find_char, next_char, occurs, starts_with, string_of, trim,
    trim_of, words, words_of,
};
use vstd::prelude::*;
use vstd::slice::slice_subrange;
use vstd::string::StrSliceExecFns;

verus! {

// ---------------------------------------------------------------------------
// The data model
// ---------------------------------------------------------------------------

/// An index point of a track.
#[derive(Clone, Copy, Debug, PartialEq, Eq)]
pub struct CueIndex {
    pub id: u32,
    /// The offset within the file, in sectors.
    pub sectors: u64,
}

/// A track of a file.
#[derive(Clone, Debug, PartialEq, Eq)]
pub struct CueTrack {
    pub num: u32,
    pub track_type: String,
    pub indexes: Vec<CueIndex>,
    /// The length of the track in sectors, which is known for a sheet with a single file only.
    pub sectors: Option<u64>,
}

/// A file that a sheet refers to.
#[derive(Debug, PartialEq, Eq)]
pub struct CueFile {
    /// The name as the sheet gives it, which is relative to the folder of the sheet.
    pub name: String,
    pub size_bytes: u64,
    pub tracks: Vec<CueTrack>,
}

/// A sheet.
#[derive(Debug, PartialEq, Eq)]
pub struct ParsedCue {
    pub files: Vec<CueFile>,
    /// The bytes in a sector, by the type of the first track.
    pub blocksize: u64,
}

/// The mathematical content of a `CueTrack`.
#[verifier::ext_equal]
pub struct TrackModel {
    pub num: u32,
    pub track_type: Seq<char>,
    pub indexes: Seq<CueIndex>,
    pub sectors: Option<u64>,
}

/// The mathematical content of a `CueFile`.
#[verifier::ext_equal]
pub struct FileModel {
    pub name: Seq<char>,
    pub size_bytes: u64,
    pub tracks: Seq<TrackModel>,
}

/// The mathematical content of a `ParsedCue`.
#[verifier::ext_equal]
pub struct SheetModel {
    pub files: Seq<FileModel>,
    pub blocksize: u64,
}

impl View for CueTrack {
    type V = TrackModel;

    open spec fn view(&self) -> TrackModel {
        TrackModel {
            num: self.num,
            track_type: self.track_type@,
            indexes: self.indexes@,
            sectors: self.sectors,
        }
    }
}

/// The contents of the tracks of a list.
pub open spec fn track_models(tracks: Seq<CueTrack>) -> Seq<TrackModel> {
    tracks.map_values(|t: CueTrack| t@)
}

impl View for CueFile {
    type V = FileModel;

    open spec fn view(&self) -> FileModel {
        FileModel {
            name: self.name@,
            size_bytes: self.size_bytes,
            tracks: track_models(self.tracks@),
        }
    }
}

/// The contents of the files of a list.
pub open spec fn file_models(files: Seq<CueFile>) -> Seq<FileModel> {
    files.map_values(|f: CueFile| f@)
}

impl View for ParsedCue {
    type V = SheetModel;

    open spec fn view(&self) -> SheetModel {
        SheetModel { files: file_models(self.files@), blocksize: self.blocksize }
    }
}

// ---------------------------------------------------------------------------
// One line
// ---------------------------------------------------------------------------

/// What one line of a sheet says.
#[derive(Debug, PartialEq, Eq)]
pub enum CueLine {
    /// A file begins, whose name stands in quotation marks. Without a name nothing begins, but
    /// what went before ends.
    File(Option<String>),
    /// A track begins.
    Track(u32, String),
    /// An index point of the current track.
    Index(CueIndex),
    /// A line that says nothing here.
    Other,
}

/// The mathematical content of a `CueLine`.
pub enum LineModel {
    File(Option<Seq<char>>),
    Track(u32, Seq<char>),
    Index(CueIndex),
    Other,
}

impl View for CueLine {
    type V = LineModel;

    open spec fn view(&self) -> LineModel {
        match self {
            CueLine::File(Some(name)) => LineModel::File(Some(name@)),
            CueLine::File(None) => LineModel::File(None),
            CueLine::Track(num, track_type) => LineModel::Track(*num, track_type@),
            CueLine::Index(index) => LineModel::Index(*index),
            CueLine::Other => LineModel::Other,
        }
    }
}

/// The contents of the lines of a list.
pub open spec fn line_models(lines: Seq<CueLine>) -> Seq<LineModel> {
    lines.map_values(|l: CueLine| l@)
}

/// The text between the first two quotation marks of a line.
pub open spec fn quoted(line: Seq<char>) -> Option<Seq<char>> {
    let open = next_char(line, '"', 0);
    let close = next_char(line, '"', open + 1);
    if open < line.len() && close < line.len() {
        Some(line.subrange(open + 1, close))
    } else {
        None
    }
}

/// The number in a `TRACK` line: its second part, where blanks part it, or 0 where that is no
/// number.
pub open spec fn track_line_num(line: Seq<char>) -> u32 {
    let first = next_char(line, ' ', 0);
    let second = next_char(line, ' ', first + 1);
    if first < line.len() {
        match read_decimal(line.subrange(first + 1, second), u32::MAX as int) {
            Some(num) => num as u32,
            None => 0,
        }
    } else {
        0
    }
}

/// The type in a `TRACK` line: all that follows its second blank, or `AUDIO` where there is no
/// such blank.
pub open spec fn track_line_type(line: Seq<char>) -> Seq<char> {
    let first = next_char(line, ' ', 0);
    let second = next_char(line, ' ', first + 1);
    if first < line.len() && second < line.len() {
        trim(line.skip(second + 1))
    } else {
        "AUDIO"@
    }
}

/// The words of an `INDEX` line in upper case that follow its keyword.
pub open spec fn index_words(upper: Seq<char>) -> Seq<Seq<char>> {
    words(upper.skip("INDEX "@.len() as int))
}

/// The index point of an `INDEX` line in upper case: a number and a position.
pub open spec fn index_line(upper: Seq<char>) -> Option<CueIndex> {
    let parts = index_words(upper);
    if parts.len() >= 2 {
        match (read_decimal(parts[0], u32::MAX as int), msf_sectors(parts[1])) {
            (Some(id), Some(sectors)) => Some(CueIndex { id: id as u32, sectors: sectors as u64 }),
            _ => None,
        }
    } else {
        None
    }
}

pub open spec fn is_file_line(upper: Seq<char>) -> bool {
    "FILE "@.is_prefix_of(upper) && (occurs(upper, "BINARY"@) || occurs(upper, "WAVE"@))
}

/// What the line `line` says, whose upper case is `upper`.
pub open spec fn line_model(line: Seq<char>, upper: Seq<char>) -> LineModel {
    if is_file_line(upper) {
        LineModel::File(quoted(line))
    } else if "TRACK "@.is_prefix_of(upper) {
        LineModel::Track(track_line_num(line), track_line_type(line))
    } else if "INDEX "@.is_prefix_of(upper) {
        match index_line(upper) {
            Some(index) => LineModel::Index(index),
            None => LineModel::Other,
        }
    } else {
        LineModel::Other
    }
}

/// A line gives no position that is too far to count. Only an `INDEX` line gives a position.
pub open spec fn line_fits(upper: Seq<char>) -> bool {
    !is_file_line(upper) && "INDEX "@.is_prefix_of(upper) && index_words(upper).len() >= 2
        ==> msf_fits(index_words(upper)[1])
}

/// The text between the first two quotation marks of a line.
pub fn extract_quoted(line: &str) -> (r: Option<&str>)
    ensures
        match r {
            Some(name) => quoted(line@) == Some(name@),
            None => quoted(line@) is None,
        },
{
    let cs = chars_of(line);
    let cs = cs.as_slice();
    let len: usize = cs.len();
    let open = find_char(cs, '"', 0);
    if open >= len {
        return None;
    }
    let close = find_char(cs, '"', open + 1);
    if close >= len {
        return None;
    }
    Some(line.substring_char(open + 1, close))
}

/// Tells whether a line, given in upper case, begins a file.
pub(crate) fn file_line(upper: &[char]) -> (b: bool)
    ensures
        b == is_file_line(upper@),
{
    starts_with(upper, "FILE ") && (contains_text(upper, "BINARY") || contains_text(upper, "WAVE"))
}

/// Tells whether a line, given in upper case, gives no position that is too far to count.
pub fn line_in_range(upper: &str) -> (b: bool)
    ensures
        b == line_fits(upper@),
{
    let cs = chars_of(upper);
    let cs = cs.as_slice();
    if file_line(cs) || !starts_with(cs, "INDEX ") {
        return true;
    }
    let keyword = chars_of("INDEX ");
    let rest = slice_subrange(cs, keyword.len(), cs.len());
    assert(rest@ =~= upper@.skip("INDEX "@.len() as int));
    let parts = words_of(rest);
    if parts.len() < 2 {
        return true;
    }
    msf_in_range(string_of(parts[1].as_slice()).as_str())
}

fn read_track_line(line: &[char]) -> (r: (u32, String))
    ensures
        r.0 == track_line_num(line@),
        r.1@ == track_line_type(line@),
{
    let len: usize = line.len();
    let first = find_char(line, ' ', 0);
    if first >= len {
        return (0, "AUDIO".to_owned());
    }
    let second = find_char(line, ' ', first + 1);
    let num: u32 = match parse_decimal(
        slice_subrange(line, first + 1, second),
        u32::MAX as u64,
    ) {
        Some(v) => v as u32,
        None => 0,
    };
    if second >= len {
        return (num, "AUDIO".to_owned());
    }
    let rest = slice_subrange(line, second + 1, len);
    assert(rest@ =~= line@.skip(second + 1));
    (num, string_of(trim_of(rest)))
}

/// Reads one line of a sheet: `line` is the line without the white space around it, and `upper`
/// the same in upper case.
pub fn read_line(line: &str, upper: &str) -> (r: CueLine)
    requires
        line_fits(upper@),
    ensures
        r@ == line_model(line@, upper@),
{
    let up = chars_of(upper);
    let up = up.as_slice();
    if file_line(up) {
        match extract_quoted(line) {
            Some(name) => CueLine::File(Some(name.to_owned())),
            None => CueLine::File(None),
        }
    } else if starts_with(up, "TRACK ") {
        let cs = chars_of(line);
        let (num, track_type) = read_track_line(cs.as_slice());
        CueLine::Track(num, track_type)
    } else if starts_with(up, "INDEX ") {
        let keyword = chars_of("INDEX ");
        let rest = slice_subrange(up, keyword.len(), up.len());
        assert(rest@ =~= upper@.skip("INDEX "@.len() as int));
        let parts = words_of(rest);
        if parts.len() < 2 {
            return CueLine::Other;
        }
        let id = parse_decimal(parts[0].as_slice(), u32::MAX as u64);
        let sectors = msf_to_sectors(string_of(parts[1].as_slice()).as_str());
        match (id, sectors) {
            (Some(id), Some(sectors)) => CueLine::Index(CueIndex { id: id as u32, sectors }),
            _ => CueLine::Other,
        }
    } else {
        CueLine::Other
    }
}

} // verus!
