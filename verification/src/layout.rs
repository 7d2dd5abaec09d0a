//! How the tracks of a rip are laid out in files.

use crate::cue::{file_models, FileModel, ParsedCue};
use crate::files::{count_files, count_kind, find_kind, first_of_kind, FileKind};
use crate::text::{texts, trim, trimmed};
use vstd::prelude::*;

verus! {

/// The layout of a rip.
#[derive(Debug, PartialEq, Eq)]
pub struct LayoutInfo {
    /// `multi-bin`, `single-multi-track`, `single-single-track`, `no-cue` or `unknown`.
    pub kind: String,
    pub bin_count: u32,
    pub track_count: u32,
}

/// A count in 32 bits, which starts again from 0 where they do not hold it.
pub open spec fn in_32_bits(n: nat) -> int {
    n as int % 0x1_0000_0000
}

/// The tracks of all files, where the tracks of each are counted in 32 bits.
pub open spec fn tracks_in(files: Seq<FileModel>) -> int
    decreases files.len(),
{
    if files.len() == 0 {
        0
    } else {
        tracks_in(files.drop_last()) + in_32_bits(files.last().tracks.len())
    }
}

/// The kind of layout of so many files with so many tracks.
pub open spec fn layout_kind(file_count: int, track_count: int) -> Seq<char> {
    if file_count > 1 {
        "multi-bin"@
    } else if track_count > 1 {
        "single-multi-track"@
    } else {
        "single-single-track"@
    }
}

/// The kinds of layout that there are. The layout of a folder whose sheet cannot be read is unknown.
pub open spec fn is_layout_kind(kind: Seq<char>) -> bool {
    ||| kind == "multi-bin"@
    ||| kind == "single-multi-track"@
    ||| kind == "single-single-track"@
    ||| kind == "no-cue"@
    ||| kind == "unknown"@
}

/// The tracks of a sheet can be counted in 32 bits.
pub open spec fn tracks_countable(parsed: ParsedCue) -> bool {
    tracks_in(file_models(parsed.files@)) <= u32::MAX
}

proof fn lemma_tracks_in_grows(files: Seq<FileModel>, i: int)
    requires
        0 <= i <= files.len(),
    ensures
        0 <= tracks_in(files.take(i)) <= tracks_in(files),
    decreases files.len(),
{
    if i < files.len() {
        lemma_tracks_in_grows(files.drop_last(), i);
        assert(files.drop_last().take(i) =~= files.take(i));
    } else {
        assert(files.take(i) =~= files);
        if files.len() > 0 {
            lemma_tracks_in_grows(files.drop_last(), i - 1);
            assert(files.drop_last().take(i - 1) =~= files.drop_last());
        }
    }
}

fn low_32(n: usize) -> (r: u32)
    ensures
        r == in_32_bits(n as nat),
{
    (n as u64 % 0x1_0000_0000) as u32
}

/// Counts the tracks of a sheet, where they can be counted in 32 bits.
fn count_tracks(parsed: &ParsedCue) -> (n: Option<u32>)
    ensures
        match n {
            Some(n) => n == tracks_in(file_models(parsed.files@)),
            None => !tracks_countable(*parsed),
        },
{
    let ghost all = file_models(parsed.files@);
    let mut sum: u32 = 0;
    assert(all.take(0) =~= seq![]);
    for i in 0..parsed.files.len()
        invariant
            all == file_models(parsed.files@),
            sum == tracks_in(all.take(i as int)),
    {
        let n = low_32(parsed.files[i].tracks.len());
        proof {
            let next = all.take(i + 1);
            assert(next.drop_last() =~= all.take(i as int));
            assert(next.last() == parsed.files@[i as int]@);
            lemma_tracks_in_grows(all, i + 1);
        }
        match sum.checked_add(n) {
            Some(next) => {
                sum = next;
            },
            None => {
                return None;
            },
        }
    }
    assert(all.take(all.len() as int) =~= all);
    Some(sum)
}

/// Tells whether the tracks of a sheet can be counted in 32 bits.
pub fn tracks_in_range(parsed: &ParsedCue) -> (b: bool)
    ensures
        b == tracks_countable(*parsed),
{
    count_tracks(parsed).is_some()
}

/// Finds the sheet in a folder: the position of the first entry that is one by its name.
/// `entries` is what listing the names of the entries gave.
pub fn find_sheet(entries: &Vec<String>) -> (r: Option<usize>)
    ensures
        match r {
            Some(i) => i < entries@.len() && first_of_kind(texts(entries@), FileKind::Cue) == Some(
                i as int,
            ),
            None => first_of_kind(texts(entries@), FileKind::Cue) is None,
        },
{
    find_kind(entries, FileKind::Cue)
}

/// Tells the layout of the rip in a folder. `entries` is what listing the names of its entries
/// gave, and `sheet` is what reading the sheet that `find_sheet` names gave; without a sheet it is
/// not looked at.
pub fn detect_layout(
    entries: &Result<Vec<String>, String>,
    sheet: &Result<ParsedCue, String>,
) -> (r: Result<LayoutInfo, String>)
    requires
        entries is Ok && first_of_kind(texts(entries->Ok_0@), FileKind::Cue) is Some && sheet is Ok
            ==> tracks_countable(sheet->Ok_0),
    ensures
        match (entries, r) {
            (Ok(names), Ok(info)) => if first_of_kind(texts(names@), FileKind::Cue) is None {
                &&& info.kind@ == "no-cue"@
                &&& info.bin_count == in_32_bits(count_kind(texts(names@), FileKind::Bin))
                &&& info.track_count == 0
            } else {
                match sheet {
                    Ok(parsed) => {
                        &&& info.bin_count == in_32_bits(parsed.files@.len())
                        &&& info.track_count == tracks_in(parsed@.files)
                        &&& info.kind@ == layout_kind(
                            info.bin_count as int,
                            info.track_count as int,
                        )
                    },
                    Err(_) => {
                        &&& info.kind@ == "unknown"@
                        &&& info.bin_count == in_32_bits(count_kind(texts(names@), FileKind::Bin))
                        &&& info.track_count == 0
                    },
                }
            },
            (Err(e), Err(msg)) => msg@ == e@,
            _ => false,
        },
        r matches Ok(info) ==> is_layout_kind(info.kind@),
{
    let names = match entries {
        Ok(names) => names,
        Err(e) => {
            return Err(e.clone());
        },
    };
    let bin_count = low_32(count_files(names, FileKind::Bin));
    if find_sheet(names).is_none() {
        return Ok(LayoutInfo { kind: "no-cue".to_owned(), bin_count, track_count: 0 });
    }
    match sheet {
        Ok(parsed) => {
            let file_count = low_32(parsed.files.len());
            let track_count: u32 = count_tracks(parsed).unwrap();
            let kind = if file_count > 1 {
                "multi-bin"
            } else if track_count > 1 {
                "single-multi-track"
            } else {
                "single-single-track"
            };
            Ok(LayoutInfo { kind: kind.to_owned(), bin_count: file_count, track_count })
        },
        Err(_) => Ok(LayoutInfo { kind: "unknown".to_owned(), bin_count, track_count: 0 }),
    }
}

/// Chooses the sheet of the disc to split and cleans the title. `entries` is what listing the
/// names of the entries of the folder gave; the result is the position of the sheet among them and
/// the title.
pub fn bin_split(entries: &Result<Vec<String>, String>, base_name: &str) -> (r: Result<
    (usize, String),
    String,
>)
    ensures
        match (entries, r) {
            (Ok(names), Ok((i, base))) => i < names@.len() && first_of_kind(
                texts(names@),
                FileKind::Cue,
            ) == Some(i as int) && base@ == trim(base_name@),
            (Ok(names), Err(msg)) => first_of_kind(texts(names@), FileKind::Cue) is None && msg@
                == "No .cue file found in folder"@,
            (Err(e), Err(msg)) => msg@ == e@,
            _ => false,
        },
{
    let base = trimmed(base_name);
    match entries {
        Ok(names) => match find_sheet(names) {
            Some(i) => Ok((i, base)),
            None => Err("No .cue file found in folder".to_owned()),
        },
        Err(e) => Err(e.clone()),
    }
}

} // verus!
