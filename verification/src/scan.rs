//! Looking over a folder: what it holds and what its title may be.

use crate::bytes::{
    byte_len, byte_prefix, bytes_in, first_bytes, lemma_byte_prefix_is,
};
use crate::casing::{lemma_alike_bytes, lemma_alike_occurs, lower_text, to_lowercase};
use crate::files::{file_kind, kind_of, stem, stem_of, FileKind};
use crate::names::{
    lemma_suffix_in_lower, lemma_track_name_in_lower, track_digits, track_file_name, track_suffix,
};
use crate::text::{
    chars_of, find, find_text, is_ascii_text, lemma_find_is, lower_ascii_text, occurs,
    occurs_at, reads_as, string_of, texts,
};
use vstd::prelude::*;
use vstd::string::StrSliceExecFns;

verus! {

// ---------------------------------------------------------------------------
// What one file tells
// ---------------------------------------------------------------------------

/// What the name of a `bin` file tells of the title.
#[derive(Debug, PartialEq, Eq)]
pub enum BaseGuess {
    /// The name has no track number after a title.
    Nothing,
    /// The part of the name before the track number.
    Base(String),
    /// The name in lower case has a track number, but its place there does not part the name
    /// between two characters.
    Broken,
}

/// What the name of a file tells.
#[derive(Debug, PartialEq, Eq)]
pub enum FileMark {
    Bin(BaseGuess),
    /// A sheet, with its stem where that may be a title.
    Cue(Option<String>),
    Cdg,
    Other,
}

/// The mathematical content of a `BaseGuess`.
pub enum GuessModel {
    Nothing,
    Base(Seq<char>),
    Broken,
}

/// The mathematical content of a `FileMark`.
pub enum MarkModel {
    Bin(GuessModel),
    Cue(Option<Seq<char>>),
    Cdg,
    Other,
}

impl View for BaseGuess {
    type V = GuessModel;

    open spec fn view(&self) -> GuessModel {
        match self {
            BaseGuess::Nothing => GuessModel::Nothing,
            BaseGuess::Base(base) => GuessModel::Base(base@),
            BaseGuess::Broken => GuessModel::Broken,
        }
    }
}

impl View for FileMark {
    type V = MarkModel;

    open spec fn view(&self) -> MarkModel {
        match self {
            FileMark::Bin(guess) => MarkModel::Bin(guess@),
            FileMark::Cue(Some(title)) => MarkModel::Cue(Some(title@)),
            FileMark::Cue(None) => MarkModel::Cue(None),
            FileMark::Cdg => MarkModel::Cdg,
            FileMark::Other => MarkModel::Other,
        }
    }
}

/// The contents of the marks of a list.
pub open spec fn mark_models(marks: Seq<FileMark>) -> Seq<MarkModel> {
    marks.map_values(|m: FileMark| m@)
}

/// What the name of a `bin` file tells of the title, where `lower` is the name in lower case. The
/// first ` (track ` is looked for there, and as many bytes of the name as stand before it there
/// are the title.
pub open spec fn base_guess(name: Seq<char>, lower: Seq<char>) -> GuessModel {
    match find(lower, " (track "@) {
        Some(i) => match byte_prefix(name, byte_len(lower.take(i))) {
            Some(base) => GuessModel::Base(base),
            None => GuessModel::Broken,
        },
        None => GuessModel::Nothing,
    }
}

/// A stem that is no title: it is shorter than four bytes, or a word that any disc might have.
/// `lower` is the stem in lower case.
pub open spec fn is_generic(stem: Seq<char>, lower: Seq<char>) -> bool {
    byte_len(stem) < 4 || lower == "cue"@ || lower == "disc"@ || lower == "track"@ || lower
        == "cd"@
}

/// What the name of a file tells, where `lower_name` is the name in lower case and `lower_stem`
/// its stem in lower case.
pub open spec fn mark_of(
    name: Seq<char>,
    lower_name: Seq<char>,
    lower_stem: Seq<char>,
) -> MarkModel {
    match kind_of(name) {
        FileKind::Bin => MarkModel::Bin(base_guess(name, lower_name)),
        FileKind::Cue => if is_generic(stem(name), lower_stem) {
            MarkModel::Cue(None)
        } else {
            MarkModel::Cue(Some(stem(name)))
        },
        FileKind::Cdg => MarkModel::Cdg,
        FileKind::Other => MarkModel::Other,
    }
}

/// What the names of a list tell.
pub open spec fn marks_of(names: Seq<Seq<char>>) -> Seq<MarkModel> {
    names.map_values(|n: Seq<char>| mark_of(n, lower_text(n), lower_text(stem(n))))
}

/// What the name of a `bin` file tells of the title.
fn guess_base(name: &str, lower: &str) -> (r: BaseGuess)
    ensures
        r@ == base_guess(name@, lower@),
{
    let low = chars_of(lower);
    let pattern = chars_of(" (track ");
    match find_text(low.as_slice(), pattern.as_slice()) {
        Some(i) => {
            let before = lower.substring_char(0, i);
            assert(before@ =~= lower@.take(i as int));
            match first_bytes(name, bytes_in(before)) {
                Some(base) => BaseGuess::Base(base),
                None => BaseGuess::Broken,
            }
        },
        None => BaseGuess::Nothing,
    }
}

/// What the name of a file tells, given the name and its stem in lower case.
pub fn mark_file(name: &str, lower_name: &str, lower_stem: &str) -> (r: FileMark)
    ensures
        r@ == mark_of(name@, lower_name@, lower_stem@),
{
    match file_kind(name) {
        FileKind::Bin => FileMark::Bin(guess_base(name, lower_name)),
        FileKind::Cue => {
            let cs = chars_of(name);
            let title = string_of(stem_of(cs.as_slice()));
            let low = chars_of(lower_stem);
            let low = low.as_slice();
            if bytes_in(title.as_str()) < 4 || reads_as(low, "cue") || reads_as(low, "disc")
                || reads_as(low, "track") || reads_as(low, "cd") {
                FileMark::Cue(None)
            } else {
                FileMark::Cue(Some(title))
            }
        },
        FileKind::Cdg => FileMark::Cdg,
        FileKind::Other => FileMark::Other,
    }
}

// ---------------------------------------------------------------------------
// What a folder holds
// ---------------------------------------------------------------------------

/// What a folder holds.
#[derive(Debug, PartialEq, Eq)]
pub struct ScanResult {
    pub bin_count: u32,
    pub cue_found: bool,
    pub cdg_found: bool,
    pub detected_base_name: Option<String>,
}

/// The mathematical content of a `ScanResult`.
#[verifier::ext_equal]
pub struct ScanModel {
    pub bin_count: int,
    pub cue_found: bool,
    pub cdg_found: bool,
    pub detected_base_name: Option<Seq<char>>,
}

/// The view of a text that may be missing.
pub open spec fn text_view(s: Option<String>) -> Option<Seq<char>> {
    match s {
        Some(t) => Some(t@),
        None => None,
    }
}

impl View for ScanResult {
    type V = ScanModel;

    open spec fn view(&self) -> ScanModel {
        ScanModel {
            bin_count: self.bin_count as int,
            cue_found: self.cue_found,
            cdg_found: self.cdg_found,
            detected_base_name: text_view(self.detected_base_name),
        }
    }
}

/// The number of `bin` files.
pub open spec fn bins_in(marks: Seq<MarkModel>) -> nat {
    marks.filter(|m: MarkModel| m is Bin).len()
}

/// The title of the last sheet that has one.
pub open spec fn last_title(marks: Seq<MarkModel>) -> Option<Seq<char>>
    decreases marks.len(),
{
    if marks.len() == 0 {
        None
    } else {
        match marks.last() {
            MarkModel::Cue(Some(title)) => Some(title),
            _ => last_title(marks.drop_last()),
        }
    }
}

/// The title in the name of the first `bin` file that has one.
pub open spec fn first_base(marks: Seq<MarkModel>) -> Option<Seq<char>>
    decreases marks.len(),
{
    if marks.len() == 0 {
        None
    } else {
        match first_base(marks.drop_last()) {
            Some(base) => Some(base),
            None => match marks.last() {
                MarkModel::Bin(GuessModel::Base(base)) => Some(base),
                _ => None,
            },
        }
    }
}

/// The title that the files tell: a sheet goes before a `bin` file.
pub open spec fn told_title(marks: Seq<MarkModel>) -> Option<Seq<char>> {
    match last_title(marks) {
        Some(title) => Some(title),
        None => first_base(marks),
    }
}

/// The title of a folder: what its files tell, or its own name.
pub open spec fn folder_title(marks: Seq<MarkModel>, folder_name: Option<Seq<char>>) -> Option<
    Seq<char>,
> {
    match (told_title(marks), folder_name) {
        (Some(title), _) => Some(title),
        (None, Some(name)) => if name.len() > 0 {
            Some(name)
        } else {
            None
        },
        (None, None) => None,
    }
}

/// What a folder of that name holds.
pub open spec fn summary(marks: Seq<MarkModel>, folder_name: Option<Seq<char>>) -> ScanModel {
    ScanModel {
        bin_count: bins_in(marks) as int,
        cue_found: exists|i: int| 0 <= i < marks.len() && (#[trigger] marks[i]) is Cue,
        cdg_found: exists|i: int| 0 <= i < marks.len() && (#[trigger] marks[i]) is Cdg,
        detected_base_name: folder_title(marks, folder_name),
    }
}

/// The name of a `bin` file that is needed for the title, because no file before it tells one,
/// cannot be parted where its lower case says.
pub open spec fn is_broken(marks: Seq<MarkModel>) -> bool {
    exists|i: int|
        0 <= i < marks.len() && #[trigger] marks[i] == MarkModel::Bin(GuessModel::Broken)
            && told_title(marks.take(i)) is None
}

/// A scan of the files comes to a result: the title can be parted from the name that it is taken
/// from, and the `bin` files can be counted in 32 bits.
pub open spec fn can_scan(marks: Seq<MarkModel>) -> bool {
    !is_broken(marks) && bins_in(marks) <= u32::MAX
}

/// One more file, and what it changes.
proof fn lemma_scan_step(marks: Seq<MarkModel>, i: int)
    requires
        0 <= i < marks.len(),
    ensures
        bins_in(marks.take(i + 1)) == bins_in(marks.take(i)) + (if marks[i] is Bin {
            1nat
        } else {
            0nat
        }),
        last_title(marks.take(i + 1)) == (match marks[i] {
            MarkModel::Cue(Some(title)) => Some(title),
            _ => last_title(marks.take(i)),
        }),
        first_base(marks.take(i + 1)) == (match (first_base(marks.take(i)), marks[i]) {
            (Some(base), _) => Some(base),
            (None, MarkModel::Bin(GuessModel::Base(base))) => Some(base),
            (None, _) => None,
        }),
{
    let next = marks.take(i + 1);
    assert(next.drop_last() =~= marks.take(i));
    assert(next.last() == marks[i]);
    reveal(Seq::filter);
}

/// The number of `bin` files only grows.
proof fn lemma_bins_grow(marks: Seq<MarkModel>, i: int)
    requires
        0 <= i <= marks.len(),
    ensures
        bins_in(marks.take(i)) <= bins_in(marks),
    decreases marks.len() - i,
{
    if i < marks.len() {
        lemma_scan_step(marks, i);
        lemma_bins_grow(marks, i + 1);
    } else {
        assert(marks.take(i) =~= marks);
    }
}

/// Sums up what the files of a folder tell.
pub fn scan_marks(marks: &Vec<FileMark>, folder_name: Option<String>) -> (r: ScanResult)
    requires
        can_scan(mark_models(marks@)),
    ensures
        r@ == summary(mark_models(marks@), text_view(folder_name)),
{
    let ghost all = mark_models(marks@);
    let mut bin_count: u32 = 0;
    let mut cue_found = false;
    let mut cdg_found = false;
    let mut detected: Option<String> = None;
    proof {
        assert(all.take(0) =~= seq![]);
        reveal(Seq::filter);
    }
    for i in 0..marks.len()
        invariant
            all == mark_models(marks@),
            can_scan(all),
            bin_count == bins_in(all.take(i as int)),
            cue_found == exists|k: int| 0 <= k < i && (#[trigger] all[k]) is Cue,
            cdg_found == exists|k: int| 0 <= k < i && (#[trigger] all[k]) is Cdg,
            text_view(detected) == told_title(all.take(i as int)),
    {
        proof {
            assert(all[i as int] == marks@[i as int]@);
            lemma_scan_step(all, i as int);
            lemma_bins_grow(all, i + 1);
        }
        match &marks[i] {
            FileMark::Bin(guess) => {
                bin_count += 1;
                if detected.is_none() {
                    if let BaseGuess::Base(base) = guess {
                        detected = Some(base.clone());
                    }
                }
            },
            FileMark::Cue(title) => {
                cue_found = true;
                if let Some(title) = title {
                    detected = Some(title.clone());
                }
            },
            FileMark::Cdg => {
                cdg_found = true;
            },
            FileMark::Other => {
            },
        }
    }
    assert(all.take(all.len() as int) =~= all);
    if detected.is_none() {
        if let Some(name) = folder_name {
            if !name.as_str().is_empty() {
                detected = Some(name);
            }
        }
    }
    ScanResult { bin_count, cue_found, cdg_found, detected_base_name: detected }
}

/// Tells whether a scan of the files comes to a result.
fn scannable(marks: &Vec<FileMark>) -> (b: bool)
    ensures
        b == can_scan(mark_models(marks@)),
{
    let ghost all = mark_models(marks@);
    let mut bins: usize = 0;
    let mut told = false;
    let mut broken = false;
    proof {
        assert(all.take(0) =~= seq![]);
        reveal(Seq::filter);
    }
    for i in 0..marks.len()
        invariant
            all == mark_models(marks@),
            bins == bins_in(all.take(i as int)),
            bins <= i,
            told == (told_title(all.take(i as int)) is Some),
            broken == exists|k: int|
                0 <= k < i && #[trigger] all[k] == MarkModel::Bin(GuessModel::Broken)
                    && told_title(all.take(k)) is None,
    {
        proof {
            assert(all[i as int] == marks@[i as int]@);
            lemma_scan_step(all, i as int);
        }
        match &marks[i] {
            FileMark::Bin(guess) => {
                bins += 1;
                match guess {
                    BaseGuess::Base(_) => {
                        told = true;
                    },
                    BaseGuess::Broken => {
                        if !told {
                            broken = true;
                        }
                    },
                    BaseGuess::Nothing => {
                    },
                }
            },
            FileMark::Cue(Some(_)) => {
                told = true;
            },
            _ => {
            },
        }
    }
    assert(all.take(all.len() as int) =~= all);
    !broken && bins as u64 <= u32::MAX as u64
}

/// What the names of a list tell.
fn mark_files(names: &Vec<String>) -> (r: Vec<FileMark>)
    ensures
        mark_models(r@) == marks_of(texts(names@)),
{
    let ghost all = marks_of(texts(names@));
    let mut marks: Vec<FileMark> = Vec::new();
    for i in 0..names.len()
        invariant
            all == marks_of(texts(names@)),
            marks@.len() == i,
            forall|k: int| 0 <= k < i ==> (#[trigger] marks@[k])@ == all[k],
    {
        let name = names[i].as_str();
        let cs = chars_of(name);
        let lower_name = to_lowercase(name);
        let lower_stem = to_lowercase(string_of(stem_of(cs.as_slice())).as_str());
        assert(texts(names@)[i as int] == names@[i as int]@);
        marks.push(mark_file(name, lower_name.as_str(), lower_stem.as_str()));
    }
    assert(mark_models(marks@) =~= all);
    marks
}

/// Looks over a folder. `is_dir` tells whether it is one, `listing` is what listing the names of
/// its files gave, and `folder_name` is its own name where it has one.
pub fn scan_folder(
    is_dir: bool,
    listing: &Result<Vec<String>, String>,
    folder_name: Option<String>,
) -> (r: Result<ScanResult, String>)
    requires
        is_dir && listing is Ok ==> can_scan(marks_of(texts(listing->Ok_0@))),
    ensures
        match (listing, r) {
            (Ok(names), Ok(found)) => is_dir && found@ == summary(
                marks_of(texts(names@)),
                text_view(folder_name),
            ),
            (Err(e), Err(msg)) => msg@ == (if is_dir {
                e@
            } else {
                "Not a valid directory"@
            }),
            (Ok(_), Err(msg)) => !is_dir && msg@ == "Not a valid directory"@,
            (Err(_), Ok(_)) => false,
        },
{
    if !is_dir {
        return Err("Not a valid directory".to_owned());
    }
    match listing {
        Ok(names) => {
            let marks = mark_files(names);
            Ok(scan_marks(&marks, folder_name))
        },
        Err(e) => Err(e.clone()),
    }
}

/// Looks over a folder as `scan_folder` does, or gives nothing where that comes to no result.
pub fn scan_folder_checked(
    is_dir: bool,
    listing: &Result<Vec<String>, String>,
    folder_name: Option<String>,
) -> (r: Option<Result<ScanResult, String>>)
    ensures
        match r {
            None => is_dir && listing is Ok && !can_scan(marks_of(texts(listing->Ok_0@))),
            Some(Ok(found)) => is_dir && listing is Ok && can_scan(
                marks_of(texts(listing->Ok_0@)),
            ) && found@ == summary(marks_of(texts(listing->Ok_0@)), text_view(folder_name)),
            Some(Err(msg)) => if is_dir {
                listing is Err && msg@ == listing->Err_0@
            } else {
                msg@ == "Not a valid directory"@
            },
        },
{
    if is_dir {
        if let Ok(names) = listing {
            let marks = mark_files(names);
            if !scannable(&marks) {
                return None;
            }
        }
    }
    Some(scan_folder(is_dir, listing, folder_name))
}

// ---------------------------------------------------------------------------
// Laws
// ---------------------------------------------------------------------------

/// The title can be read back from a name that starts with it and gives a track number. The lower
/// case of the title must be as long in bytes as the title, and with a blank after it, it must hold
/// no ` (track ` of its own.
pub proof fn law_title_of_track_name(base: Seq<char>, num: int, total: int, ext: Seq<char>)
    requires
        0 <= num,
        is_ascii_text(ext),
        byte_len(lower_text(base)) == byte_len(base),
        !occurs(lower_text(base) + " "@, " (track "@),
    ensures
        base_guess(
            base + " "@ + track_suffix(num, total) + ext,
            lower_text(base + " "@ + track_suffix(num, total) + ext),
        ) == GuessModel::Base(base),
{
    reveal_strlit(" ");
    reveal_strlit("(track ");
    reveal_strlit(" (track ");
    let pattern = " (track "@;
    let name = base + " "@ + track_suffix(num, total) + ext;
    let low = lemma_track_name_in_lower(base, num, total, ext);
    let lower = lower_text(name);
    let front = low + " "@;
    let at = low.len() as int;
    if occurs(front, pattern) {
        lemma_alike_occurs(front, lower_text(base) + " "@, pattern);
    }
    lemma_suffix_in_lower(num, total);
    assert(lower =~= front + "(track "@ + (track_digits(num, total) + ")"@ + lower_ascii_text(
        ext,
    )));
    assert(lower.subrange(at, at + 8) =~= pattern);
    assert forall|j: int| 0 <= j < at implies !occurs_at(lower, pattern, j) by {
        if occurs_at(lower, pattern, j) {
            let here = lower.subrange(j, j + 8);
            if j + 8 <= front.len() {
                assert(front.subrange(j, j + 8) =~= here);
                assert(occurs_at(front, pattern, j));
            } else {
                assert(here[at - j] == lower[at]);
                assert(here[at + 1 - j] == lower[at + 1]);
            }
        }
    }
    lemma_find_is(lower, pattern, at);
    assert(lower.take(at) =~= low);
    lemma_alike_bytes(low, lower_text(base));
    lemma_byte_prefix_is(name, base.len() as int);
    assert(name.take(base.len() as int) =~= base);
}

/// The title can be read back from the name of a track file.
pub proof fn law_title_of_track_file(base: Seq<char>, num: int, total: int)
    requires
        0 <= num,
        total != 1,
        byte_len(lower_text(base)) == byte_len(base),
        !occurs(lower_text(base) + " "@, " (track "@),
    ensures
        base_guess(
            track_file_name(base, num, total),
            lower_text(track_file_name(base, num, total)),
        ) == GuessModel::Base(base),
{
    reveal_strlit(".bin");
    law_title_of_track_name(base, num, total, ".bin"@);
}

/// The title that a sheet gives goes before the one that `bin` files give, and the name of the
/// folder comes last.
pub proof fn law_sheet_title_goes_first(marks: Seq<MarkModel>, folder_name: Option<Seq<char>>)
    ensures
        last_title(marks) is Some ==> summary(marks, folder_name).detected_base_name == last_title(
            marks,
        ),
        last_title(marks) is None && first_base(marks) is Some ==> summary(
            marks,
            folder_name,
        ).detected_base_name == first_base(marks),
        told_title(marks) is None && folder_name is Some && folder_name->0.len() > 0 ==> summary(
            marks,
            folder_name,
        ).detected_base_name == folder_name,
{
}

} // verus!
