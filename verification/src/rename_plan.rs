//! Carrying out a list of renames, with the sheet kept in step.
//!
//! A rename is a list of steps. Whoever carries them out stops at the first that fails.

use crate::casing::lower_text;
use crate::decimal::{decimal_two, decimal_two_string};
use crate::names::{extract_track_num, track_number};
use crate::order::{is_ranking, stable_sort, stable_sort_of, views};
use crate::rename::{compute_renames, previews, with_lower};
use crate::rename::{PreviewModel, RenamePreview};
use crate::text::{
    chars_of, concat2, concat3, concat4, contains_text, lemma_replaced_first, lemma_replaced_none,
    lemma_replaced_same, occurs, occurs_first_at, reads_as, replace_text, replaced, string_of, texts, trim, trimmed,
};
use vstd::prelude::*;
use vstd::string::StringExecFns;

verus! {

// ---------------------------------------------------------------------------
// The sheet after a rename
// ---------------------------------------------------------------------------

/// The text of a sheet with the old names of the `bin` files replaced by the new ones, one rename
/// after the other.
pub open spec fn updated(text: Seq<char>, renames: Seq<PreviewModel>) -> Seq<char>
    decreases renames.len(),
{
    if renames.len() == 0 {
        text
    } else {
        let before = updated(text, renames.drop_last());
        let r = renames.last();
        if r.kind == "bin"@ {
            replaced(before, r.old_name, r.new_name)
        } else {
            before
        }
    }
}

/// A file name with the number of its track.
#[derive(Debug, PartialEq, Eq)]
pub struct NumberedFile {
    pub name: String,
    pub num: u32,
}

impl View for NumberedFile {
    type V = (Seq<char>, u32);

    open spec fn view(&self) -> (Seq<char>, u32) {
        (self.name@, self.num)
    }
}

/// Files are listed by the numbers of their tracks.
pub open spec fn number_le(a: (Seq<char>, u32), b: (Seq<char>, u32)) -> bool {
    a.1 <= b.1
}

/// The lines for one file that holds an audio track from its start.
pub open spec fn fresh_entry(file: (Seq<char>, u32)) -> Seq<char> {
    "FILE \""@ + file.0 + "\" BINARY\n"@ + "  TRACK "@ + decimal_two(file.1 as int) + " AUDIO\n"@
        + "    INDEX 01 00:00:00\n"@
}

/// The sheet for files in the order of their tracks.
pub open spec fn fresh_cue(files: Seq<(Seq<char>, u32)>) -> Seq<char> {
    stable_sort_of(
        files,
        |a: (Seq<char>, u32), b: (Seq<char>, u32)| number_le(a, b),
    ).map_values(|f: (Seq<char>, u32)| fresh_entry(f)).flatten()
}

/// The new names of a list of renames, each with its track number; a name that tells no number
/// has the number 0.
pub open spec fn numbered(renames: Seq<PreviewModel>) -> Seq<(Seq<char>, u32)> {
    renames.map_values(
        |r: PreviewModel|
            (
                r.new_name,
                match track_number(lower_text(r.new_name)) {
                    Some(num) => num as u32,
                    None => 0u32,
                },
            ),
    )
}

/// Replaces the old names of the `bin` files in the text of a sheet by the new ones.
pub fn update_cue_content(content: &str, renames: &[RenamePreview]) -> (s: String)
    ensures
        s@ == updated(content@, views(renames@)),
{
    let ghost all = views(renames@);
    let mut text = chars_of(content);
    for i in 0..renames.len()
        invariant
            all == views(renames@),
            text@ == updated(content@, all.take(i as int)),
    {
        let r = &renames[i];
        proof {
            let next = all.take(i + 1);
            assert(next.drop_last() =~= all.take(i as int));
            assert(next.last() == r@);
        }
        if reads_as(chars_of(r.kind.as_str()).as_slice(), "bin") {
            let old = chars_of(r.old_name.as_str());
            let new = chars_of(r.new_name.as_str());
            text = replace_text(text.as_slice(), old.as_slice(), new.as_slice());
        }
    }
    assert(all.take(all.len() as int) =~= all);
    string_of(text.as_slice())
}

fn number_not_after(a: &NumberedFile, b: &NumberedFile) -> (r: bool)
    ensures
        r == number_le(a@, b@),
{
    a.num <= b.num
}

/// Writes the sheet for files whose track numbers are given.
pub fn fresh_cue_for(files: Vec<NumberedFile>) -> (s: String)
    ensures
        s@ == fresh_cue(views(files@)),
{
    let ghost le = |a: (Seq<char>, u32), b: (Seq<char>, u32)| number_le(a, b);
    assert(is_ranking(le));
    let sorted = stable_sort(files, number_not_after, Ghost(le));
    let ghost all = views(sorted@).map_values(|f: (Seq<char>, u32)| fresh_entry(f));
    let mut out = String::new();
    assert(all.take(0).flatten() =~= seq![]);
    for i in 0..sorted.len()
        invariant
            all == views(sorted@).map_values(|f: (Seq<char>, u32)| fresh_entry(f)),
            out@ == all.take(i as int).flatten(),
    {
        let file = concat3("FILE \"", sorted[i].name.as_str(), "\" BINARY\n");
        let track = concat4(
            "  TRACK ",
            decimal_two_string(sorted[i].num as u64).as_str(),
            " AUDIO\n",
            "    INDEX 01 00:00:00\n",
        );
        let entry = concat2(file.as_str(), track.as_str());
        assert(views(sorted@)[i as int] == sorted@[i as int]@);
        assert(entry@ =~= all[i as int]);
        proof {
            assert(all.take(i + 1) =~= all.take(i as int).push(all[i as int]));
            all.take(i as int).lemma_flatten_push(all[i as int]);
        }
        out.append(entry.as_str());
    }
    assert(all.take(all.len() as int) =~= all);
    out
}

/// Builds a new sheet with one file for each track from the list of renamed `bin` files. It is for
/// a folder whose sheet refers to files that are not there.
pub fn gen_fresh_multi_bin_cue(bin_renames: &[RenamePreview]) -> (s: String)
    ensures
        s@ == fresh_cue(numbered(views(bin_renames@))),
{
    let ghost all = numbered(views(bin_renames@));
    let mut files: Vec<NumberedFile> = Vec::new();
    for i in 0..bin_renames.len()
        invariant
            all == numbered(views(bin_renames@)),
            files@.len() == i,
            forall|k: int| 0 <= k < i ==> (#[trigger] files@[k])@ == all[k],
    {
        let name = &bin_renames[i].new_name;
        let num: u32 = match extract_track_num(name.as_str()) {
            Some(num) => num,
            None => 0,
        };
        assert(views(bin_renames@)[i as int] == bin_renames@[i as int]@);
        files.push(NumberedFile { name: name.clone(), num });
    }
    assert(views(files@) =~= all);
    fresh_cue_for(files)
}

// ---------------------------------------------------------------------------
// The steps of a rename
// ---------------------------------------------------------------------------

/// A step of a rename.
#[derive(Debug, PartialEq, Eq)]
pub enum RenameStep {
    /// Log a message.
    Log(String),
    /// Write a file of that name with that text.
    Write(String, String),
    /// Remove the file of that name.
    Remove(String),
    /// Rename the file of the first name to the second.
    Rename(String, String),
    /// Log a message and add it to the result.
    Report(String),
}

/// The mathematical content of a `RenameStep`.
pub enum RenameStepModel {
    Log(Seq<char>),
    Write(Seq<char>, Seq<char>),
    Remove(Seq<char>),
    Rename(Seq<char>, Seq<char>),
    Report(Seq<char>),
}

impl View for RenameStep {
    type V = RenameStepModel;

    open spec fn view(&self) -> RenameStepModel {
        match self {
            RenameStep::Log(msg) => RenameStepModel::Log(msg@),
            RenameStep::Write(name, text) => RenameStepModel::Write(name@, text@),
            RenameStep::Remove(name) => RenameStepModel::Remove(name@),
            RenameStep::Rename(old_name, new_name) => RenameStepModel::Rename(old_name@, new_name@),
            RenameStep::Report(msg) => RenameStepModel::Report(msg@),
        }
    }
}

/// The first rename of a sheet.
pub open spec fn first_sheet(renames: Seq<PreviewModel>) -> Option<int>
    decreases renames.len(),
{
    if renames.len() == 0 {
        None
    } else if renames[0].kind == "cue"@ {
        Some(0)
    } else {
        match first_sheet(renames.skip(1)) {
            Some(i) => Some(i + 1),
            None => None,
        }
    }
}

/// The renames of `bin` files.
pub open spec fn bin_renames(renames: Seq<PreviewModel>) -> Seq<PreviewModel> {
    renames.filter(|r: PreviewModel| r.kind == "bin"@)
}

/// The text of a sheet names one of the `bin` files.
pub open spec fn names_a_bin(text: Seq<char>, renames: Seq<PreviewModel>) -> bool {
    exists|k: int|
        0 <= k < renames.len() && (#[trigger] renames[k]).kind == "bin"@ && occurs(
            text,
            renames[k].old_name,
        )
}

/// A sheet that names none of several `bin` files is of no use and is written anew.
pub open spec fn is_stale(text: Seq<char>, renames: Seq<PreviewModel>) -> bool {
    !names_a_bin(text, renames) && bin_renames(renames).len() > 1
}

/// The message for one rename.
pub open spec fn rename_message(r: PreviewModel) -> Seq<char> {
    "  "@ + r.old_name + " → "@ + r.new_name
}

/// The rename at position `i` leaves the path of its file: the name stays, or `same_path` tells that
/// the two names are one path.
pub open spec fn stays(renames: Seq<PreviewModel>, same_path: Seq<bool>, i: int) -> bool {
    renames[i].old_name == renames[i].new_name || same_path[i]
}

/// The steps for the sheet at position `i`, whose text is `text`.
pub open spec fn sheet_steps(
    renames: Seq<PreviewModel>,
    same_path: Seq<bool>,
    i: int,
    text: Seq<char>,
) -> Seq<RenameStepModel> {
    let sheet = renames[i];
    (if is_stale(text, renames) {
        seq![
            RenameStepModel::Log(
                "  CUE references unknown filenames — regenerating from actual files"@,
            ),
            RenameStepModel::Write(sheet.new_name, fresh_cue(numbered(bin_renames(renames)))),
        ]
    } else {
        seq![RenameStepModel::Write(sheet.new_name, updated(text, renames))]
    }) + (if stays(renames, same_path, i) {
        seq![]
    } else {
        seq![RenameStepModel::Remove(sheet.old_name)]
    }) + seq![RenameStepModel::Report(rename_message(sheet))]
}

/// The steps for the files from position `i` on that are no sheets and whose path changes.
pub open spec fn file_steps(
    renames: Seq<PreviewModel>,
    same_path: Seq<bool>,
    i: int,
) -> Seq<RenameStepModel>
    decreases renames.len() - i,
{
    if 0 <= i < renames.len() {
        let r = renames[i];
        (if r.kind == "cue"@ || stays(renames, same_path, i) {
            seq![]
        } else {
            seq![
                RenameStepModel::Rename(r.old_name, r.new_name),
                RenameStepModel::Report(rename_message(r)),
            ]
        }) + file_steps(renames, same_path, i + 1)
    } else {
        seq![]
    }
}

/// The steps of a rename: the sheet first, while its text still names the old files.
pub open spec fn rename_steps(
    renames: Seq<PreviewModel>,
    same_path: Seq<bool>,
    text: Seq<char>,
) -> Seq<RenameStepModel> {
    (match first_sheet(renames) {
        Some(i) => sheet_steps(renames, same_path, i, text),
        None => seq![],
    }) + file_steps(renames, same_path, 0)
}

/// The first rename of a sheet is at `at`, or there is none.
pub proof fn lemma_first_sheet_is(renames: Seq<PreviewModel>, at: int)
    requires
        0 <= at <= renames.len(),
        at < renames.len() ==> renames[at].kind == "cue"@,
        forall|j: int| 0 <= j < at ==> (#[trigger] renames[j]).kind != "cue"@,
    ensures
        first_sheet(renames) == (if at < renames.len() {
            Some(at)
        } else {
            None
        }),
    decreases renames.len(),
{
    if at > 0 {
        assert(renames[0].kind != "cue"@);
        let rest = renames.skip(1);
        assert forall|j: int| 0 <= j < at - 1 implies (#[trigger] rest[j]).kind != "cue"@ by {
            assert(renames[j + 1].kind != "cue"@);
        }
        if at < renames.len() {
            assert(rest[at - 1] == renames[at]);
        }
        lemma_first_sheet_is(rest, at - 1);
    }
}

/// The position of the rename of the sheet, whose text a rename needs.
pub fn sheet_to_read(renames: &Vec<RenamePreview>) -> (r: Option<usize>)
    ensures
        match r {
            Some(i) => i < renames@.len() && first_sheet(views(renames@)) == Some(i as int),
            None => first_sheet(views(renames@)) is None,
        },
{
    let ghost all = views(renames@);
    for i in 0..renames.len()
        invariant
            all == views(renames@),
            forall|j: int| 0 <= j < i ==> (#[trigger] all[j]).kind != "cue"@,
    {
        assert(all[i as int] == renames@[i as int]@);
        if reads_as(chars_of(renames[i].kind.as_str()).as_slice(), "cue") {
            proof {
                lemma_first_sheet_is(all, i as int);
            }
            return Some(i);
        }
    }
    proof {
        lemma_first_sheet_is(all, all.len() as int);
    }
    None
}

/// Lists the renames that a rename of a folder carries out, for a title that the user gave.
pub fn renames_to_do(listing: &Result<Vec<String>, String>, base_name: &str) -> (r: Result<
    Vec<RenamePreview>,
    String,
>)
    ensures
        match (listing, r) {
            (Ok(names), Ok(list)) => views(list@) == previews(
                with_lower(texts(names@)),
                trim(base_name@),
            ),
            (Err(e), Err(msg)) => msg@ == "Cannot read folder: "@ + e@,
            _ => false,
        },
{
    let base = trimmed(base_name);
    compute_renames(listing, base.as_str())
}

/// Copies of the renames of `bin` files.
fn copy_bin_renames(renames: &Vec<RenamePreview>) -> (r: Vec<RenamePreview>)
    ensures
        views(r@) == bin_renames(views(renames@)),
{
    let ghost all = views(renames@);
    let ghost pred = |r: PreviewModel| r.kind == "bin"@;
    let mut out: Vec<RenamePreview> = Vec::new();
    assert(all.take(0).filter(pred) =~= seq![]) by {
        reveal(Seq::filter);
    }
    for i in 0..renames.len()
        invariant
            all == views(renames@),
            pred == (|r: PreviewModel| r.kind == "bin"@),
            views(out@) == all.take(i as int).filter(pred),
    {
        let r = &renames[i];
        let ghost before = views(out@);
        proof {
            let next = all.take(i + 1);
            assert(next.drop_last() =~= all.take(i as int));
            assert(next.last() == r@);
            reveal(Seq::filter);
        }
        if reads_as(chars_of(r.kind.as_str()).as_slice(), "bin") {
            let copy = RenamePreview {
                old_name: r.old_name.clone(),
                new_name: r.new_name.clone(),
                kind: r.kind.clone(),
            };
            assert(views(out@.push(copy)) =~= before.push(copy@));
            out.push(copy);
        }
    }
    assert(all.take(all.len() as int) =~= all);
    out
}

/// Tells whether the text of a sheet names one of the `bin` files.
fn mentions_a_bin(text: &str, renames: &Vec<RenamePreview>) -> (b: bool)
    ensures
        b == names_a_bin(text@, views(renames@)),
{
    let ghost all = views(renames@);
    let cs = chars_of(text);
    for i in 0..renames.len()
        invariant
            all == views(renames@),
            cs@ == text@,
            forall|k: int|
                0 <= k < i ==> !((#[trigger] all[k]).kind == "bin"@ && occurs(
                    text@,
                    all[k].old_name,
                )),
    {
        assert(all[i as int] == renames@[i as int]@);
        if reads_as(chars_of(renames[i].kind.as_str()).as_slice(), "bin") && contains_text(
            cs.as_slice(),
            renames[i].old_name.as_str(),
        ) {
            return true;
        }
    }
    false
}

fn message_for(r: &RenamePreview) -> (s: String)
    ensures
        s@ == rename_message(r@),
{
    concat4("  ", r.old_name.as_str(), " → ", r.new_name.as_str())
}

/// Plans a rename. `same_path` tells for each rename whether its old and its new name are one path;
/// equal names are one path in any case. `sheet_text` is what reading the sheet that `sheet_to_read`
/// names gave; without a sheet it is not looked at.
pub fn do_rename(
    renames: &Vec<RenamePreview>,
    same_path: &Vec<bool>,
    sheet_text: &Result<String, String>,
) -> (r: Result<Vec<RenameStep>, String>)
    requires
        same_path@.len() == renames@.len(),
    ensures
        match r {
            Ok(steps) => {
                &&& first_sheet(views(renames@)) is Some ==> sheet_text is Ok
                &&& views(steps@) == rename_steps(
                    views(renames@),
                    same_path@,
                    sheet_text->Ok_0@,
                )
            },
            Err(msg) => {
                &&& first_sheet(views(renames@)) is Some
                &&& sheet_text is Err
                &&& msg@ == "Cannot read "@ + views(
                    renames@,
                )[first_sheet(views(renames@))->0].old_name + ": "@ + sheet_text->Err_0@
            },
        },
{
    let ghost all = views(renames@);
    let ghost same = same_path@;
    let mut steps: Vec<RenameStep> = Vec::new();
    if let Some(i) = sheet_to_read(renames) {
        let sheet = &renames[i];
        assert(all[i as int] == sheet@);
        let text = match sheet_text {
            Ok(text) => text,
            Err(e) => {
                return Err(
                    concat4("Cannot read ", sheet.old_name.as_str(), ": ", e.as_str()),
                );
            },
        };
        let bins = copy_bin_renames(renames);
        if !mentions_a_bin(text.as_str(), renames) && bins.len() > 1 {
            steps.push(
                RenameStep::Log(
                    "  CUE references unknown filenames — regenerating from actual files".to_owned(),
                ),
            );
            steps.push(
                RenameStep::Write(
                    sheet.new_name.clone(),
                    gen_fresh_multi_bin_cue(bins.as_slice()),
                ),
            );
        } else {
            steps.push(
                RenameStep::Write(
                    sheet.new_name.clone(),
                    update_cue_content(text.as_str(), renames.as_slice()),
                ),
            );
        }
        if sheet.old_name != sheet.new_name && !same_path[i] {
            steps.push(RenameStep::Remove(sheet.old_name.clone()));
        }
        steps.push(RenameStep::Report(message_for(sheet)));
        assert(views(steps@) =~= sheet_steps(all, same, i as int, text@));
    }
    let ghost first = views(steps@);
    assert(first =~= (match first_sheet(all) {
        Some(i) => sheet_steps(all, same, i, sheet_text->Ok_0@),
        None => seq![],
    }));
    for i in 0..renames.len()
        invariant
            all == views(renames@),
            same == same_path@,
            same_path@.len() == renames@.len(),
            views(steps@) + file_steps(all, same, i as int) == first + file_steps(all, same, 0),
    {
        let r = &renames[i];
        let ghost before = views(steps@);
        assert(all[i as int] == r@);
        if !reads_as(chars_of(r.kind.as_str()).as_slice(), "cue") && r.old_name != r.new_name
            && !same_path[i] {
            steps.push(RenameStep::Rename(r.old_name.clone(), r.new_name.clone()));
            steps.push(RenameStep::Report(message_for(r)));
        }
        assert(views(steps@) + file_steps(all, same, i + 1) =~= before + file_steps(
            all,
            same,
            i as int,
        ));
    }
    assert(views(steps@) =~= first + file_steps(all, same, 0));
    Ok(steps)
}

/// The error of a rename whose step failed for the reason `e`. A step that only logs or reports
/// cannot fail; the reason stands for itself there.
pub fn rename_failure(step: &RenameStep, e: &str) -> (msg: String)
    ensures
        msg@ == (match step@ {
            RenameStepModel::Write(name, _) => "Cannot write "@ + name + ": "@ + e@,
            RenameStepModel::Remove(name) => "Cannot remove "@ + name + ": "@ + e@,
            RenameStepModel::Rename(old_name, _) => "Cannot rename "@ + old_name + ": "@ + e@,
            _ => e@,
        }),
{
    match step {
        RenameStep::Write(name, _) => concat4("Cannot write ", name.as_str(), ": ", e),
        RenameStep::Remove(name) => concat4("Cannot remove ", name.as_str(), ": ", e),
        RenameStep::Rename(old_name, _) => concat4("Cannot rename ", old_name.as_str(), ": ", e),
        _ => e.to_owned(),
    }
}

// ---------------------------------------------------------------------------
// Laws
// ---------------------------------------------------------------------------

/// A sheet that names none of the `bin` files is left as it is when its names are replaced.
pub proof fn law_update_leaves_other_text(text: Seq<char>, renames: Seq<PreviewModel>)
    requires
        !names_a_bin(text, renames),
    ensures
        updated(text, renames) == text,
    decreases renames.len(),
{
    if renames.len() > 0 {
        let before = renames.drop_last();
        assert forall|k: int| 0 <= k < before.len() implies !((#[trigger] before[k]).kind == "bin"@
            && occurs(text, before[k].old_name)) by {
            assert(before[k] == renames[k]);
        }
        law_update_leaves_other_text(text, before);
        let r = renames[renames.len() - 1];
        if r.kind == "bin"@ {
            lemma_replaced_none(text, r.old_name, r.new_name);
        }
    }
}

/// Where a sheet names a renamed `bin` file, the new name stands in the place of the old one, and
/// what stands before it stays.
pub proof fn law_update_puts_new_name(text: Seq<char>, r: PreviewModel, i: int)
    requires
        r.kind == "bin"@,
        r.old_name.len() > 0,
        occurs_first_at(text, r.old_name, i),
    ensures
        updated(text, seq![r]) == text.take(i) + r.new_name + updated(
            text.skip(i + r.old_name.len()),
            seq![r],
        ),
{
    let rest = text.skip(i + r.old_name.len());
    assert(seq![r].drop_last() =~= seq![]);
    assert(updated(text, seq![]) == text && updated(rest, seq![]) == rest);
    lemma_replaced_first(text, r.old_name, r.new_name, i);
}

/// Renames that keep the names of the `bin` files leave the text of every sheet as it is.
pub proof fn law_same_names_leave_sheet(text: Seq<char>, renames: Seq<PreviewModel>)
    requires
        forall|k: int|
            0 <= k < renames.len() && (#[trigger] renames[k]).kind == "bin"@ ==> renames[k].new_name
                == renames[k].old_name,
    ensures
        updated(text, renames) == text,
    decreases renames.len(),
{
    if renames.len() > 0 {
        let before = renames.drop_last();
        assert forall|k: int|
            0 <= k < before.len() && (#[trigger] before[k]).kind == "bin"@ implies before[k].new_name
            == before[k].old_name by {
            assert(before[k] == renames[k]);
        }
        law_same_names_leave_sheet(text, before);
        let r = renames[renames.len() - 1];
        if r.kind == "bin"@ {
            lemma_replaced_same(text, r.old_name);
        }
    }
}

/// The rename at position `k` moves a file.
pub open spec fn moves_file(
    renames: Seq<PreviewModel>,
    same_path: Seq<bool>,
    k: int,
) -> bool {
    0 <= k < renames.len() && renames[k].kind != "cue"@ && !stays(renames, same_path, k)
}

/// What the steps for the files from position `i` on are: those that move a file, each followed by
/// its report.
pub proof fn lemma_file_steps(renames: Seq<PreviewModel>, same_path: Seq<bool>, i: int)
    requires
        0 <= i <= renames.len(),
    ensures
        forall|k: int|
            i <= k && #[trigger] moves_file(renames, same_path, k) ==> file_steps(
                renames,
                same_path,
                i,
            ).contains(RenameStepModel::Rename(renames[k].old_name, renames[k].new_name)),
        forall|j: int|
            0 <= j < file_steps(renames, same_path, i).len() ==> match #[trigger] file_steps(
                renames,
                same_path,
                i,
            )[j] {
                RenameStepModel::Rename(old_name, new_name) => exists|k: int|
                    i <= k && #[trigger] moves_file(renames, same_path, k) && old_name
                        == renames[k].old_name && new_name == renames[k].new_name,
                RenameStepModel::Report(_) => true,
                _ => false,
            },
    decreases renames.len() - i,
{
    if i < renames.len() {
        let steps = file_steps(renames, same_path, i);
        let rest = file_steps(renames, same_path, i + 1);
        let head = steps.len() - rest.len();
        let own = RenameStepModel::Rename(renames[i].old_name, renames[i].new_name);
        lemma_file_steps(renames, same_path, i + 1);
        assert(steps.skip(head) =~= rest);
        assert forall|k: int| i <= k && #[trigger] moves_file(renames, same_path, k) implies steps.contains(
            RenameStepModel::Rename(renames[k].old_name, renames[k].new_name),
        ) by {
            let step = RenameStepModel::Rename(renames[k].old_name, renames[k].new_name);
            if k == i {
                assert(steps[0] == own);
            } else {
                assert(rest.contains(step));
                let j = choose|j: int| 0 <= j < rest.len() && rest[j] == step;
                assert(steps[j + head] == step);
            }
        }
        assert forall|j: int| 0 <= j < steps.len() implies match #[trigger] steps[j] {
            RenameStepModel::Rename(old_name, new_name) => exists|k: int|
                i <= k && #[trigger] moves_file(renames, same_path, k) && old_name
                    == renames[k].old_name && new_name == renames[k].new_name,
            RenameStepModel::Report(_) => true,
            _ => false,
        } by {
            if j < head {
                assert(moves_file(renames, same_path, i));
            } else {
                assert(steps[j] == rest[j - head]);
            }
        }
    }
}

/// A rename moves exactly the files that the list of renames shows under another name and path, each
/// to the name shown there.
pub proof fn law_rename_does_what_is_shown(
    renames: Seq<PreviewModel>,
    same_path: Seq<bool>,
    text: Seq<char>,
)
    requires
        same_path.len() == renames.len(),
    ensures
        forall|k: int| #[trigger]
            moves_file(renames, same_path, k) ==> rename_steps(renames, same_path, text).contains(
                RenameStepModel::Rename(renames[k].old_name, renames[k].new_name),
            ),
        forall|old_name: Seq<char>, new_name: Seq<char>| #[trigger]
            rename_steps(renames, same_path, text).contains(
                RenameStepModel::Rename(old_name, new_name),
            ) ==> exists|k: int| #[trigger]
                moves_file(renames, same_path, k) && old_name == renames[k].old_name && new_name
                    == renames[k].new_name,
{
    let steps = rename_steps(renames, same_path, text);
    let files = file_steps(renames, same_path, 0);
    let head = steps.len() - files.len();
    lemma_file_steps(renames, same_path, 0);
    assert forall|k: int| #[trigger] moves_file(renames, same_path, k) implies steps.contains(
        RenameStepModel::Rename(renames[k].old_name, renames[k].new_name),
    ) by {
        let step = RenameStepModel::Rename(renames[k].old_name, renames[k].new_name);
        let j = choose|j: int| 0 <= j < files.len() && files[j] == step;
        assert(steps[head + j] == step);
    }
    assert forall|old_name: Seq<char>, new_name: Seq<char>| #[trigger]
        steps.contains(RenameStepModel::Rename(old_name, new_name)) implies exists|k: int| #[trigger]
        moves_file(renames, same_path, k) && old_name == renames[k].old_name && new_name
            == renames[k].new_name by {
        let step = RenameStepModel::Rename(old_name, new_name);
        let j = choose|j: int| 0 <= j < steps.len() && steps[j] == step;
        if j >= head {
            assert(files[j - head] == step);
        }
    }
}

/// Each report among the steps for the files from position `i` on follows the move that it is of.
proof fn lemma_file_reports(renames: Seq<PreviewModel>, same_path: Seq<bool>, i: int, j: int)
    requires
        0 <= i <= renames.len(),
        0 <= j < file_steps(renames, same_path, i).len(),
    ensures
        match file_steps(renames, same_path, i)[j] {
            RenameStepModel::Rename(old_name, new_name) => old_name != new_name,
            RenameStepModel::Report(msg) => j > 0 && reports_move(
                file_steps(renames, same_path, i)[j - 1],
                msg,
            ),
            _ => false,
        },
    decreases renames.len() - i,
{
    if i < renames.len() {
        let steps = file_steps(renames, same_path, i);
        let rest = file_steps(renames, same_path, i + 1);
        let head = steps.len() - rest.len();
        assert(steps.skip(head) =~= rest);
        if j >= head {
            lemma_file_reports(renames, same_path, i + 1, j - head);
            assert(steps[j] == rest[j - head]);
            if j > head {
                assert(steps[j - 1] == rest[j - 1 - head]);
            }
        }
    }
}

/// A message reports a step that moves a file to another name.
pub open spec fn reports_move(step: RenameStepModel, msg: Seq<char>) -> bool {
    match step {
        RenameStepModel::Rename(old_name, new_name) => old_name != new_name && msg == "  "@
            + old_name + " → "@ + new_name,
        _ => false,
    }
}

/// A file whose name stays is neither moved nor reported. Every move is to another name, and every
/// report is that of the sheet or directly follows the move that it is of. A sheet whose name stays
/// is not removed.
pub proof fn law_kept_names_are_left_alone(
    renames: Seq<PreviewModel>,
    same_path: Seq<bool>,
    text: Seq<char>,
    j: int,
)
    requires
        same_path.len() == renames.len(),
        0 <= j < rename_steps(renames, same_path, text).len(),
    ensures
        match rename_steps(renames, same_path, text)[j] {
            RenameStepModel::Rename(old_name, new_name) => old_name != new_name,
            RenameStepModel::Report(msg) => {
                ||| first_sheet(renames) matches Some(i) && j == sheet_steps(
                    renames,
                    same_path,
                    i,
                    text,
                ).len() - 1 && msg == rename_message(renames[i])
                ||| j > 0 && reports_move(rename_steps(renames, same_path, text)[j - 1], msg)
            },
            RenameStepModel::Remove(name) => first_sheet(renames) matches Some(i) && name
                == renames[i].old_name && name != renames[i].new_name,
            _ => true,
        },
{
    let steps = rename_steps(renames, same_path, text);
    let files = file_steps(renames, same_path, 0);
    let head = steps.len() - files.len();
    if j >= head {
        lemma_file_reports(renames, same_path, 0, j - head);
        assert(steps[j] == files[j - head]);
        if j > head {
            assert(steps[j - 1] == files[j - 1 - head]);
        }
    }
}

/// The sheet is written, and the old one removed, before any file moves.
pub proof fn law_sheet_goes_first(
    renames: Seq<PreviewModel>,
    same_path: Seq<bool>,
    text: Seq<char>,
    i: int,
    j: int,
)
    requires
        same_path.len() == renames.len(),
        0 <= i < j < rename_steps(renames, same_path, text).len(),
        rename_steps(renames, same_path, text)[i] is Rename,
    ensures
        !(rename_steps(renames, same_path, text)[j] is Write),
        !(rename_steps(renames, same_path, text)[j] is Remove),
{
    let steps = rename_steps(renames, same_path, text);
    let files = file_steps(renames, same_path, 0);
    let head = steps.len() - files.len();
    lemma_file_steps(renames, same_path, 0);
    assert(i >= head);
    assert(steps[j] == files[j - head]);
}

} // verus!
