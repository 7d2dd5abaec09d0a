//! What holds of all renaming: what becomes of the sheet, and which files move.

use crate::casing::lower_text;
use crate::decimal::decimal_two;
use crate::names::track_number;
use crate::order::{is_ranking, law_neighbours_may_change_places, law_sorted_list_stays};
use crate::rename::PreviewModel;
use crate::rename_plan::{
    bin_renames, file_steps, fresh_cue, fresh_entry, lemma_file_steps, lemma_first_sheet_is,
    number_le, numbered, rename_steps, sheet_steps, updated,
};
use crate::rename_plan::RenameStepModel;
use crate::text::{occurs, replaced};
use vstd::prelude::*;

verus! {

/// The list renames two `bin` files at least.
pub open spec fn renames_several_bins(renames: Seq<PreviewModel>) -> bool {
    exists|p: int, q: int|
        0 <= p < q < renames.len() && (#[trigger] renames[p]).kind == "bin"@ && (
        #[trigger] renames[q]).kind == "bin"@
}

proof fn lemma_several_bins(renames: Seq<PreviewModel>)
    ensures
        bin_renames(renames).len() > 1 <==> renames_several_bins(renames),
        bin_renames(renames).len() > 0 <==> exists|p: int|
            0 <= p < renames.len() && (#[trigger] renames[p]).kind == "bin"@,
    decreases renames.len(),
{
    reveal(Seq::filter);
    let pred = |r: PreviewModel| r.kind == "bin"@;
    if renames.len() > 0 {
        let less = renames.drop_last();
        let n = less.len() as int;
        lemma_several_bins(less);
        assert(forall|p: int| 0 <= p < n ==> #[trigger] less[p] == renames[p]);
        assert(bin_renames(renames).len() == bin_renames(less).len() + if pred(renames[n]) {
            1int
        } else {
            0
        });
        if bin_renames(less).len() > 0 {
            let p = choose|p: int| 0 <= p < less.len() && (#[trigger] less[p]).kind == "bin"@;
            assert(renames[p].kind == "bin"@);
        }
        if renames_several_bins(less) {
            let (p, q) = choose|p: int, q: int|
                0 <= p < q < less.len() && (#[trigger] less[p]).kind == "bin"@ && (
                #[trigger] less[q]).kind == "bin"@;
            assert(renames[p].kind == "bin"@ && renames[q].kind == "bin"@);
        }
        if renames_several_bins(renames) {
            let (p, q) = choose|p: int, q: int|
                0 <= p < q < renames.len() && (#[trigger] renames[p]).kind == "bin"@ && (
                #[trigger] renames[q]).kind == "bin"@;
            assert(less[p].kind == "bin"@);
            if q < n {
                assert(less[q].kind == "bin"@);
            }
        }
        if exists|p: int| 0 <= p < renames.len() && (#[trigger] renames[p]).kind == "bin"@ {
            let p = choose|p: int| 0 <= p < renames.len() && (#[trigger] renames[p]).kind == "bin"@;
            if p < n {
                assert(less[p].kind == "bin"@);
            }
        }
    } else {
        assert(bin_renames(renames).len() == 0);
    }
}

/// What becomes of the sheet, which is the first one in the list, at position `c`. Where its text
/// holds the old name of a `bin` file, however many there are, or where there are fewer than two of
/// them, the given text is written with the old names replaced by the new ones. A sheet is built
/// anew, and that is logged, exactly where the text holds none of the old names of two files or
/// more. One sheet is written; then the old one is removed where its path changes, and the rename
/// of the sheet is reported. The files follow.
pub proof fn law_what_becomes_of_the_sheet(
    renames: Seq<PreviewModel>,
    same_path: Seq<bool>,
    text: Seq<char>,
    c: int,
)
    requires
        same_path.len() == renames.len(),
        0 <= c < renames.len(),
        renames[c].kind == "cue"@,
        forall|j: int| 0 <= j < c ==> (#[trigger] renames[j]).kind != "cue"@,
    ensures
        ({
            let steps = rename_steps(renames, same_path, text);
            let sheet = renames[c];
            let kept = (exists|k: int|
                0 <= k < renames.len() && (#[trigger] renames[k]).kind == "bin"@ && occurs(
                    text,
                    renames[k].old_name,
                )) || !renames_several_bins(renames);
            let goes = sheet.old_name != sheet.new_name && !same_path[c];
            let w: int = if kept {
                0
            } else {
                1
            };
            let r: int = if goes {
                w + 2
            } else {
                w + 1
            };
            &&& r < steps.len()
            &&& !kept ==> steps[0] == RenameStepModel::Log(
                "  CUE references unknown filenames — regenerating from actual files"@,
            )
            &&& steps[w] == RenameStepModel::Write(
                sheet.new_name,
                if kept {
                    updated(text, renames)
                } else {
                    fresh_cue(numbered(bin_renames(renames)))
                },
            )
            &&& goes ==> steps[w + 1] == RenameStepModel::Remove(sheet.old_name)
            &&& steps[r] == RenameStepModel::Report(
                "  "@ + sheet.old_name + " → "@ + sheet.new_name,
            )
            &&& steps.skip(r + 1) == file_steps(renames, same_path, 0)
            &&& forall|j: int|
                0 <= j < steps.len() ==> {
                    &&& #[trigger] steps[j] is Write ==> j == w
                    &&& steps[j] is Log ==> j == 0 && !kept
                    &&& steps[j] is Remove ==> j == w + 1 && goes
                }
        }),
{
    let steps = rename_steps(renames, same_path, text);
    let files = file_steps(renames, same_path, 0);
    let head = sheet_steps(renames, same_path, c, text);
    lemma_first_sheet_is(renames, c);
    lemma_several_bins(renames);
    lemma_file_steps(renames, same_path, 0);
    assert(steps =~= head + files);
    assert(steps.skip(head.len() as int) =~= files);
    assert forall|j: int| head.len() <= j < steps.len() implies !(#[trigger] steps[j] is Write)
        && !(steps[j] is Log) && !(steps[j] is Remove) by {
        assert(steps[j] == files[j - head.len()]);
    }
}

/// Without a sheet in the list only files move.
pub proof fn law_rename_without_a_sheet(
    renames: Seq<PreviewModel>,
    same_path: Seq<bool>,
    text: Seq<char>,
)
    requires
        same_path.len() == renames.len(),
        forall|j: int| 0 <= j < renames.len() ==> (#[trigger] renames[j]).kind != "cue"@,
    ensures
        rename_steps(renames, same_path, text) == file_steps(renames, same_path, 0),
{
    lemma_first_sheet_is(renames, renames.len() as int);
    assert(rename_steps(renames, same_path, text) =~= file_steps(renames, same_path, 0));
}

/// One rename more moves one file more, behind those before it, and reports that; it does so only
/// for a file that is no sheet and whose name and path change.
pub proof fn law_one_more_file_moves(
    renames: Seq<PreviewModel>,
    same_path: Seq<bool>,
    r: PreviewModel,
    same: bool,
)
    requires
        same_path.len() == renames.len(),
    ensures
        file_steps(Seq::empty(), Seq::empty(), 0) == Seq::<RenameStepModel>::empty(),
        file_steps(renames.push(r), same_path.push(same), 0) == file_steps(renames, same_path, 0)
            + (if r.kind != "cue"@ && r.old_name != r.new_name && !same {
            seq![
                RenameStepModel::Rename(r.old_name, r.new_name),
                RenameStepModel::Report("  "@ + r.old_name + " → "@ + r.new_name),
            ]
        } else {
            seq![]
        }),
{
    lemma_one_more_file(renames, same_path, r, same, 0);
}

proof fn lemma_one_more_file(
    renames: Seq<PreviewModel>,
    same_path: Seq<bool>,
    r: PreviewModel,
    same: bool,
    i: int,
)
    requires
        same_path.len() == renames.len(),
        0 <= i <= renames.len(),
    ensures
        file_steps(renames.push(r), same_path.push(same), i) == file_steps(renames, same_path, i)
            + (if r.kind != "cue"@ && r.old_name != r.new_name && !same {
            seq![
                RenameStepModel::Rename(r.old_name, r.new_name),
                RenameStepModel::Report("  "@ + r.old_name + " → "@ + r.new_name),
            ]
        } else {
            seq![]
        }),
    decreases renames.len() - i,
{
    let more = renames.push(r);
    let paths = same_path.push(same);
    let own = if r.kind != "cue"@ && r.old_name != r.new_name && !same {
        seq![
            RenameStepModel::Rename(r.old_name, r.new_name),
            RenameStepModel::Report("  "@ + r.old_name + " → "@ + r.new_name),
        ]
    } else {
        seq![]
    };
    if i < renames.len() {
        lemma_one_more_file(renames, same_path, r, same, i + 1);
        assert(more[i] == renames[i] && paths[i] == same_path[i]);
    } else {
        assert(more[i] == r && paths[i] == same);
        assert(file_steps(more, paths, i + 1) =~= seq![]);
    }
    assert(file_steps(more, paths, i) =~= file_steps(renames, same_path, i) + own);
}

/// The text of a sheet is updated one rename after the other, and renames of `bin` files alone
/// count.
pub proof fn law_text_is_updated_one_by_one(
    text: Seq<char>,
    renames: Seq<PreviewModel>,
    r: PreviewModel,
)
    ensures
        updated(text, Seq::empty()) == text,
        updated(text, renames.push(r)) == (if r.kind == "bin"@ {
            replaced(updated(text, renames), r.old_name, r.new_name)
        } else {
            updated(text, renames)
        }),
{
    assert(renames.push(r).drop_last() =~= renames);
    assert(renames.push(r).last() == r);
}

/// A sheet that is built anew names the `bin` files of the list, each by its new name and with the
/// number in it, or 0 where there is none.
pub proof fn law_files_of_a_fresh_sheet(renames: Seq<PreviewModel>, r: PreviewModel)
    ensures
        numbered(bin_renames(Seq::empty())) == Seq::<(Seq<char>, u32)>::empty(),
        numbered(bin_renames(renames.push(r))) == (if r.kind == "bin"@ {
            numbered(bin_renames(renames)).push(
                (
                    r.new_name,
                    match track_number(lower_text(r.new_name)) {
                        Some(num) => num as u32,
                        None => 0,
                    },
                ),
            )
        } else {
            numbered(bin_renames(renames))
        }),
{
    reveal(Seq::filter);
    let more = renames.push(r);
    assert(more.drop_last() =~= renames);
    assert(more.last() == r);
    let none = Seq::<PreviewModel>::empty();
    assert(bin_renames(none) =~= seq![]);
    assert(numbered(bin_renames(none)) =~= seq![]);
    if r.kind == "bin"@ {
        assert(bin_renames(more) =~= bin_renames(renames).push(r));
    } else {
        assert(bin_renames(more) =~= bin_renames(renames));
    }
    assert(numbered(bin_renames(more)) =~= if r.kind == "bin"@ {
        numbered(bin_renames(renames)).push(
            (
                r.new_name,
                match track_number(lower_text(r.new_name)) {
                    Some(num) => num as u32,
                    None => 0,
                },
            ),
        )
    } else {
        numbered(bin_renames(renames))
    });
}

proof fn lemma_number_ranking()
    ensures
        is_ranking(|a: (Seq<char>, u32), b: (Seq<char>, u32)| number_le(a, b)),
{
}

/// The text of a sheet that is built anew: for files in the order of their numbers, one entry
/// after the other.
pub proof fn law_text_of_a_fresh_sheet(files: Seq<(Seq<char>, u32)>, file: (Seq<char>, u32))
    requires
        forall|i: int, j: int|
            0 <= i < j < files.len() ==> (#[trigger] files[i]).1 <= (#[trigger] files[j]).1,
        forall|i: int| 0 <= i < files.len() ==> (#[trigger] files[i]).1 <= file.1,
    ensures
        fresh_cue(Seq::empty()) == Seq::<char>::empty(),
        fresh_cue(files.push(file)) == fresh_cue(files) + ("FILE \""@ + file.0 + "\" BINARY\n"@
            + "  TRACK "@ + decimal_two(file.1 as int) + " AUDIO\n"@ + "    INDEX 01 00:00:00\n"@),
{
    let le = |a: (Seq<char>, u32), b: (Seq<char>, u32)| number_le(a, b);
    let entry = |f: (Seq<char>, u32)| fresh_entry(f);
    let none = Seq::<(Seq<char>, u32)>::empty();
    let more = files.push(file);
    lemma_number_ranking();
    assert forall|i: int, j: int| 0 <= i < j < more.len() implies le(
        #[trigger] more[i],
        #[trigger] more[j],
    ) by {
        assert(more[i] == files[i]);
        if j < files.len() {
            assert(more[j] == files[j]);
        }
    }
    assert forall|i: int, j: int| 0 <= i < j < files.len() implies le(
        #[trigger] files[i],
        #[trigger] files[j],
    ) by {}
    law_sorted_list_stays(none, le);
    law_sorted_list_stays(files, le);
    law_sorted_list_stays(more, le);
    assert(none.map_values(entry) =~= seq![]);
    assert(more.map_values(entry) =~= files.map_values(entry).push(entry(file)));
    files.map_values(entry).lemma_flatten_push(entry(file));
}

/// The order in which files with different numbers are listed does not matter for that text.
pub proof fn law_fresh_sheet_is_in_order_of_numbers(
    front: Seq<(Seq<char>, u32)>,
    a: (Seq<char>, u32),
    b: (Seq<char>, u32),
    rest: Seq<(Seq<char>, u32)>,
)
    requires
        a.1 != b.1,
    ensures
        fresh_cue(front + seq![a, b] + rest) == fresh_cue(front + seq![b, a] + rest),
{
    let le = |x: (Seq<char>, u32), y: (Seq<char>, u32)| number_le(x, y);
    lemma_number_ranking();
    assert(!(le(a, b) && le(b, a)));
    law_neighbours_may_change_places(front, a, b, rest, le);
}

} // verus!
