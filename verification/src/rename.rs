//! Renaming the files of a rip after its title.

use crate::casing::{lower_text, to_lowercase};
use crate::files::{count_files, count_kind, file_kind, kind_of, stem, stem_of, FileKind};
use crate::names::{format_track_suffix, track_num_in_lower, track_number, track_suffix};
use crate::order::{is_ranking, not_after, stable_sort, stable_sort_of, text_le, views};
use crate::order::{
    lemma_text_le_antisymmetric, lemma_text_le_reflexive, lemma_text_le_total, lemma_text_le_transitive,
};
use crate::text::{
    chars_of, concat2, concat3, concat4, find_char, next_char, string_of, texts, trim, trim_of, trimmed,
};
use vstd::prelude::*;
use vstd::slice::slice_subrange;

verus! {

// ---------------------------------------------------------------------------
// The list of renames
// ---------------------------------------------------------------------------

/// A file with its old name, its new name and its kind.
#[derive(Clone, Debug, PartialEq, Eq)]
pub struct RenamePreview {
    pub old_name: String,
    pub new_name: String,
    pub kind: String,
}

/// The mathematical content of a `RenamePreview`.
pub struct PreviewModel {
    pub old_name: Seq<char>,
    pub new_name: Seq<char>,
    pub kind: Seq<char>,
}

impl View for RenamePreview {
    type V = PreviewModel;

    open spec fn view(&self) -> PreviewModel {
        PreviewModel { old_name: self.old_name@, new_name: self.new_name@, kind: self.kind@ }
    }
}

/// A file name, and the same in lower case.
#[derive(Debug, PartialEq, Eq)]
pub struct CasedName {
    pub name: String,
    pub lower: String,
}

impl View for CasedName {
    type V = (Seq<char>, Seq<char>);

    open spec fn view(&self) -> (Seq<char>, Seq<char>) {
        (self.name@, self.lower@)
    }
}

/// The names of a list of files.
pub open spec fn plain_names(files: Seq<(Seq<char>, Seq<char>)>) -> Seq<Seq<char>> {
    files.map_values(|f: (Seq<char>, Seq<char>)| f.0)
}

/// Each name with its lower case.
pub open spec fn with_lower(names: Seq<Seq<char>>) -> Seq<(Seq<char>, Seq<char>)> {
    names.map_values(|n: Seq<char>| (n, lower_text(n)))
}

/// How many tracks a list of files tells of: the larger of the numbers of `bin` and `cdg` files.
pub open spec fn track_total(names: Seq<Seq<char>>) -> nat {
    if count_kind(names, FileKind::Bin) >= count_kind(names, FileKind::Cdg) {
        count_kind(names, FileKind::Bin)
    } else {
        count_kind(names, FileKind::Cdg)
    }
}

/// The part of a stem from its first opening bracket on, with a blank in front.
pub open spec fn qualifier(stem: Seq<char>) -> Seq<char> {
    let open = next_char(stem, '[', 0);
    if open < stem.len() {
        " "@ + trim(stem.skip(open))
    } else {
        seq![]
    }
}

/// The new name of one track file, where its old name tells its number.
pub open spec fn track_name(
    base: Seq<char>,
    lower: Seq<char>,
    total: int,
    ext: Seq<char>,
) -> Option<Seq<char>> {
    match track_number(lower) {
        Some(num) => Some(base + " "@ + track_suffix(num, total) + ext),
        None => None,
    }
}

/// What becomes of one file of a disc with `total` tracks. With `per_track`, a `cdg` file belongs
/// to a track; without, it is the one for the whole disc and keeps its qualifier in brackets.
pub open spec fn preview_of(
    name: Seq<char>,
    lower: Seq<char>,
    base: Seq<char>,
    total: int,
    per_track: bool,
) -> Option<PreviewModel> {
    match kind_of(name) {
        FileKind::Bin => match track_name(base, lower, total, ".bin"@) {
            Some(new_name) => Some(PreviewModel { old_name: name, new_name, kind: "bin"@ }),
            None => None,
        },
        FileKind::Cue => Some(
            PreviewModel { old_name: name, new_name: base + ".cue"@, kind: "cue"@ },
        ),
        FileKind::Cdg => if per_track {
            match track_name(base, lower, total, ".cdg"@) {
                Some(new_name) => Some(PreviewModel { old_name: name, new_name, kind: "cdg"@ }),
                None => None,
            }
        } else {
            Some(
                PreviewModel {
                    old_name: name,
                    new_name: base + qualifier(stem(name)) + ".cdg"@,
                    kind: "cdg"@,
                },
            )
        },
        FileKind::Other => None,
    }
}

/// The renames of a list of files, in its order. A file that nothing becomes of is left out.
pub open spec fn unsorted_previews(
    files: Seq<(Seq<char>, Seq<char>)>,
    base: Seq<char>,
) -> Seq<PreviewModel> {
    let total = track_total(plain_names(files)) as int;
    let per_track = count_kind(plain_names(files), FileKind::Cdg) > 1;
    files.filter_map(
        |f: (Seq<char>, Seq<char>)| preview_of(f.0, f.1, base, total, per_track),
    )
}

/// Renames are listed by kind, and by old name within a kind.
pub open spec fn preview_le(a: PreviewModel, b: PreviewModel) -> bool {
    text_le(a.kind, b.kind) && (a.kind == b.kind ==> text_le(a.old_name, b.old_name))
}

/// The renames of a list of files.
pub open spec fn previews(
    files: Seq<(Seq<char>, Seq<char>)>,
    base: Seq<char>,
) -> Seq<PreviewModel> {
    stable_sort_of(
        unsorted_previews(files, base),
        |a: PreviewModel, b: PreviewModel| preview_le(a, b),
    )
}

/// The order of the list is a ranking, and what ranks the same has the same kind and old name.
pub proof fn lemma_preview_ranking()
    ensures
        is_ranking(|a: PreviewModel, b: PreviewModel| preview_le(a, b)),
        forall|a: PreviewModel, b: PreviewModel| #[trigger]
            preview_le(a, b) && preview_le(b, a) ==> a.kind == b.kind && a.old_name == b.old_name,
{
    let le = |a: PreviewModel, b: PreviewModel| preview_le(a, b);
    assert forall|a: PreviewModel| #[trigger] le(a, a) by {
        lemma_text_le_reflexive(a.kind);
        lemma_text_le_reflexive(a.old_name);
    }
    assert forall|a: PreviewModel, b: PreviewModel| #[trigger] le(a, b) || le(b, a) by {
        lemma_text_le_total(a.kind, b.kind);
        lemma_text_le_total(a.old_name, b.old_name);
    }
    assert forall|a: PreviewModel, b: PreviewModel, c: PreviewModel| #[trigger]
        le(a, b) && #[trigger] le(b, c) implies le(a, c) by {
        lemma_text_le_transitive(a.kind, b.kind, c.kind);
        if a.kind == c.kind {
            lemma_text_le_antisymmetric(a.kind, b.kind);
            lemma_text_le_transitive(a.old_name, b.old_name, c.old_name);
        }
    }
    assert forall|a: PreviewModel, b: PreviewModel| #[trigger]
        preview_le(a, b) && preview_le(b, a) implies a.kind == b.kind && a.old_name
        == b.old_name by {
        lemma_text_le_antisymmetric(a.kind, b.kind);
        lemma_text_le_antisymmetric(a.old_name, b.old_name);
    }
}

fn preview_not_after(a: &RenamePreview, b: &RenamePreview) -> (r: bool)
    ensures
        r == preview_le(a@, b@),
{
    let ka = chars_of(a.kind.as_str());
    let kb = chars_of(b.kind.as_str());
    if a.kind == b.kind {
        proof {
            lemma_text_le_reflexive(a.kind@);
        }
        let na = chars_of(a.old_name.as_str());
        let nb = chars_of(b.old_name.as_str());
        not_after(na.as_slice(), nb.as_slice())
    } else {
        not_after(ka.as_slice(), kb.as_slice())
    }
}

/// The new name of one track file.
fn new_track_name(base: &str, lower: &str, total: usize, ext: &str) -> (r: Option<String>)
    ensures
        match r {
            Some(name) => track_name(base@, lower@, total as int, ext@) == Some(name@),
            None => track_name(base@, lower@, total as int, ext@) is None,
        },
{
    match track_num_in_lower(lower) {
        Some(num) => {
            let suffix = format_track_suffix(num, total);
            Some(concat4(base, " ", suffix.as_str(), ext))
        },
        None => None,
    }
}

/// The qualifier of a stem.
fn qualifier_of(stem: &[char]) -> (s: String)
    ensures
        s@ == qualifier(stem@),
{
    let len: usize = stem.len();
    let open = find_char(stem, '[', 0);
    if open < len {
        let rest = slice_subrange(stem, open, len);
        assert(rest@ =~= stem@.skip(open as int));
        concat2(" ", string_of(trim_of(rest)).as_str())
    } else {
        String::new()
    }
}

/// What becomes of one file.
fn preview_file(file: &CasedName, base: &str, total: usize, per_track: bool) -> (r: Option<
    RenamePreview,
>)
    ensures
        match r {
            Some(p) => preview_of(file@.0, file@.1, base@, total as int, per_track) == Some(p@),
            None => preview_of(file@.0, file@.1, base@, total as int, per_track) is None,
        },
{
    let (new_name, kind) = match file_kind(file.name.as_str()) {
        FileKind::Bin => match new_track_name(base, file.lower.as_str(), total, ".bin") {
            Some(name) => (name, "bin"),
            None => {
                return None;
            },
        },
        FileKind::Cue => (concat2(base, ".cue"), "cue"),
        FileKind::Cdg => if per_track {
            match new_track_name(base, file.lower.as_str(), total, ".cdg") {
                Some(name) => (name, "cdg"),
                None => {
                    return None;
                },
            }
        } else {
            let cs = chars_of(file.name.as_str());
            let kept = qualifier_of(stem_of(cs.as_slice()));
            (concat3(base, kept.as_str(), ".cdg"), "cdg")
        },
        FileKind::Other => {
            return None;
        },
    };
    Some(RenamePreview { old_name: file.name.clone(), new_name, kind: kind.to_owned() })
}

/// Lists the renames of a list of files whose names are given in lower case too.
pub fn renames_of(files: &Vec<CasedName>, base_name: &str) -> (r: Vec<RenamePreview>)
    ensures
        views(r@) == previews(views(files@), base_name@),
{
    let ghost all = views(files@);
    let mut names: Vec<String> = Vec::new();
    for i in 0..files.len()
        invariant
            names@.len() == i,
            forall|k: int| 0 <= k < i ==> (#[trigger] names@[k])@ == files@[k].name@,
    {
        names.push(files[i].name.clone());
    }
    assert(texts(names@) =~= plain_names(all));
    let bins = count_files(&names, FileKind::Bin);
    let cdgs = count_files(&names, FileKind::Cdg);
    let per_track = cdgs > 1;
    let total: usize = if bins >= cdgs {
        bins
    } else {
        cdgs
    };
    let ghost f = |f: (Seq<char>, Seq<char>)|
        preview_of(f.0, f.1, base_name@, total as int, per_track);
    let mut list: Vec<RenamePreview> = Vec::new();
    assert(all.take(0).filter_map(f) =~= seq![]);
    for i in 0..files.len()
        invariant
            all == views(files@),
            f == (|f: (Seq<char>, Seq<char>)|
                preview_of(f.0, f.1, base_name@, total as int, per_track)),
            views(list@) == all.take(i as int).filter_map(f),
    {
        proof {
            assert(all[i as int] == files@[i as int]@);
            all.lemma_filter_map_take_succ(f, i as int);
        }
        let ghost before = views(list@);
        if let Some(p) = preview_file(&files[i], base_name, total, per_track) {
            assert(views(list@.push(p)) =~= before.push(p@));
            list.push(p);
            assert(views(list@) =~= all.take(i + 1).filter_map(f));
        } else {
            assert(views(list@) =~= all.take(i + 1).filter_map(f));
        }
    }
    assert(all.take(all.len() as int) =~= all);
    proof {
        lemma_preview_ranking();
    }
    stable_sort(
        list,
        preview_not_after,
        Ghost(|a: PreviewModel, b: PreviewModel| preview_le(a, b)),
    )
}

/// Puts each name beside the same in lower case.
pub(crate) fn in_lower_case(names: &Vec<String>) -> (files: Vec<CasedName>)
    ensures
        views(files@) == with_lower(texts(names@)),
{
    let mut files: Vec<CasedName> = Vec::new();
    for i in 0..names.len()
        invariant
            files@.len() == i,
            forall|k: int|
                0 <= k < i ==> (#[trigger] files@[k])@ == (names@[k]@, lower_text(names@[k]@)),
    {
        let lower = to_lowercase(names[i].as_str());
        files.push(CasedName { name: names[i].clone(), lower });
    }
    assert(views(files@) =~= with_lower(texts(names@)));
    files
}

/// Lists the renames of the files of a folder. `listing` is what listing the names of its files
/// gave.
pub fn compute_renames(listing: &Result<Vec<String>, String>, base_name: &str) -> (r: Result<
    Vec<RenamePreview>,
    String,
>)
    ensures
        match (listing, r) {
            (Ok(names), Ok(list)) => views(list@) == previews(
                with_lower(texts(names@)),
                base_name@,
            ),
            (Err(e), Err(msg)) => msg@ == "Cannot read folder: "@ + e@,
            _ => false,
        },
{
    match listing {
        Ok(names) => {
            let files = in_lower_case(names);
            Ok(renames_of(&files, base_name))
        },
        Err(e) => Err(concat2("Cannot read folder: ", e.as_str())),
    }
}

/// Lists the renames of the files of a folder, for a title that the user gave.
pub fn preview_rename(
    is_dir: bool,
    listing: &Result<Vec<String>, String>,
    base_name: &str,
) -> (r: Result<Vec<RenamePreview>, String>)
    ensures
        match r {
            Ok(list) => is_dir && trim(base_name@).len() > 0 && (listing matches Ok(names) && views(
                list@,
            ) == previews(with_lower(texts(names@)), trim(base_name@))),
            Err(msg) => if !is_dir {
                msg@ == "Not a valid directory"@
            } else if trim(base_name@).len() == 0 {
                msg@ == "Base name cannot be empty"@
            } else {
                listing matches Err(e) && msg@ == "Cannot read folder: "@ + e@
            },
        },
{
    if !is_dir {
        return Err("Not a valid directory".to_owned());
    }
    let base = trimmed(base_name);
    if base.as_str().is_empty() {
        return Err("Base name cannot be empty".to_owned());
    }
    compute_renames(listing, base.as_str())
}

} // verus!
