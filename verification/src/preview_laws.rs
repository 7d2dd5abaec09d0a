//! What holds of every list of renames: which files it shows, under which new names, in which
//! order.

use crate::casing::lower_text;
use crate::decimal::{decimal, decimal_two};
use crate::files::{count_kind, kind_of, stem, FileKind};
use crate::names::{track_number, track_suffix};
use crate::order::text_le;
use crate::rename::{
    plain_names, preview_of, previews, qualifier, track_total, with_lower,
};
use crate::rename::PreviewModel;
use crate::rename_laws::{
    law_renames_are_complete, law_renames_are_in_order, law_renames_are_of_three_kinds,
};
use crate::text::{lemma_next_char_is, trim};
use crate::text_laws::law_first_difference_decides;
use vstd::prelude::*;

verus! {

/// What follows the title in the new name of a track of a folder: the number, with at least two
/// digits where the folder has more than nine `bin` files or more than nine `cdg` files.
pub open spec fn number_in_folder(names: Seq<Seq<char>>, num: int) -> Seq<char> {
    " (Track "@ + (if count_kind(names, FileKind::Bin) > 9 || count_kind(names, FileKind::Cdg) > 9 {
        decimal_two(num)
    } else {
        decimal(num)
    }) + ")"@
}

/// Which renames a folder gives. A `bin` file whose name tells the number of its track is named by
/// the title and that number, and a `cdg` file likewise where there are several of them. A sheet,
/// and a single `cdg` file, are named by the title; the latter keeps its qualifier. Nothing else
/// is renamed.
pub proof fn law_renames_of_a_folder(names: Seq<Seq<char>>, base: Seq<char>, p: PreviewModel)
    ensures
        previews(with_lower(names), base).contains(p) <==> {
            &&& names.contains(p.old_name)
            &&& match kind_of(p.old_name) {
                FileKind::Bin => {
                    &&& p.kind == "bin"@
                    &&& track_number(lower_text(p.old_name)) matches Some(num) && p.new_name == base
                        + number_in_folder(names, num) + ".bin"@
                },
                FileKind::Cue => p.kind == "cue"@ && p.new_name == base + ".cue"@,
                FileKind::Cdg => {
                    &&& p.kind == "cdg"@
                    &&& count_kind(names, FileKind::Cdg) > 1 ==> (track_number(
                        lower_text(p.old_name),
                    ) matches Some(num) && p.new_name == base + number_in_folder(names, num)
                        + ".cdg"@)
                    &&& count_kind(names, FileKind::Cdg) <= 1 ==> p.new_name == base + qualifier(
                        stem(p.old_name),
                    ) + ".cdg"@
                },
                FileKind::Other => false,
            }
        },
{
    let files = with_lower(names);
    let total = track_total(names) as int;
    let per_track = count_kind(names, FileKind::Cdg) > 1;
    let lower = lower_text(p.old_name);
    assert(plain_names(files) =~= names);
    law_renames_are_complete(files, base, p);
    if let Some(num) = track_number(lower) {
        lemma_number_in_folder(names, base, num, ".bin"@);
        lemma_number_in_folder(names, base, num, ".cdg"@);
    }
    let told = preview_of(p.old_name, lower, base, total, per_track);
    if previews(files, base).contains(p) {
        let k = choose|k: int|
            0 <= k < files.len() && preview_of(
                (#[trigger] files[k]).0,
                files[k].1,
                base,
                total,
                per_track,
            ) == Some(p);
        assert(files[k] == (names[k], lower_text(names[k])));
        assert(names[k] == p.old_name);
        assert(told == Some(p));
    }
    if names.contains(p.old_name) && told == Some(p) {
        let k = choose|k: int| 0 <= k < names.len() && names[k] == p.old_name;
        assert(files[k] == (names[k], lower_text(names[k])));
    }
}

/// What becomes of one file, by its kind, where `lower` is taken for its name in lower case: a
/// track is named by the title and its number, if `lower` tells one, and everything else that is
/// renamed by the title.
pub proof fn law_new_name_of_a_file(
    name: Seq<char>,
    lower: Seq<char>,
    base: Seq<char>,
    total: int,
    per_track: bool,
)
    ensures
        ({
            let told = preview_of(name, lower, base, total, per_track);
            let kind = kind_of(name);
            let of_track = kind == FileKind::Bin || kind == FileKind::Cdg && per_track;
            let of_disc = kind == FileKind::Cue || kind == FileKind::Cdg && !per_track;
            &&& told is Some <==> of_disc || of_track && track_number(lower) is Some
            &&& told matches Some(p) ==> {
                &&& p.old_name == name
                &&& p.kind == (if kind == FileKind::Bin {
                    "bin"@
                } else if kind == FileKind::Cue {
                    "cue"@
                } else {
                    "cdg"@
                })
                &&& p.new_name == base + (if of_track {
                    " (Track "@ + (if total > 9 {
                        decimal_two(track_number(lower)->0)
                    } else {
                        decimal(track_number(lower)->0)
                    }) + ")"@
                } else if kind == FileKind::Cdg {
                    qualifier(stem(name))
                } else {
                    seq![]
                }) + "."@ + p.kind
            }
        }),
{
    reveal_strlit(" ");
    reveal_strlit("(Track ");
    reveal_strlit(" (Track ");
    reveal_strlit(")");
    reveal_strlit(".");
    reveal_strlit("bin");
    reveal_strlit("cue");
    reveal_strlit("cdg");
    reveal_strlit(".bin");
    reveal_strlit(".cue");
    reveal_strlit(".cdg");
    if let Some(p) = preview_of(name, lower, base, total, per_track) {
        let of_track = kind_of(name) == FileKind::Bin || kind_of(name) == FileKind::Cdg
            && per_track;
        assert(p.new_name =~= base + (if of_track {
            " (Track "@ + (if total > 9 {
                decimal_two(track_number(lower)->0)
            } else {
                decimal(track_number(lower)->0)
            }) + ")"@
        } else if kind_of(name) == FileKind::Cdg {
            qualifier(stem(name))
        } else {
            seq![]
        }) + "."@ + p.kind);
    }
}

proof fn lemma_number_in_folder(
    names: Seq<Seq<char>>,
    base: Seq<char>,
    num: int,
    ext: Seq<char>,
)
    ensures
        base + " "@ + track_suffix(num, track_total(names) as int) + ext == base
            + number_in_folder(names, num) + ext,
{
    reveal_strlit(" ");
    reveal_strlit("(Track ");
    reveal_strlit(" (Track ");
    assert(base + " "@ + track_suffix(num, track_total(names) as int) + ext =~= base
        + number_in_folder(names, num) + ext);
}

/// A qualifier starts at the first opening bracket of a stem and reaches to its end, without the
/// white space there; a blank goes before it. A stem without a bracket has none.
pub proof fn law_qualifier(front: Seq<char>, rest: Seq<char>)
    requires
        !front.contains('['),
    ensures
        qualifier(front + seq!['['] + rest) == " "@ + trim(seq!['['] + rest),
        qualifier(front) == Seq::<char>::empty(),
{
    let s = front + seq!['['] + rest;
    let n = front.len() as int;
    assert forall|j: int| 0 <= j < n implies s[j] != '[' && front[j] != '[' by {
        assert(front.contains(front[j]));
    }
    lemma_next_char_is(s, '[', 0, n);
    lemma_next_char_is(front, '[', 0, n);
    assert(s.skip(n) =~= seq!['['] + rest);
}

/// The place of a kind in a list of renames.
pub open spec fn place_of_kind(kind: Seq<char>) -> int {
    if kind == "bin"@ {
        0
    } else if kind == "cdg"@ {
        1
    } else {
        2
    }
}

/// The `bin` files come first, then the `cdg` files, then the sheets, each in the order of their
/// old names.
pub proof fn law_order_of_renames(names: Seq<Seq<char>>, base: Seq<char>, i: int, j: int)
    requires
        0 <= i < j < previews(with_lower(names), base).len(),
    ensures
        ({
            let (a, b) = (
                previews(with_lower(names), base)[i],
                previews(with_lower(names), base)[j],
            );
            &&& place_of_kind(a.kind) <= place_of_kind(b.kind)
            &&& place_of_kind(a.kind) == place_of_kind(b.kind) ==> text_le(a.old_name, b.old_name)
        }),
{
    let list = previews(with_lower(names), base);
    let (a, b) = (list[i], list[j]);
    law_renames_are_in_order(with_lower(names), base, i, j);
    assert(list.contains(a) && list.contains(b));
    law_renames_are_of_three_kinds(with_lower(names), base, a);
    law_renames_are_of_three_kinds(with_lower(names), base, b);
    reveal_strlit("bin");
    reveal_strlit("cdg");
    reveal_strlit("cue");
    let none = Seq::<char>::empty();
    law_first_difference_decides(none, 'b', seq!['i', 'n'], 'c', seq!['d', 'g']);
    law_first_difference_decides(none, 'b', seq!['i', 'n'], 'c', seq!['u', 'e']);
    law_first_difference_decides(seq!['c'], 'd', seq!['g'], 'u', seq!['e']);
    assert("bin"@ =~= none + seq!['b'] + seq!['i', 'n']);
    assert("cdg"@ =~= none + seq!['c'] + seq!['d', 'g']);
    assert("cue"@ =~= none + seq!['c'] + seq!['u', 'e']);
    assert("cdg"@ =~= seq!['c'] + seq!['d'] + seq!['g']);
    assert("cue"@ =~= seq!['c'] + seq!['u'] + seq!['e']);
}

} // verus!
