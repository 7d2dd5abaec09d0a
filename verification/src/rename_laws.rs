//! What holds of renaming as a whole.

use crate::casing::lower_text;
use crate::decimal::lemma_read_decimal_bounds;
use crate::files::{count_kind, kind_of, lemma_kind_of_joined, stem, FileKind};
use crate::names::{
    bracketed_digits, law_track_number_of_name, loose_digits, track_file_name, track_number, track_suffix,
};
use crate::order::{
    law_sort_is_permutation, law_sort_keeps_items, law_stable_sort_is_unique,
    lemma_stable_sort_exists, ranked_as, stable_sort_of, stably_sorted,
};
use crate::rename::{
    lemma_preview_ranking, plain_names, preview_le, preview_of, previews, qualifier, track_name,
    track_total, unsorted_previews, with_lower, PreviewModel,
};
use crate::text::{
    lemma_next_char, lemma_next_char_is, lemma_trim, lemma_trim_core,
    lower_ascii_text, next_char, occurs, trim,
};
use vstd::prelude::*;

verus! {

// ---------------------------------------------------------------------------
// The list of renames
// ---------------------------------------------------------------------------

/// The list of renames is in order: by kind, and by old name within a kind.
pub proof fn law_renames_are_in_order(
    files: Seq<(Seq<char>, Seq<char>)>,
    base: Seq<char>,
    i: int,
    j: int,
)
    requires
        0 <= i < j < previews(files, base).len(),
    ensures
        preview_le(previews(files, base)[i], previews(files, base)[j]),
{
    let le = |a: PreviewModel, b: PreviewModel| preview_le(a, b);
    lemma_preview_ranking();
    lemma_stable_sort_exists(unsorted_previews(files, base), le);
    assert(le(previews(files, base)[i], previews(files, base)[j]));
}

/// Every file of the list that something becomes of is in the list of renames, and nothing else.
pub proof fn law_renames_are_complete(
    files: Seq<(Seq<char>, Seq<char>)>,
    base: Seq<char>,
    p: PreviewModel,
)
    ensures
        previews(files, base).contains(p) == exists|k: int|
            0 <= k < files.len() && preview_of(
                (#[trigger] files[k]).0,
                files[k].1,
                base,
                track_total(plain_names(files)) as int,
                count_kind(plain_names(files), FileKind::Cdg) > 1,
            ) == Some(p),
{
    let le = |a: PreviewModel, b: PreviewModel| preview_le(a, b);
    let f = |f: (Seq<char>, Seq<char>)|
        preview_of(
            f.0,
            f.1,
            base,
            track_total(plain_names(files)) as int,
            count_kind(plain_names(files), FileKind::Cdg) > 1,
        );
    lemma_preview_ranking();
    law_sort_keeps_items(unsorted_previews(files, base), le, p);
    assert(unsorted_previews(files, base) == files.filter_map(f));
    if files.filter_map(f).contains(p) {
        files.lemma_filter_map_contains(f, p);
        let k = choose|k: int| 0 <= k < files.len() && #[trigger] f(files[k]) == Some(p);
        assert(f(files[k]) == Some(p));
    }
    if exists|k: int| 0 <= k < files.len() && f(#[trigger] files[k]) == Some(p) {
        let k = choose|k: int| 0 <= k < files.len() && f(#[trigger] files[k]) == Some(p);
        lemma_filter_map_keeps(files, f, k);
    }
}

/// What is made of an item is in the list of what is made of all.
proof fn lemma_filter_map_keeps<A, B>(s: Seq<A>, f: spec_fn(A) -> Option<B>, k: int)
    requires
        0 <= k < s.len(),
        f(s[k]) is Some,
    ensures
        s.filter_map(f).contains(f(s[k])->0),
    decreases s.len(),
{
    let rest = s.drop_last();
    let before = rest.filter_map(f);
    let all = s.filter_map(f);
    let x = f(s[k])->0;
    if k < rest.len() {
        lemma_filter_map_keeps(rest, f, k);
        assert(rest[k] == s[k]);
        let j = choose|j: int| 0 <= j < before.len() && before[j] == x;
        assert(all[j] == x);
    } else {
        assert(all.last() == x);
    }
}

/// A rename is of a `bin`, a `cdg` or a `cue` file.
pub proof fn law_renames_are_of_three_kinds(
    files: Seq<(Seq<char>, Seq<char>)>,
    base: Seq<char>,
    p: PreviewModel,
)
    requires
        previews(files, base).contains(p),
    ensures
        p.kind == "bin"@ || p.kind == "cdg"@ || p.kind == "cue"@,
{
    law_renames_are_complete(files, base, p);
}

/// What a rename makes of a file that is known by its name alone.
spec fn made_of(names: Seq<Seq<char>>, base: Seq<char>) -> spec_fn(Seq<char>) -> Option<
    PreviewModel,
> {
    |n: Seq<char>|
        preview_of(
            n,
            lower_text(n),
            base,
            track_total(names) as int,
            count_kind(names, FileKind::Cdg) > 1,
        )
}

proof fn lemma_made_of(names: Seq<Seq<char>>, base: Seq<char>)
    ensures
        unsorted_previews(with_lower(names), base) == names.filter_map(made_of(names, base)),
{
    let files = with_lower(names);
    assert(plain_names(files) =~= names);
    let f = |f: (Seq<char>, Seq<char>)|
        preview_of(
            f.0,
            f.1,
            base,
            track_total(names) as int,
            count_kind(names, FileKind::Cdg) > 1,
        );
    lemma_filter_map_mapped(names, f, made_of(names, base));
}

proof fn lemma_filter_map_mapped(
    names: Seq<Seq<char>>,
    f: spec_fn((Seq<char>, Seq<char>)) -> Option<PreviewModel>,
    g: spec_fn(Seq<char>) -> Option<PreviewModel>,
)
    requires
        forall|n: Seq<char>| #[trigger] g(n) == f((n, lower_text(n))),
    ensures
        with_lower(names).filter_map(f) == names.filter_map(g),
    decreases names.len(),
{
    let files = with_lower(names);
    if names.len() > 0 {
        lemma_filter_map_mapped(names.drop_last(), f, g);
        assert(files.drop_last() =~= with_lower(names.drop_last()));
        assert(files.last() == (names.last(), lower_text(names.last())));
        assert(g(names.last()) == f(files.last()));
    }
}

/// Different files have different old names in the list of renames.
pub proof fn law_old_names_are_distinct(names: Seq<Seq<char>>, base: Seq<char>, i: int, j: int)
    requires
        names.no_duplicates(),
        0 <= i < j < previews(with_lower(names), base).len(),
    ensures
        previews(with_lower(names), base)[i].old_name != previews(
            with_lower(names),
            base,
        )[j].old_name,
{
    let le = |a: PreviewModel, b: PreviewModel| preview_le(a, b);
    let f = made_of(names, base);
    let inp = names.filter_map(f);
    let out = previews(with_lower(names), base);
    lemma_made_of(names, base);
    lemma_preview_ranking();
    law_sort_is_permutation(inp, le);
    lemma_distinct_previews(names, f);
    assert(inp.no_duplicates());
    inp.lemma_multiset_has_no_duplicates();
    out.lemma_multiset_has_no_duplicates_conv();
    law_sort_keeps_items(inp, le, out[i]);
    law_sort_keeps_items(inp, le, out[j]);
    assert(out.contains(out[i]) && out.contains(out[j]));
    let a = choose|a: int| 0 <= a < inp.len() && inp[a] == out[i];
    let b = choose|b: int| 0 <= b < inp.len() && inp[b] == out[j];
    assert(out[i] != out[j]);
    assert(a != b);
    assert(inp[a].old_name != inp[b].old_name);
}

/// Different names give renames with different old names, each that of a name of the list.
proof fn lemma_distinct_previews(
    names: Seq<Seq<char>>,
    f: spec_fn(Seq<char>) -> Option<PreviewModel>,
)
    requires
        names.no_duplicates(),
        forall|n: Seq<char>| (#[trigger] f(n)) matches Some(p) ==> p.old_name == n,
    ensures
        forall|a: int, b: int|
            0 <= a < b < names.filter_map(f).len() ==> (#[trigger] names.filter_map(
                f,
            )[a]).old_name != (#[trigger] names.filter_map(f)[b]).old_name,
        forall|a: int|
            0 <= a < names.filter_map(f).len() ==> names.contains(
                (#[trigger] names.filter_map(f)[a]).old_name,
            ),
    decreases names.len(),
{
    if names.len() > 0 {
        let rest = names.drop_last();
        let last = names.last();
        let before = rest.filter_map(f);
        let all = names.filter_map(f);
        lemma_distinct_previews(rest, f);
        assert forall|a: int| 0 <= a < before.len() implies names.contains(
            (#[trigger] before[a]).old_name,
        ) && before[a].old_name != last by {
            assert(rest.contains(before[a].old_name));
            let k = choose|k: int| 0 <= k < rest.len() && rest[k] == before[a].old_name;
            assert(names[k] == before[a].old_name);
        }
        assert(names[names.len() - 1] == last);
        assert forall|a: int| 0 <= a < all.len() implies names.contains(
            (#[trigger] all[a]).old_name,
        ) by {
            if a < before.len() {
                assert(all[a] == before[a]);
            } else {
                assert(names.contains(last));
            }
        }
        assert forall|a: int, b: int| 0 <= a < b < all.len() implies (#[trigger] all[a]).old_name
            != (#[trigger] all[b]).old_name by {
            assert(all[a] == before[a]);
            if b < before.len() {
                assert(all[b] == before[b]);
            }
        }
    }
}

/// The list of renames does not depend on the order in which the files are listed.
pub proof fn law_order_of_listing_does_not_matter(
    names: Seq<Seq<char>>,
    others: Seq<Seq<char>>,
    base: Seq<char>,
)
    requires
        names.to_multiset() == others.to_multiset(),
    ensures
        previews(with_lower(names), base) == previews(with_lower(others), base),
{
    let le = |a: PreviewModel, b: PreviewModel| preview_le(a, b);
    lemma_permuted_filter(names, others, |n: Seq<char>| kind_of(n) == FileKind::Bin);
    lemma_permuted_filter(names, others, |n: Seq<char>| kind_of(n) == FileKind::Cdg);
    let f = made_of(names, base);
    assert(made_of(others, base) == f);
    lemma_made_of(names, base);
    lemma_made_of(others, base);
    lemma_preview_ranking();
    let a = names.filter_map(f);
    let b = others.filter_map(f);
    lemma_filter_map_len(names, f);
    lemma_filter_map_len(others, f);
    lemma_permuted_filter(names, others, |n: Seq<char>| f(n) is Some);
    assert forall|x: PreviewModel| #[trigger] ranked_as(a, x, le) == ranked_as(b, x, le) by {
        lemma_ranked_renames(names, f, x);
        lemma_ranked_renames(others, f, x);
        assert(ranked_as(a, x, le) =~= ranked_as(b, x, le));
    }
    let out = stable_sort_of(a, le);
    lemma_stable_sort_exists(a, le);
    lemma_stable_sort_exists(b, le);
    assert(stably_sorted(out, b, le)) by {
        assert forall|x: PreviewModel| #[trigger] ranked_as(out, x, le) == ranked_as(b, x, le) by {
            assert(ranked_as(a, x, le) == ranked_as(b, x, le));
        }
    }
    law_stable_sort_is_unique(out, stable_sort_of(b, le), b, le);
}

/// Lists of the same items hold as many of a kind.
proof fn lemma_permuted_filter<A>(a: Seq<A>, b: Seq<A>, pred: spec_fn(A) -> bool)
    requires
        a.to_multiset() == b.to_multiset(),
    ensures
        a.filter(pred).len() == b.filter(pred).len(),
    decreases a.len(),
{
    broadcast use vstd::seq_lib::group_to_multiset_ensures;

    reveal(Seq::filter);
    assert(a.len() == a.to_multiset().len() && b.len() == b.to_multiset().len());
    if a.len() > 0 {
        let x = a.last();
        let rest = a.drop_last();
        assert(a =~= rest.push(x));
        assert(a.contains(x));
        assert(b.to_multiset().count(x) > 0);
        let j = choose|j: int| 0 <= j < b.len() && b[j] == x;
        let front = b.take(j);
        let back = b.skip(j + 1);
        assert(b =~= front + seq![x] + back);
        assert(b.remove(j) =~= front + back);
        assert(rest.to_multiset() =~= a.to_multiset().remove(x));
        lemma_permuted_filter(rest, b.remove(j), pred);
        Seq::filter_distributes_over_add(front + seq![x], back, pred);
        Seq::filter_distributes_over_add(front, seq![x], pred);
        Seq::filter_distributes_over_add(front, back, pred);
        let none = Seq::<A>::empty();
        assert(none.filter(pred).len() == 0);
        assert(seq![x].drop_last() =~= none);
        assert(seq![x].filter(pred).len() == if pred(x) {
            1nat
        } else {
            0nat
        });
    } else {
        assert(b =~= a);
    }
}

proof fn lemma_filter_map_len<A, B>(s: Seq<A>, f: spec_fn(A) -> Option<B>)
    ensures
        s.filter_map(f).len() == s.filter(|x: A| f(x) is Some).len(),
    decreases s.len(),
{
    reveal(Seq::filter);
    if s.len() > 0 {
        lemma_filter_map_len(s.drop_last(), f);
    }
}

/// The renames that rank as one does are as many copies of the rename of its file as there are
/// files of that name, where that rename is of its kind.
proof fn lemma_ranked_renames(
    names: Seq<Seq<char>>,
    f: spec_fn(Seq<char>) -> Option<PreviewModel>,
    x: PreviewModel,
)
    requires
        forall|n: Seq<char>| (#[trigger] f(n)) matches Some(p) ==> p.old_name == n,
    ensures
        ({
            let le = |a: PreviewModel, b: PreviewModel| preview_le(a, b);
            let ranked = ranked_as(names.filter_map(f), x, le);
            let made = f(x.old_name);
            &&& ranked.len() == (if made is Some && made->0.kind == x.kind {
                names.to_multiset().count(x.old_name)
            } else {
                0
            })
            &&& forall|i: int| 0 <= i < ranked.len() ==> #[trigger] ranked[i] == made->0
        }),
    decreases names.len(),
{
    broadcast use vstd::seq_lib::group_to_multiset_ensures;

    reveal(Seq::filter);
    let le = |a: PreviewModel, b: PreviewModel| preview_le(a, b);
    let pred = |e: PreviewModel| le(e, x) && le(x, e);
    lemma_preview_ranking();
    if names.len() > 0 {
        let rest = names.drop_last();
        let last = names.last();
        let before = rest.filter_map(f);
        let all = names.filter_map(f);
        assert(names =~= rest.push(last));
        lemma_ranked_renames(rest, f, x);
        match f(last) {
            Some(p) => {
                assert(all =~= before.push(p));
                assert(all.drop_last() =~= before);
                assert(p.old_name == last);
                if p.kind == x.kind && p.old_name == x.old_name {
                    assert(le(p, p) && le(x, x));
                    assert(preview_le(p, x) && preview_le(x, p));
                    assert(pred(p));
                } else {
                    assert(!(preview_le(p, x) && preview_le(x, p)));
                    assert(!pred(p));
                }
            },
            None => {
                assert(all =~= before);
            },
        }
    } else {
        assert(names.filter_map(f) =~= seq![]);
        assert(names.to_multiset().count(x.old_name) == 0);
    }
}

// ---------------------------------------------------------------------------
// Names that stay
// ---------------------------------------------------------------------------

proof fn lemma_kind_of_track_file(base: Seq<char>, num: int, total: int)
    ensures
        kind_of(base + " "@ + track_suffix(num, total) + ".bin"@) == FileKind::Bin,
        kind_of(base + " "@ + track_suffix(num, total) + ".cdg"@) == FileKind::Cdg,
{
    reveal_strlit(" ");
    reveal_strlit("bin");
    reveal_strlit("cue");
    reveal_strlit("cdg");
    reveal_strlit(".bin");
    reveal_strlit(".cdg");
    let front = base + " "@ + track_suffix(num, total);
    lemma_kind_of_joined(front, "bin"@);
    lemma_kind_of_joined(front, "cdg"@);
    assert(front + ".bin"@ =~= front + seq!['.'] + "bin"@);
    assert(front + ".cdg"@ =~= front + seq!['.'] + "cdg"@);
    assert(lower_ascii_text("bin"@) =~= "bin"@);
    assert(lower_ascii_text("cdg"@) =~= "cdg"@);
}

/// Track files that are named after the title already keep their names. The lower case of the
/// title, with a blank after it, must hold no `(track ` of its own.
pub proof fn law_renamed_track_keeps_its_name(base: Seq<char>, num: int, total: int)
    requires
        0 <= num <= u32::MAX,
        !occurs(lower_text(base) + " "@, "(track "@),
    ensures
        ({
            let name = base + " "@ + track_suffix(num, total) + ".bin"@;
            forall|per_track: bool| #[trigger]
                preview_of(name, lower_text(name), base, total, per_track) == Some(
                    PreviewModel { old_name: name, new_name: name, kind: "bin"@ },
                )
        }),
        ({
            let name = base + " "@ + track_suffix(num, total) + ".cdg"@;
            preview_of(name, lower_text(name), base, total, true) == Some(
                PreviewModel { old_name: name, new_name: name, kind: "cdg"@ },
            )
        }),
{
    reveal_strlit(".bin");
    reveal_strlit(".cdg");
    lemma_kind_of_track_file(base, num, total);
    law_track_number_of_name(base, num, total, ".bin"@);
    law_track_number_of_name(base, num, total, ".cdg"@);
}

/// A sheet that is named after the title already keeps its name.
pub proof fn law_renamed_sheet_keeps_its_name(
    base: Seq<char>,
    lower: Seq<char>,
    total: int,
    per_track: bool,
)
    requires
        base.len() > 0,
    ensures
        preview_of(base + ".cue"@, lower, base, total, per_track) == Some(
            PreviewModel { old_name: base + ".cue"@, new_name: base + ".cue"@, kind: "cue"@ },
        ),
{
    reveal_strlit("cue");
    reveal_strlit("bin");
    reveal_strlit(".cue");
    lemma_kind_of_joined(base, "cue"@);
    assert(base + ".cue"@ =~= base + seq!['.'] + "cue"@);
    assert(lower_ascii_text("cue"@) =~= "cue"@);
    assert("cue"@[0] != "bin"@[0]);
}

/// A name for the graphics of a whole disc gives its qualifier back.
proof fn lemma_disc_graphics(base: Seq<char>, s: Seq<char>)
    requires
        base.len() > 0,
    ensures
        kind_of(base + qualifier(s) + ".cdg"@) == FileKind::Cdg,
        stem(base + qualifier(s) + ".cdg"@) == base + qualifier(s),
        !base.contains('[') ==> qualifier(base + qualifier(s)) == qualifier(s),
{
    reveal_strlit(" ");
    reveal_strlit("cue");
    reveal_strlit("bin");
    reveal_strlit("cdg");
    reveal_strlit(".cdg");
    let q = qualifier(s);
    let front = base + q;
    lemma_kind_of_joined(front, "cdg"@);
    assert(front + ".cdg"@ =~= front + seq!['.'] + "cdg"@);
    assert(lower_ascii_text("cdg"@) =~= "cdg"@);
    assert("cdg"@[1] != "bin"@[1] && "cdg"@[1] != "cue"@[1]);
    if !base.contains('[') {
        let open = next_char(s, '[', 0);
        lemma_next_char(s, '[', 0);
        assert forall|j: int| 0 <= j < base.len() implies base[j] != '[' by {
            assert(base.contains(base[j]));
        }
        if open < s.len() {
            let rest = s.skip(open);
            let t = trim(rest);
            let at = base.len() as int + 1;
            lemma_trim(rest);
            assert(rest[0] == '[');
            assert(t[0] == '[');
            assert(q =~= seq![' '] + t);
            assert forall|j: int| 0 <= j < at implies front[j] != '[' by {
                if j < base.len() {
                    assert(front[j] == base[j]);
                }
            }
            assert(front[at] == t[0]);
            lemma_next_char_is(front, '[', 0, at);
            assert(front.skip(at) =~= t);
            assert(Seq::<char>::empty() + t =~= t);
            lemma_trim_core(seq![], t);
        } else {
            assert(front =~= base);
            lemma_next_char_is(base, '[', 0, base.len() as int);
        }
    }
}

/// The graphics of a whole disc that are named after the title already keep their name, with the
/// qualifier. The title must hold no opening bracket of its own.
pub proof fn law_renamed_graphics_keep_their_name(
    base: Seq<char>,
    s: Seq<char>,
    lower: Seq<char>,
    total: int,
)
    requires
        base.len() > 0,
        !base.contains('['),
    ensures
        ({
            let name = base + qualifier(s) + ".cdg"@;
            preview_of(name, lower, base, total, false) == Some(
                PreviewModel { old_name: name, new_name: name, kind: "cdg"@ },
            )
        }),
{
    lemma_disc_graphics(base, s);
}

/// A file of a disc with `total` tracks is named after the title already, or is of no kind that a
/// rename looks at.
pub open spec fn is_settled(
    name: Seq<char>,
    base: Seq<char>,
    total: int,
    per_track: bool,
) -> bool {
    ||| kind_of(name) == FileKind::Other
    ||| name == base + ".cue"@
    ||| !per_track && !base.contains('[') && exists|s: Seq<char>|
        name == base + #[trigger] qualifier(s) + ".cdg"@
    ||| exists|num: int|
        0 <= num <= u32::MAX && name == base + " "@ + #[trigger] track_suffix(num, total) + ".bin"@
    ||| per_track && exists|num: int|
        0 <= num <= u32::MAX && name == base + " "@ + #[trigger] track_suffix(num, total) + ".cdg"@
}

proof fn lemma_settled_stays(name: Seq<char>, base: Seq<char>, total: int, per_track: bool)
    requires
        base.len() > 0,
        !occurs(lower_text(base) + " "@, "(track "@),
        is_settled(name, base, total, per_track),
    ensures
        preview_of(name, lower_text(name), base, total, per_track) matches Some(p) ==> p.old_name
            == name && p.new_name == name,
        kind_of(name) != FileKind::Other ==> preview_of(
            name,
            lower_text(name),
            base,
            total,
            per_track,
        ) is Some,
{
    if kind_of(name) == FileKind::Other {
    } else if name == base + ".cue"@ {
        law_renamed_sheet_keeps_its_name(base, lower_text(name), total, per_track);
    } else if !per_track && !base.contains('[') && exists|s: Seq<char>|
        name == base + #[trigger] qualifier(s) + ".cdg"@ {
        let s = choose|s: Seq<char>| name == base + #[trigger] qualifier(s) + ".cdg"@;
        law_renamed_graphics_keep_their_name(base, s, lower_text(name), total);
    } else if exists|num: int|
        0 <= num <= u32::MAX && name == base + " "@ + #[trigger] track_suffix(num, total)
            + ".bin"@ {
        let num = choose|num: int|
            0 <= num <= u32::MAX && name == base + " "@ + #[trigger] track_suffix(num, total)
                + ".bin"@;
        law_renamed_track_keeps_its_name(base, num, total);
    } else {
        let num = choose|num: int|
            0 <= num <= u32::MAX && name == base + " "@ + #[trigger] track_suffix(num, total)
                + ".cdg"@;
        law_renamed_track_keeps_its_name(base, num, total);
    }
}

/// A rename of a folder whose files are all named after the title keeps every name. The lower case
/// of the title, with a blank after it, must hold no `(track ` of its own.
pub proof fn law_settled_folder_stays(names: Seq<Seq<char>>, base: Seq<char>, p: PreviewModel)
    requires
        base.len() > 0,
        !occurs(lower_text(base) + " "@, "(track "@),
        forall|k: int|
            0 <= k < names.len() ==> is_settled(
                #[trigger] names[k],
                base,
                track_total(names) as int,
                count_kind(names, FileKind::Cdg) > 1,
            ),
        previews(with_lower(names), base).contains(p),
    ensures
        p.new_name == p.old_name,
{
    let files = with_lower(names);
    assert(plain_names(files) =~= names);
    law_renames_are_complete(files, base, p);
    let total = track_total(names) as int;
    let per_track = count_kind(names, FileKind::Cdg) > 1;
    let k = choose|k: int|
        0 <= k < files.len() && preview_of(
            (#[trigger] files[k]).0,
            files[k].1,
            base,
            total,
            per_track,
        ) == Some(p);
    assert(files[k] == (names[k], lower_text(names[k])));
    lemma_settled_stays(names[k], base, total, per_track);
}

/// What a rename makes of a file is named after the title, and of the kind that the file was of.
proof fn lemma_renamed_is_settled(
    name: Seq<char>,
    lower: Seq<char>,
    base: Seq<char>,
    total: int,
    per_track: bool,
)
    requires
        base.len() > 0,
        kind_of(name) == FileKind::Cdg && !per_track ==> !base.contains('['),
    ensures
        preview_of(name, lower, base, total, per_track) matches Some(p) ==> is_settled(
            p.new_name,
            base,
            total,
            per_track,
        ) && kind_of(p.new_name) == kind_of(name),
{
    if let Some(p) = preview_of(name, lower, base, total, per_track) {
        match kind_of(name) {
            FileKind::Cue => {
                law_renamed_sheet_keeps_its_name(base, lower, total, per_track);
            },
            FileKind::Cdg => if per_track {
                let num = track_number(lower)->0;
                lemma_track_number_bounds(lower);
                lemma_kind_of_track_file(base, num, total);
                assert(p.new_name == base + " "@ + track_suffix(num, total) + ".cdg"@);
            } else {
                lemma_disc_graphics(base, stem(name));
                assert(p.new_name == base + qualifier(stem(name)) + ".cdg"@);
            },
            FileKind::Bin => {
                let num = track_number(lower)->0;
                lemma_track_number_bounds(lower);
                lemma_kind_of_track_file(base, num, total);
                assert(p.new_name == base + " "@ + track_suffix(num, total) + ".bin"@);
            },
            FileKind::Other => {},
        }
    }
}

proof fn lemma_track_number_bounds(lower: Seq<char>)
    ensures
        track_number(lower) matches Some(num) ==> 0 <= num <= u32::MAX,
{
    lemma_read_decimal_bounds(bracketed_digits(lower), u32::MAX as int);
    lemma_read_decimal_bounds(loose_digits(lower), u32::MAX as int);
}

/// Every new name that the list of renames shows is named after the title. With graphics for the
/// whole disc, the title must hold no opening bracket of its own.
pub proof fn law_new_names_are_settled(
    names: Seq<Seq<char>>,
    base: Seq<char>,
    p: PreviewModel,
)
    requires
        base.len() > 0,
        count_kind(names, FileKind::Cdg) == 1 ==> !base.contains('['),
        previews(with_lower(names), base).contains(p),
    ensures
        is_settled(
            p.new_name,
            base,
            track_total(names) as int,
            count_kind(names, FileKind::Cdg) > 1,
        ),
{
    let files = with_lower(names);
    let total = track_total(names) as int;
    let per_track = count_kind(names, FileKind::Cdg) > 1;
    assert(plain_names(files) =~= names);
    law_renames_are_complete(files, base, p);
    let k = choose|k: int|
        0 <= k < files.len() && preview_of(
            (#[trigger] files[k]).0,
            files[k].1,
            base,
            total,
            per_track,
        ) == Some(p);
    assert(files[k] == (names[k], lower_text(names[k])));
    lemma_count_positive(names, k);
    lemma_renamed_is_settled(names[k], lower_text(names[k]), base, total, per_track);
}

/// A file is counted among those of its kind.
proof fn lemma_count_positive(names: Seq<Seq<char>>, k: int)
    requires
        0 <= k < names.len(),
    ensures
        count_kind(names, kind_of(names[k])) > 0,
{
    let pred = |n: Seq<char>| kind_of(n) == kind_of(names[k]);
    names.lemma_filter_contains(pred, k);
}

/// The names of a folder after a rename of its files.
pub open spec fn renamed(names: Seq<Seq<char>>, base: Seq<char>) -> Seq<Seq<char>> {
    names.map_values(
        |n: Seq<char>|
            match preview_of(
                n,
                lower_text(n),
                base,
                track_total(names) as int,
                count_kind(names, FileKind::Cdg) > 1,
            ) {
                Some(p) => p.new_name,
                None => n,
            },
    )
}

/// A second rename after the same title looks at as many files as the first and keeps every name.
/// The lower case of the title, with a blank after it, must hold no `(track ` of its own; with
/// graphics for the whole disc, the title must hold no opening bracket of its own.
pub proof fn law_second_rename_changes_nothing(names: Seq<Seq<char>>, base: Seq<char>)
    requires
        base.len() > 0,
        !occurs(lower_text(base) + " "@, "(track "@),
        count_kind(names, FileKind::Cdg) == 1 ==> !base.contains('['),
    ensures
        previews(with_lower(renamed(names, base)), base).len() == previews(
            with_lower(names),
            base,
        ).len(),
        forall|p: PreviewModel| #[trigger]
            previews(with_lower(renamed(names, base)), base).contains(p) ==> p.new_name
                == p.old_name,
{
    let le = |a: PreviewModel, b: PreviewModel| preview_le(a, b);
    let after = renamed(names, base);
    let total = track_total(names) as int;
    let per_track = count_kind(names, FileKind::Cdg) > 1;
    let f = made_of(names, base);
    assert forall|k: int| 0 <= k < names.len() implies kind_of(#[trigger] after[k]) == kind_of(
        names[k],
    ) && (f(names[k]) is Some ==> is_settled(after[k], base, total, per_track)) && (f(
        names[k],
    ) is None ==> after[k] == names[k]) by {
        lemma_count_positive(names, k);
        lemma_renamed_is_settled(names[k], lower_text(names[k]), base, total, per_track);
    }
    lemma_same_counts(names, after, FileKind::Bin);
    lemma_same_counts(names, after, FileKind::Cdg);
    assert(made_of(after, base) == f);
    assert forall|k: int| 0 <= k < names.len() implies f(#[trigger] after[k]) is Some == f(
        names[k],
    ) is Some && (f(after[k]) matches Some(p) ==> p.old_name == after[k] && p.new_name
        == after[k]) by {
        assert(kind_of(after[k]) == kind_of(names[k]));
        if f(names[k]) is Some {
            lemma_settled_stays(after[k], base, total, per_track);
        }
    }
    lemma_made_of(names, base);
    lemma_made_of(after, base);
    lemma_same_len(names, after, f);
    lemma_preview_ranking();
    let second = previews(with_lower(after), base);
    assert forall|p: PreviewModel| #[trigger] second.contains(p) implies p.new_name
        == p.old_name by {
        law_sort_keeps_items(after.filter_map(f), le, p);
        after.lemma_filter_map_contains(f, p);
        let n = choose|n: Seq<char>| #[trigger] after.contains(n) && f(n) == Some(p);
        let k = choose|k: int| 0 <= k < after.len() && after[k] == n;
        assert(f(after[k]) == Some(p));
    }
    lemma_stable_sort_exists(names.filter_map(f), le);
    lemma_stable_sort_exists(after.filter_map(f), le);
}

/// Names that are of the same kinds, one by one, are counted alike.
proof fn lemma_same_counts(a: Seq<Seq<char>>, b: Seq<Seq<char>>, kind: FileKind)
    requires
        a.len() == b.len(),
        forall|k: int| 0 <= k < a.len() ==> kind_of(#[trigger] b[k]) == kind_of(a[k]),
    ensures
        count_kind(a, kind) == count_kind(b, kind),
    decreases a.len(),
{
    reveal(Seq::filter);
    if a.len() > 0 {
        let (a0, b0) = (a.drop_last(), b.drop_last());
        assert forall|k: int| 0 <= k < a0.len() implies kind_of(#[trigger] b0[k]) == kind_of(
            a0[k],
        ) by {
            assert(b0[k] == b[k]);
        }
        lemma_same_counts(a0, b0, kind);
        assert(kind_of(b[b.len() - 1]) == kind_of(a[a.len() - 1]));
    }
}

/// Lists of which as much comes, item by item, give lists of the same length.
proof fn lemma_same_len<A, B>(a: Seq<A>, b: Seq<A>, f: spec_fn(A) -> Option<B>)
    requires
        a.len() == b.len(),
        forall|k: int| 0 <= k < a.len() ==> f(#[trigger] b[k]) is Some == f(a[k]) is Some,
    ensures
        a.filter_map(f).len() == b.filter_map(f).len(),
    decreases a.len(),
{
    if a.len() > 0 {
        let (a0, b0) = (a.drop_last(), b.drop_last());
        assert forall|k: int| 0 <= k < a0.len() implies f(#[trigger] b0[k]) is Some == f(
            a0[k],
        ) is Some by {
            assert(b0[k] == b[k]);
        }
        lemma_same_len(a0, b0, f);
        assert(f(b[b.len() - 1]) is Some == f(a[a.len() - 1]) is Some);
    }
}

/// The track files of a split disc are named as a rename names them.
pub proof fn law_split_names_are_rename_names(
    base: Seq<char>,
    lower: Seq<char>,
    num: int,
    total: int,
)
    requires
        total != 1,
        track_number(lower) == Some(num),
    ensures
        track_name(base, lower, total, ".bin"@) == Some(track_file_name(base, num, total)),
{
}

} // verus!
