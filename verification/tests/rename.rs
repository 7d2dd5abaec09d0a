use cdg_archive::rename::{compute_renames, preview_rename, renames_of};
use cdg_archive::rename::{CasedName, RenamePreview};
use cdg_archive::rename_plan::{
    do_rename, fresh_cue_for, gen_fresh_multi_bin_cue, rename_failure, renames_to_do, sheet_to_read,
    update_cue_content,
};
use cdg_archive::rename_plan::{NumberedFile, RenameStep};
use cdg_archive::sheet::{cue_file_names, parse_cue_full};

fn names(list: &[&str]) -> Result<Vec<String>, String> {
    Ok(list.iter().map(|s| s.to_string()).collect())
}

fn preview(old_name: &str, new_name: &str, kind: &str) -> RenamePreview {
    RenamePreview {
        old_name: old_name.to_string(),
        new_name: new_name.to_string(),
        kind: kind.to_string(),
    }
}

fn same(list: &[RenamePreview]) -> Vec<bool> {
    list.iter().map(|r| r.old_name == r.new_name).collect()
}

#[test]
fn renames_of_a_folder() {
    let listing = names(&["t (Track 2).BIN", "disc.cue", "readme.txt", "Track 1.bin", "x.bin", "sub.cdg"]);
    assert_eq!(
        compute_renames(&listing, "Base"),
        Ok(vec![
            preview("Track 1.bin", "Base (Track 1).bin", "bin"),
            preview("t (Track 2).BIN", "Base (Track 2).bin", "bin"),
            preview("sub.cdg", "Base.cdg", "cdg"),
            preview("disc.cue", "Base.cue", "cue"),
        ])
    );
}

#[test]
fn numbers_are_padded_from_ten_files_on() {
    let list: Vec<String> = (1..=10).map(|n| format!("Track {}.bin", n)).collect();
    let renames = compute_renames(&Ok(list), "B").unwrap();
    assert_eq!(renames.len(), 10);
    assert_eq!(renames[0], preview("Track 1.bin", "B (Track 01).bin", "bin"));
    assert_eq!(renames[1], preview("Track 10.bin", "B (Track 10).bin", "bin"));
    assert_eq!(renames[2], preview("Track 2.bin", "B (Track 02).bin", "bin"));
}

#[test]
fn the_larger_number_of_files_decides_on_padding() {
    let mut list: Vec<String> = (1..=10).map(|n| format!("Track {}.cdg", n)).collect();
    list.push("Track 1.bin".to_string());
    let renames = compute_renames(&Ok(list), "B").unwrap();
    assert_eq!(renames[0], preview("Track 1.bin", "B (Track 01).bin", "bin"));
    assert_eq!(renames[1], preview("Track 1.cdg", "B (Track 01).cdg", "cdg"));
}

#[test]
fn a_single_bin_keeps_its_number() {
    let renames = compute_renames(&names(&["a (Track 1).bin", "b.cue"]), "B").unwrap();
    assert_eq!(renames[0].new_name, "B (Track 1).bin");
}

#[test]
fn a_single_cdg_keeps_its_qualifier() {
    let list = |name: &str| compute_renames(&names(&[name]), "B").unwrap();
    assert_eq!(list("a [v2] .cdg"), vec![preview("a [v2] .cdg", "B [v2].cdg", "cdg")]);
    assert_eq!(list("a[x].y.cdg"), vec![preview("a[x].y.cdg", "B [x].y.cdg", "cdg")]);
    assert_eq!(list("[.cdg"), vec![preview("[.cdg", "B [.cdg", "cdg")]);
    assert_eq!(list("a.CDG"), vec![preview("a.CDG", "B.cdg", "cdg")]);
    // With more than one, each belongs to a track.
    let two = compute_renames(&names(&["a [v2].cdg", "Track 3 [x].cdg"]), "B").unwrap();
    assert_eq!(two, vec![preview("Track 3 [x].cdg", "B (Track 3).cdg", "cdg")]);
}

#[test]
fn names_are_given_in_lower_case() {
    let cased = |name: &str, lower: &str| CasedName { name: name.to_string(), lower: lower.to_string() };
    let files = vec![cased("A.bin", "track 5"), cased("Track 6.bin", "nothing")];
    assert_eq!(renames_of(&files, "B"), vec![preview("A.bin", "B (Track 5).bin", "bin")]);
    // The Kelvin sign has the letter k as its lower case.
    let kelvin = compute_renames(&names(&["trac\u{212a} 6.bin"]), "B").unwrap();
    assert_eq!(kelvin, vec![preview("trac\u{212a} 6.bin", "B (Track 6).bin", "bin")]);
}

#[test]
fn renames_of_equal_names_keep_their_order() {
    let cased = |lower: &str| CasedName { name: "same.bin".to_string(), lower: lower.to_string() };
    let files = vec![cased("track 9"), cased("track 3"), cased("track 5")];
    let new_names: Vec<String> = renames_of(&files, "B").into_iter().map(|r| r.new_name).collect();
    assert_eq!(new_names, vec!["B (Track 9).bin", "B (Track 3).bin", "B (Track 5).bin"]);
}

#[test]
fn a_folder_that_is_renamed_stays() {
    let listing = names(&["B (Track 1).bin", "B (Track 2).bin", "B.cue", "B.cdg", "notes.txt"]);
    let renames = compute_renames(&listing, "B").unwrap();
    assert_eq!(renames.len(), 4);
    assert!(renames.iter().all(|r| r.old_name == r.new_name));
    let text = "FILE \"B (Track 1).bin\" BINARY\nFILE \"B (Track 2).bin\" BINARY\n";
    assert_eq!(update_cue_content(text, &renames), text);
}

fn renamed(list: &[&str], base: &str) -> Vec<String> {
    let renames = compute_renames(&names(list), base).unwrap();
    list.iter()
        .map(|n| match renames.iter().find(|r| r.old_name == *n) {
            Some(r) => r.new_name.clone(),
            None => n.to_string(),
        })
        .collect()
}

#[test]
fn a_second_rename_changes_nothing() {
    let folders: [&[&str]; 4] = [
        &["Track 2.bin", "x (Track 1).BIN", "x.cue", "x [v 2] .cdg", "y.bin", "z.txt"],
        &["Track 2.cdg", "Track 1.cdg", "x.cdg", "a.CUE"],
        &["Track01.bin", "[.cdg"],
        &[],
    ];
    for list in folders {
        for base in ["B", "Some Title", "\u{39f}\u{3a3}", "\u{130} x"] {
            let first = compute_renames(&names(list), base).unwrap();
            let second = compute_renames(&Ok(renamed(list, base)), base).unwrap();
            assert_eq!(first.len(), second.len());
            assert!(second.iter().all(|r| r.old_name == r.new_name));
        }
    }
    // A title with a bracket is taken for a qualifier.
    let list = ["x.cdg"];
    assert_eq!(renamed(&list, "B [1]"), vec!["B [1].cdg"]);
    assert_eq!(renamed(&["B [1].cdg"], "B [1]"), vec!["B [1] [1].cdg"]);
}

#[test]
fn the_order_of_the_listing_does_not_matter() {
    let mut list: Vec<String> =
        names(&["Track 2.bin", "x.cue", "Track 10.bin", "a.cue", "q.cdg", "Track 1.bin", "z"]).unwrap();
    let renames = compute_renames(&Ok(list.clone()), "B").unwrap();
    for _ in 0..list.len() {
        list.rotate_left(1);
        assert_eq!(compute_renames(&Ok(list.clone()), "B").unwrap(), renames);
    }
    list.reverse();
    assert_eq!(compute_renames(&Ok(list), "B").unwrap(), renames);
    for (i, r) in renames.iter().enumerate() {
        assert!(["bin", "cdg", "cue"].contains(&r.kind.as_str()));
        assert!(renames[..i].iter().all(|q| q.old_name != r.old_name));
    }
}

#[test]
fn a_folder_that_cannot_be_listed() {
    let listing = Err("denied".to_string());
    assert_eq!(compute_renames(&listing, "B"), Err("Cannot read folder: denied".to_string()));
    assert_eq!(renames_to_do(&listing, "B"), Err("Cannot read folder: denied".to_string()));
    assert_eq!(
        preview_rename(true, &listing, "B"),
        Err("Cannot read folder: denied".to_string())
    );
}

#[test]
fn a_preview_checks_its_arguments() {
    let listing = names(&["x.cue"]);
    assert_eq!(
        preview_rename(false, &listing, ""),
        Err("Not a valid directory".to_string())
    );
    assert_eq!(
        preview_rename(true, &listing, " \t\u{3000}\n"),
        Err("Base name cannot be empty".to_string())
    );
    assert_eq!(
        preview_rename(true, &Err("denied".to_string()), ""),
        Err("Base name cannot be empty".to_string())
    );
    assert_eq!(
        preview_rename(true, &listing, "  My Disc "),
        Ok(vec![preview("x.cue", "My Disc.cue", "cue")])
    );
}

#[test]
fn a_rename_does_what_the_preview_shows() {
    let listing = names(&["Track 2.bin", "Track 1.bin", "x.cue", "x.cdg", "B (Track 3).bin"]);
    let shown = preview_rename(true, &listing, " B ").unwrap();
    let renames = renames_to_do(&listing, " B ").unwrap();
    assert_eq!(shown, renames);
    let text = Ok("FILE \"Track 1.bin\" BINARY\n".to_string());
    let steps = do_rename(&renames, &same(&renames), &text).unwrap();
    let moved: Vec<(String, String)> = steps
        .iter()
        .filter_map(|s| match s {
            RenameStep::Rename(a, b) => Some((a.clone(), b.clone())),
            _ => None,
        })
        .collect();
    let expected: Vec<(String, String)> = shown
        .iter()
        .filter(|r| r.kind != "cue" && r.old_name != r.new_name)
        .map(|r| (r.old_name.clone(), r.new_name.clone()))
        .collect();
    assert_eq!(moved, expected);
    assert_eq!(moved.len(), 3);
    let written = steps.iter().position(|s| matches!(s, RenameStep::Write(_, _))).unwrap();
    let first_move = steps.iter().position(|s| matches!(s, RenameStep::Rename(_, _))).unwrap();
    assert!(written < first_move);
}

#[test]
fn names_in_a_sheet_are_replaced() {
    let renames = vec![
        preview("a.bin", "B (Track 1).bin", "bin"),
        preview("b.bin", "B (Track 2).bin", "bin"),
        preview("x.cue", "B.cue", "cue"),
        preview("TITLE", "nothing", "cdg"),
    ];
    assert_eq!(
        update_cue_content("FILE \"a.bin\" BINARY\nTITLE \"b.bin a.bin\"\nx.cue", &renames),
        "FILE \"B (Track 1).bin\" BINARY\nTITLE \"B (Track 2).bin B (Track 1).bin\"\nx.cue"
    );
    assert_eq!(update_cue_content("nothing here", &renames), "nothing here");
    assert_eq!(update_cue_content("", &renames), "");
    assert_eq!(update_cue_content("a.bin", &[]), "a.bin");
}

#[test]
fn replacing_goes_as_for_strings() {
    let one = |text: &str, from: &str, to: &str| {
        let r = update_cue_content(text, &[preview(from, to, "bin")]);
        assert_eq!(r, text.replace(from, to));
        r
    };
    assert_eq!(one("aaaa", "aa", "b"), "bb");
    assert_eq!(one("aaa", "aa", "b"), "ba");
    assert_eq!(one("ab", "", "-"), "-a-b-");
    assert_eq!(one("", "", "-"), "-");
    assert_eq!(one("x\u{e9}x", "\u{e9}", "\u{1f600}"), "x\u{1f600}x");
    assert_eq!(one("abc", "abcd", "x"), "abc");
    assert_eq!(one("abab", "ab", "aba"), "abaaba");
}

#[test]
fn replacing_goes_one_rename_after_the_other() {
    let renames = vec![preview("a", "b", "bin"), preview("b", "c", "bin")];
    assert_eq!(update_cue_content("ab", &renames), "cc");
}

#[test]
fn a_fresh_sheet_goes_by_track_numbers() {
    let renames = vec![
        preview("x", "B (Track 10).bin", "bin"),
        preview("y", "B (Track 2).bin", "bin"),
        preview("z", "no number.bin", "bin"),
    ];
    assert_eq!(
        gen_fresh_multi_bin_cue(&renames),
        "FILE \"no number.bin\" BINARY\n  TRACK 00 AUDIO\n    INDEX 01 00:00:00\nFILE \"B (Track 2).bin\" BINARY\n  TRACK 02 AUDIO\n    INDEX 01 00:00:00\nFILE \"B (Track 10).bin\" BINARY\n  TRACK 10 AUDIO\n    INDEX 01 00:00:00\n"
    );
    assert_eq!(gen_fresh_multi_bin_cue(&[]), "");
}

#[test]
fn a_fresh_sheet_reads_back() {
    let file = |name: &str, num: u32| NumberedFile { name: name.to_string(), num };
    let text = fresh_cue_for(vec![file("c", 7), file("a", 3), file("b", 7), file("\u{fb01}", 1)]);
    assert_eq!(cue_file_names(&text), vec!["\u{fb01}", "a", "c", "b"]);
    let parsed = parse_cue_full(Ok(text), &vec![]).unwrap();
    let nums: Vec<u32> = parsed.files.iter().map(|f| f.tracks[0].num).collect();
    assert_eq!(nums, vec![1, 3, 7, 7]);
    for f in &parsed.files {
        assert_eq!(f.tracks.len(), 1);
        assert_eq!(f.tracks[0].track_type, "AUDIO");
        assert_eq!(f.tracks[0].indexes.len(), 1);
        assert_eq!(f.tracks[0].indexes[0].id, 1);
        assert_eq!(f.tracks[0].indexes[0].sectors, 0);
    }
}

#[test]
fn the_first_sheet_is_read() {
    let renames = vec![
        preview("a.bin", "b.bin", "bin"),
        preview("x.cue", "B.cue", "cue"),
        preview("y.cue", "B.cue", "cue"),
    ];
    assert_eq!(sheet_to_read(&renames), Some(1));
    assert_eq!(sheet_to_read(&renames[..1].to_vec()), None);
    assert_eq!(sheet_to_read(&vec![]), None);
}

#[test]
fn a_rename_is_planned() {
    let renames = vec![
        preview("Track 1.bin", "B (Track 1).bin", "bin"),
        preview("x.cue", "B.cue", "cue"),
    ];
    let text = Ok("FILE \"Track 1.bin\" BINARY\n".to_string());
    assert_eq!(
        do_rename(&renames, &same(&renames), &text),
        Ok(vec![
            RenameStep::Write("B.cue".to_string(), "FILE \"B (Track 1).bin\" BINARY\n".to_string()),
            RenameStep::Remove("x.cue".to_string()),
            RenameStep::Report("  x.cue \u{2192} B.cue".to_string()),
            RenameStep::Rename("Track 1.bin".to_string(), "B (Track 1).bin".to_string()),
            RenameStep::Report("  Track 1.bin \u{2192} B (Track 1).bin".to_string()),
        ])
    );
}

#[test]
fn a_sheet_of_the_same_path_is_not_removed() {
    let renames = vec![preview("B (Track 1).bin", "B (Track 1).bin", "bin"), preview("B.cue", "B.cue", "cue")];
    assert_eq!(
        do_rename(&renames, &same(&renames), &Ok("text".to_string())),
        Ok(vec![
            RenameStep::Write("B.cue".to_string(), "text".to_string()),
            RenameStep::Report("  B.cue \u{2192} B.cue".to_string()),
        ])
    );
}

#[test]
fn a_file_whose_name_stays_is_left_alone() {
    let renames = vec![
        preview("B (Track 1).bin", "B (Track 1).bin", "bin"),
        preview("Track 2.bin", "B (Track 2).bin", "bin"),
        preview("B.cdg", "B.cdg", "cdg"),
        preview("B.cue", "B.cue", "cue"),
    ];
    let expected = vec![
        RenameStep::Write("B.cue".to_string(), "B (Track 2).bin".to_string()),
        RenameStep::Report("  B.cue \u{2192} B.cue".to_string()),
        RenameStep::Rename("Track 2.bin".to_string(), "B (Track 2).bin".to_string()),
        RenameStep::Report("  Track 2.bin \u{2192} B (Track 2).bin".to_string()),
    ];
    let text = Ok("Track 2.bin".to_string());
    assert_eq!(do_rename(&renames, &same(&renames), &text).unwrap(), expected);
    assert_eq!(do_rename(&renames, &vec![false; 4], &text).unwrap(), expected);
}

#[test]
fn a_file_whose_path_stays_is_left_alone() {
    let renames = vec![preview("x.cdg", "./x.cdg", "cdg"), preview("x.cue", "./x.cue", "cue")];
    assert_eq!(
        do_rename(&renames, &vec![true; 2], &Ok("t".to_string())).unwrap(),
        vec![
            RenameStep::Write("./x.cue".to_string(), "t".to_string()),
            RenameStep::Report("  x.cue \u{2192} ./x.cue".to_string()),
        ]
    );
}

#[test]
fn only_the_first_sheet_is_written() {
    let renames = vec![preview("x.cue", "B.cue", "cue"), preview("y.cue", "B.cue", "cue")];
    let steps = do_rename(&renames, &same(&renames), &Ok("t".to_string())).unwrap();
    assert_eq!(
        steps,
        vec![
            RenameStep::Write("B.cue".to_string(), "t".to_string()),
            RenameStep::Remove("x.cue".to_string()),
            RenameStep::Report("  x.cue \u{2192} B.cue".to_string()),
        ]
    );
}

#[test]
fn a_stale_sheet_is_written_anew() {
    let renames = vec![
        preview("Track 1.bin", "B (Track 1).bin", "bin"),
        preview("Track 2.bin", "B (Track 2).bin", "bin"),
        preview("x.cue", "B.cue", "cue"),
    ];
    let steps = do_rename(&renames, &same(&renames), &Ok("FILE \"other.bin\" BINARY\n".to_string())).unwrap();
    assert_eq!(
        steps[0],
        RenameStep::Log(
            "  CUE references unknown filenames \u{2014} regenerating from actual files".to_string()
        )
    );
    assert_eq!(
        steps[1],
        RenameStep::Write("B.cue".to_string(), gen_fresh_multi_bin_cue(&renames[..2]))
    );
    assert_eq!(steps.len(), 8);
    // One of the names is enough to keep the sheet.
    let steps = do_rename(&renames, &same(&renames), &Ok("Track 2.bin".to_string())).unwrap();
    assert_eq!(steps[0], RenameStep::Write("B.cue".to_string(), "B (Track 2).bin".to_string()));
    // A single file is no reason to write it anew.
    let one = vec![preview("Track 1.bin", "B (Track 1).bin", "bin"), preview("x.cue", "B.cue", "cue")];
    let steps = do_rename(&one, &same(&one), &Ok("other".to_string())).unwrap();
    assert_eq!(steps[0], RenameStep::Write("B.cue".to_string(), "other".to_string()));
}

#[test]
fn a_sheet_that_cannot_be_read() {
    let renames = vec![preview("x.cue", "B.cue", "cue")];
    assert_eq!(
        do_rename(&renames, &same(&renames), &Err("denied".to_string())),
        Err("Cannot read x.cue: denied".to_string())
    );
    // Without a sheet nothing is read.
    let renames = vec![preview("Track 1.bin", "B (Track 1).bin", "bin")];
    let steps = do_rename(&renames, &same(&renames), &Err("denied".to_string())).unwrap();
    assert_eq!(steps.len(), 2);
    assert_eq!(do_rename(&vec![], &vec![], &Err("denied".to_string())), Ok(vec![]));
}

#[test]
fn failures_of_a_rename() {
    let e = "why";
    let a = || "a".to_string();
    assert_eq!(rename_failure(&RenameStep::Write(a(), "t".to_string()), e), "Cannot write a: why");
    assert_eq!(rename_failure(&RenameStep::Remove(a()), e), "Cannot remove a: why");
    assert_eq!(rename_failure(&RenameStep::Rename(a(), "b".to_string()), e), "Cannot rename a: why");
    assert_eq!(rename_failure(&RenameStep::Log(a()), e), "why");
    assert_eq!(rename_failure(&RenameStep::Report(a()), e), "why");
}
