use cdg_archive::cue::{CueFile, CueTrack, ParsedCue};
use cdg_archive::layout::{bin_split, detect_layout, find_sheet, tracks_in_range, LayoutInfo};
use cdg_archive::names::track_bin_name;
use cdg_archive::scan::{mark_file, scan_folder, scan_folder_checked, scan_marks};
use cdg_archive::scan::{BaseGuess, FileMark, ScanResult};

fn names(list: &[&str]) -> Result<Vec<String>, String> {
    Ok(list.iter().map(|s| s.to_string()).collect())
}

fn scan(list: &[&str], folder_name: Option<&str>) -> ScanResult {
    let name = folder_name.map(|s| s.to_string());
    let found = scan_folder(true, &names(list), name.clone()).unwrap();
    assert_eq!(scan_folder_checked(true, &names(list), name).unwrap().unwrap(), found);
    found
}

fn base(title: &str) -> FileMark {
    FileMark::Bin(BaseGuess::Base(title.to_string()))
}

fn parsed(track_counts: &[usize]) -> ParsedCue {
    ParsedCue {
        files: track_counts
            .iter()
            .map(|&n| CueFile {
                name: "x".to_string(),
                size_bytes: 0,
                tracks: (0..n)
                    .map(|_| CueTrack {
                        num: 1,
                        track_type: "AUDIO".to_string(),
                        indexes: vec![],
                        sectors: None,
                    })
                    .collect(),
            })
            .collect(),
        blocksize: 2352,
    }
}

#[test]
fn files_are_marked() {
    assert_eq!(mark_file("A (Track 1).bin", "a (track 1).bin", ""), base("A"));
    assert_eq!(mark_file(" (Track 1).bin", " (track 1).bin", ""), base(""));
    assert_eq!(
        mark_file("A(Track 1).bin", "a(track 1).bin", ""),
        FileMark::Bin(BaseGuess::Nothing)
    );
    assert_eq!(mark_file("A.cdg", "a.cdg", "a"), FileMark::Cdg);
    assert_eq!(mark_file("A.txt", "a.txt", "a"), FileMark::Other);
    assert_eq!(
        mark_file("Title.cue", "title.cue", "title"),
        FileMark::Cue(Some("Title".to_string()))
    );
}

#[test]
fn generic_sheets_give_no_title() {
    for (name, lower) in [("abc.cue", "abc"), ("cue.cue", "cue"), ("DISC.cue", "disc"), ("Track.cue", "track"), ("CD.cue", "cd")] {
        assert_eq!(mark_file(name, &name.to_lowercase(), lower), FileMark::Cue(None));
    }
    // Four bytes are enough, and bytes are what is counted.
    assert_eq!(mark_file("abcd.cue", "abcd.cue", "abcd"), FileMark::Cue(Some("abcd".to_string())));
    assert_eq!(
        mark_file("\u{e9}\u{e9}.cue", "\u{e9}\u{e9}.cue", "\u{e9}\u{e9}"),
        FileMark::Cue(Some("\u{e9}\u{e9}".to_string()))
    );
    assert_eq!(mark_file("a\u{e9}.cue", "a\u{e9}.cue", "a\u{e9}"), FileMark::Cue(None));
}

#[test]
fn a_folder_is_scanned() {
    assert_eq!(
        scan(&["A (Track 1).bin", "A (Track 2).BIN", "A.cdg", "cd.cue", "x.txt"], Some("Folder")),
        ScanResult {
            bin_count: 2,
            cue_found: true,
            cdg_found: true,
            detected_base_name: Some("A".to_string()),
        }
    );
    assert_eq!(
        scan(&[], None),
        ScanResult { bin_count: 0, cue_found: false, cdg_found: false, detected_base_name: None }
    );
}

#[test]
fn titles_go_by_their_source() {
    let title = |list: &[&str], folder: Option<&str>| scan(list, folder).detected_base_name;
    assert_eq!(title(&["A (Track 1).bin", "Sheet.cue"], Some("F")), Some("Sheet".to_string()));
    assert_eq!(title(&["Sheet.cue", "A (Track 1).bin"], Some("F")), Some("Sheet".to_string()));
    assert_eq!(title(&["One1.cue", "Two2.cue"], Some("F")), Some("Two2".to_string()));
    assert_eq!(title(&["A (Track 1).bin", "B (Track 1).bin"], Some("F")), Some("A".to_string()));
    assert_eq!(title(&["x.bin"], Some("F")), Some("F".to_string()));
    assert_eq!(title(&["x.bin"], Some("")), None);
    assert_eq!(title(&["x.bin"], None), None);
}

#[test]
fn the_title_is_read_back_from_track_names() {
    for total in [2usize, 12] {
        let name = track_bin_name("Some Title", 7, total);
        assert_eq!(scan(&[&name], Some("F")).detected_base_name, Some("Some Title".to_string()));
    }
    let name = track_bin_name("\u{c9}t\u{e9}", 7, 2);
    assert_eq!(scan(&[&name], None).detected_base_name, Some("\u{c9}t\u{e9}".to_string()));
    let name = track_bin_name("\u{39f}\u{3a3}", 7, 2);
    assert_eq!(scan(&[&name], None).detected_base_name, Some("\u{39f}\u{3a3}".to_string()));
}

#[test]
fn lower_case_of_another_length() {
    // The lower case of this letter is a byte longer, which shifts the place of the track number.
    assert_eq!(scan(&["\u{130} (Track 1).bin"], None).detected_base_name, Some("\u{130} ".to_string()));
    assert_eq!(
        scan(&["\u{130}\u{130}\u{e9} (Track 1).bin"], None).detected_base_name,
        Some("\u{130}\u{130}\u{e9} (".to_string())
    );
    // The Kelvin sign is three bytes long, and the letter k, its lower case, is one.
    assert_eq!(
        scan(&["\u{212a}\u{e9} (Track 1).bin"], None).detected_base_name,
        Some("\u{212a}".to_string())
    );
}

#[test]
fn names_that_cannot_be_parted() {
    assert_eq!(
        mark_file("x.bin", "0123456789 (track 1)", ""),
        FileMark::Bin(BaseGuess::Broken)
    );
    assert_eq!(mark_file("\u{e9}.bin", "x (track 1)", ""), FileMark::Bin(BaseGuess::Broken));
    assert_eq!(mark_file("\u{e9}.bin", "xx (track 1)", ""), base("\u{e9}"));
    assert_eq!(mark_file("x.bin", "01234 (track 1)", ""), base("x.bin"));
}

#[test]
fn a_name_that_cannot_be_parted_stops_the_scan() {
    let name = "a\u{212a} (Track 1).bin";
    assert_eq!(name.to_lowercase().find(" (track "), Some(2));
    assert!(!name.is_char_boundary(2));
    assert_eq!(scan_folder_checked(true, &names(&[name]), None), None);
    // Where a title is known before, the name is not looked at.
    let found = scan(&["Sheet.cue", name], None);
    assert_eq!(found.detected_base_name, Some("Sheet".to_string()));
    assert_eq!(found.bin_count, 1);
    // A sheet that comes later is too late.
    assert_eq!(scan_folder_checked(true, &names(&[name, "Sheet.cue"]), None), None);
}

#[test]
fn a_folder_that_cannot_be_scanned() {
    let no = Err("Not a valid directory".to_string());
    assert_eq!(scan_folder(false, &names(&["x.bin"]), None), no);
    assert_eq!(scan_folder(false, &Err("denied".to_string()), None), no);
    assert_eq!(scan_folder(true, &Err("denied".to_string()), None), Err("denied".to_string()));
    assert_eq!(scan_folder_checked(false, &names(&[]), None), Some(no));
    assert_eq!(
        scan_folder_checked(true, &Err("denied".to_string()), None),
        Some(Err("denied".to_string()))
    );
}

#[test]
fn marks_are_summed_up() {
    let marks = vec![
        FileMark::Bin(BaseGuess::Nothing),
        base("First"),
        FileMark::Bin(BaseGuess::Broken),
        base("Second"),
        FileMark::Cue(None),
        FileMark::Other,
    ];
    assert_eq!(
        scan_marks(&marks, Some("F".to_string())),
        ScanResult {
            bin_count: 4,
            cue_found: true,
            cdg_found: false,
            detected_base_name: Some("First".to_string()),
        }
    );
}

#[test]
fn layouts_are_told() {
    let entries = names(&["a.bin", "b.bin", "x.CUE", "y.cue"]);
    let kind = |counts: &[usize]| {
        let sheet = parsed(counts);
        assert!(tracks_in_range(&sheet));
        detect_layout(&entries, &Ok(sheet)).unwrap()
    };
    let info = |kind: &str, bin_count: u32, track_count: u32| LayoutInfo {
        kind: kind.to_string(),
        bin_count,
        track_count,
    };
    assert_eq!(kind(&[1, 1]), info("multi-bin", 2, 2));
    assert_eq!(kind(&[0, 3]), info("multi-bin", 2, 3));
    assert_eq!(kind(&[5]), info("single-multi-track", 1, 5));
    assert_eq!(kind(&[1]), info("single-single-track", 1, 1));
    assert_eq!(kind(&[]), info("single-single-track", 0, 0));
}

#[test]
fn layouts_without_a_readable_sheet() {
    let sheet = Err("Cannot read CUE: denied".to_string());
    let none = detect_layout(&names(&["a.bin", "b.BIN", "c.cdg"]), &sheet).unwrap();
    assert_eq!(
        none,
        LayoutInfo { kind: "no-cue".to_string(), bin_count: 2, track_count: 0 }
    );
    let broken = detect_layout(&names(&["a.bin", "x.cue"]), &sheet).unwrap();
    assert_eq!(
        broken,
        LayoutInfo {
            kind: "unknown".to_string(),
            bin_count: 1,
            track_count: 0,
        }
    );
    assert_eq!(
        detect_layout(&Err("denied".to_string()), &sheet),
        Err("denied".to_string())
    );
}

#[test]
fn the_kinds_of_layout_are_five() {
    let kinds = ["multi-bin", "single-multi-track", "single-single-track", "no-cue", "unknown"];
    for list in [names(&[]), names(&["x.cue"]), names(&["a.bin", "x.cue"])] {
        for sheet in [Ok(parsed(&[])), Ok(parsed(&[2])), Ok(parsed(&[1, 1])), Err("e".to_string())] {
            let info = detect_layout(&list, &sheet).unwrap();
            assert!(kinds.contains(&info.kind.as_str()));
        }
    }
}

#[test]
fn the_first_sheet_is_found() {
    assert_eq!(find_sheet(&names(&["a.bin", "b.Cue", "c.cue"]).unwrap()), Some(1));
    assert_eq!(find_sheet(&names(&["a.bin", ".cue"]).unwrap()), None);
    assert_eq!(find_sheet(&vec![]), None);
}

#[test]
fn the_disc_to_split_is_chosen() {
    assert_eq!(
        bin_split(&names(&["a.bin", "b.cue"]), " My Disc\n"),
        Ok((1, "My Disc".to_string()))
    );
    assert_eq!(
        bin_split(&names(&["a.bin"]), "x"),
        Err("No .cue file found in folder".to_string())
    );
    assert_eq!(bin_split(&Err("denied".to_string()), "x"), Err("denied".to_string()));
}
