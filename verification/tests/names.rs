use cdg_archive::names::{
    derive_identifier, extract_track_num, format_track_suffix, track_bin_name, track_num_in_lower,
};

#[test]
fn suffixes_are_padded_from_ten_tracks_on() {
    assert_eq!(format_track_suffix(1, 9), "(Track 1)");
    assert_eq!(format_track_suffix(1, 10), "(Track 01)");
    assert_eq!(format_track_suffix(12, 10), "(Track 12)");
    assert_eq!(format_track_suffix(100, 120), "(Track 100)");
    assert_eq!(format_track_suffix(0, 0), "(Track 0)");
}

#[test]
fn track_files_are_named() {
    assert_eq!(track_bin_name("Base", 1, 1), "Base.bin");
    assert_eq!(track_bin_name("Base", 1, 9), "Base (Track 1).bin");
    assert_eq!(track_bin_name("Base", 1, 10), "Base (Track 01).bin");
    assert_eq!(track_bin_name("Base", 4_294_967_295, 99), "Base (Track 4294967295).bin");
    assert_eq!(track_bin_name("", 2, 0), " (Track 2).bin");
}

#[test]
fn track_numbers_are_extracted() {
    assert_eq!(extract_track_num("Base (Track 1).bin"), Some(1));
    assert_eq!(extract_track_num("Base (Track 01).bin"), Some(1));
    assert_eq!(extract_track_num("01 - Track  1.bin"), Some(1));
    assert_eq!(extract_track_num("Track01.bin"), Some(1));
    assert_eq!(extract_track_num("TRACK\u{a0}\t07.bin"), Some(7));
    assert_eq!(extract_track_num("BASE (TRACK 12).BIN"), Some(12));
    assert_eq!(extract_track_num("Base.bin"), None);
    assert_eq!(extract_track_num("track.bin"), None);
    assert_eq!(extract_track_num("track -1.bin"), None);
    assert_eq!(extract_track_num(""), None);
}

#[test]
fn digits_in_brackets_go_first() {
    assert_eq!(extract_track_num("Track 3 (Track 5).bin"), Some(5));
    assert_eq!(extract_track_num("Track 3 (Track five).bin"), Some(3));
}

#[test]
fn only_the_first_track_counts() {
    assert_eq!(extract_track_num("track five track 6.bin"), None);
    assert_eq!(extract_track_num("(track a) (track 2).bin"), None);
}

#[test]
fn numbers_beyond_32_bits_give_none() {
    assert_eq!(extract_track_num("Track 4294967295.bin"), Some(4_294_967_295));
    assert_eq!(extract_track_num("Track 4294967296.bin"), None);
    // The digits in brackets decide even where they are too large.
    assert_eq!(extract_track_num("Track 1 (Track 99999999999).bin"), None);
}

#[test]
fn lower_case_is_taken_before_the_search() {
    assert_eq!(track_num_in_lower("base (track 3).bin"), Some(3));
    assert_eq!(track_num_in_lower("Base (Track 3).bin"), None);
    assert_eq!(extract_track_num("Base (Track 3).bin"), Some(3));
    // The Kelvin sign has the letter k as its lower case.
    assert_eq!(extract_track_num("TRAC\u{212a} 4.bin"), Some(4));
}

#[test]
fn names_give_their_numbers_back() {
    for total in [2usize, 9, 10, 99] {
        for num in [0u32, 1, 9, 10, 42, u32::MAX] {
            let name = track_bin_name("Some Title", num, total);
            assert_eq!(extract_track_num(&name), Some(num));
        }
    }
    // A title that holds a number of its own hides that of the track.
    assert_eq!(extract_track_num(&track_bin_name("A (Track 7) B", 1, 2)), Some(7));
}

#[test]
fn suffixes_give_their_numbers_back() {
    for total in [0usize, 1, 9, 10, 99] {
        for num in [0u32, 1, 9, 10, 42, u32::MAX] {
            assert_eq!(extract_track_num(&format_track_suffix(num, total)), Some(num));
        }
    }
}

#[test]
fn any_title_lets_the_number_through() {
    for code in 0x80u32..=0x10FFFF {
        if let Some(c) = char::from_u32(code) {
            if c.to_lowercase().ne([c]) {
                let name = track_bin_name(&format!("A{}", c), 5, 2);
                assert_eq!(extract_track_num(&name), Some(5), "{:x}", code);
            }
        }
    }
    // A sigma at the end of a word and within one.
    for title in ["\u{39f}\u{3a3}", "\u{39f}\u{3a3}\u{39f}\u{3a3}.", "\u{3a3}"] {
        assert_eq!(extract_track_num(&track_bin_name(title, 12, 20)), Some(12));
    }
}

#[test]
fn identifiers_are_derived() {
    assert_eq!(derive_identifier("Sound Choice SC8125".to_string()), "sound-choice-sc8125");
    assert_eq!(derive_identifier("  A -- b__C!  ".to_string()), "a-b-c");
    assert_eq!(derive_identifier("Caf\u{e9} Hits".to_string()), "caf-hits");
    assert_eq!(derive_identifier("\u{212a}elvin".to_string()), "elvin");
    assert_eq!(derive_identifier("---".to_string()), "");
    assert_eq!(derive_identifier("".to_string()), "");
    assert_eq!(derive_identifier("already-fine-1".to_string()), "already-fine-1");
}

#[test]
fn an_identifier_is_its_own_identifier() {
    for title in ["Sound Choice SC8125", "a  b", "-x-", "\u{df}Z9", "", "(Disc 1) [Vol. 2]"] {
        let id = derive_identifier(title.to_string());
        assert!(id.chars().all(|c| c.is_ascii_lowercase() || c.is_ascii_digit() || c == '-'));
        assert!(!id.starts_with('-') && !id.ends_with('-') && !id.contains("--"));
        assert_eq!(derive_identifier(id.clone()), id);
    }
}
