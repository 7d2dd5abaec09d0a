use cdg_archive::cue::{extract_quoted, line_in_range, read_line};
use cdg_archive::cue::{CueFile, CueIndex, CueLine, CueTrack, ParsedCue};
use cdg_archive::sheet::{
    cue_file_names, parse_cue_checked, parse_cue_full, parse_lines, sheet_in_range,
};

fn index(id: u32, sectors: u64) -> CueIndex {
    CueIndex { id, sectors }
}

fn track(num: u32, track_type: &str, indexes: Vec<CueIndex>, sectors: Option<u64>) -> CueTrack {
    CueTrack { num, track_type: track_type.to_string(), indexes, sectors }
}

fn file(name: &str, size_bytes: u64, tracks: Vec<CueTrack>) -> CueFile {
    CueFile { name: name.to_string(), size_bytes, tracks }
}

fn parse(text: &str, sizes: Vec<Option<u64>>) -> ParsedCue {
    assert!(sheet_in_range(text));
    let parsed = parse_cue_full(Ok(text.to_string()), &sizes).unwrap();
    assert_eq!(parse_cue_checked(Ok(text.to_string()), &sizes).unwrap().unwrap(), parsed);
    parsed
}

#[test]
fn quoted_text_is_extracted() {
    assert_eq!(extract_quoted("FILE \"a b.bin\" BINARY"), Some("a b.bin"));
    assert_eq!(extract_quoted("\"\""), Some(""));
    assert_eq!(extract_quoted("a \"b\" c \"d\""), Some("b"));
    assert_eq!(extract_quoted("\"\u{e9}\u{1f600}\""), Some("\u{e9}\u{1f600}"));
    assert_eq!(extract_quoted("one \" only"), None);
    assert_eq!(extract_quoted("none"), None);
    assert_eq!(extract_quoted(""), None);
}

#[test]
fn lines_are_read() {
    assert_eq!(
        read_line("file \"x.bin\" binary", "FILE \"X.BIN\" BINARY"),
        CueLine::File(Some("x.bin".to_string()))
    );
    assert_eq!(read_line("FILE x.wav WAVE", "FILE X.WAV WAVE"), CueLine::File(None));
    assert_eq!(read_line("FILE \"x\" MP3", "FILE \"X\" MP3"), CueLine::Other);
    assert_eq!(read_line("TRACK 02 AUDIO", "TRACK 02 AUDIO"), CueLine::Track(2, "AUDIO".to_string()));
    assert_eq!(
        read_line("TRACK 02 mode1/2048", "TRACK 02 MODE1/2048"),
        CueLine::Track(2, "mode1/2048".to_string())
    );
    assert_eq!(read_line("INDEX 01 00:02:00", "INDEX 01 00:02:00"), CueLine::Index(index(1, 150)));
    assert_eq!(read_line("REM GENRE x", "REM GENRE X"), CueLine::Other);
    assert_eq!(read_line("", ""), CueLine::Other);
}

#[test]
fn track_lines_part_at_blanks() {
    // Two blanks leave the number empty; the rest is the type.
    assert_eq!(
        read_line("TRACK  02 AUDIO", "TRACK  02 AUDIO"),
        CueLine::Track(0, "02 AUDIO".to_string())
    );
    assert_eq!(read_line("TRACK 03", "TRACK 03"), CueLine::Track(3, "AUDIO".to_string()));
    assert_eq!(read_line("TRACK x y z", "TRACK X Y Z"), CueLine::Track(0, "y z".to_string()));
    assert_eq!(read_line("TRACK +4  CDG", "TRACK +4  CDG"), CueLine::Track(4, "CDG".to_string()));
    assert_eq!(
        read_line("TRACK 4294967296 CDG", "TRACK 4294967296 CDG"),
        CueLine::Track(0, "CDG".to_string())
    );
}

#[test]
fn index_lines_part_at_white_space() {
    assert_eq!(
        read_line("INDEX \t 01 \t 00:00:10 more", "INDEX \t 01 \t 00:00:10 MORE"),
        CueLine::Index(index(1, 10))
    );
    assert_eq!(read_line("INDEX 01", "INDEX 01"), CueLine::Other);
    assert_eq!(read_line("INDEX x 00:00:00", "INDEX X 00:00:00"), CueLine::Other);
    assert_eq!(read_line("INDEX 01 00:00", "INDEX 01 00:00"), CueLine::Other);
}

#[test]
fn lines_with_a_position_too_far_are_told() {
    assert!(!line_in_range("INDEX 01 18446744073709551615:00:00"));
    assert!(!line_in_range("INDEX X 18446744073709551615:00:00"));
    assert!(line_in_range("INDEX 01 99:59:74"));
    assert!(line_in_range("INDEX 01"));
    assert!(line_in_range("TRACK 01 18446744073709551615:00:00"));
}

#[test]
fn a_single_file_gets_lengths() {
    let text = "FILE \"disc.bin\" BINARY\r\n  TRACK 01 AUDIO\r\n    INDEX 01 00:00:00\r\n  TRACK 02 AUDIO\n    INDEX 00 00:01:00\n    INDEX 01 00:02:00\n  TRACK 03 AUDIO\n    INDEX 01 00:04:00";
    let parsed = parse(text, vec![Some(2352 * 400 + 100)]);
    assert_eq!(
        parsed,
        ParsedCue {
            files: vec![file(
                "disc.bin",
                2352 * 400 + 100,
                vec![
                    track(1, "AUDIO", vec![index(1, 0)], Some(75)),
                    track(2, "AUDIO", vec![index(0, 75), index(1, 150)], Some(225)),
                    track(3, "AUDIO", vec![index(1, 300)], Some(100)),
                ]
            )],
            blocksize: 2352,
        }
    );
}

#[test]
fn several_files_get_no_lengths() {
    let text = "FILE \"a.bin\" BINARY\nTRACK 01 CDG\nINDEX 01 00:00:00\nFILE \"b.wav\" WAVE\nTRACK 02 AUDIO\nINDEX 01 00:00:00\n";
    let parsed = parse(text, vec![Some(10), None]);
    assert_eq!(
        parsed,
        ParsedCue {
            files: vec![
                file("a.bin", 10, vec![track(1, "CDG", vec![index(1, 0)], None)]),
                file("b.wav", 0, vec![track(2, "AUDIO", vec![index(1, 0)], None)]),
            ],
            blocksize: 2448,
        }
    );
}

#[test]
fn the_first_track_gives_the_sector_size() {
    let text = "TRACK 01 MODE1/2048\nFILE \"a.bin\" BINARY\nTRACK 02 AUDIO\n";
    let parsed = parse(text, vec![Some(4096)]);
    assert_eq!(parsed.blocksize, 2048);
    // The track before the file ends where the file begins, and belongs to none.
    assert_eq!(parsed.files, vec![file("a.bin", 4096, vec![track(2, "AUDIO", vec![], Some(2))])]);
}

#[test]
fn a_file_line_without_a_name_ends_the_file() {
    let text = "FILE \"a.bin\" BINARY\nTRACK 01 AUDIO\nFILE b.bin BINARY\nTRACK 02 AUDIO\nINDEX 01 00:00:01\n";
    let parsed = parse(text, vec![None]);
    assert_eq!(parsed.files, vec![file("a.bin", 0, vec![track(1, "AUDIO", vec![], Some(0))])]);
    assert_eq!(cue_file_names(text), vec!["a.bin".to_string()]);
}

#[test]
fn tracks_out_of_order_have_no_negative_length() {
    let text = "FILE \"a.bin\" BINARY\nTRACK 01 AUDIO\nINDEX 01 00:02:00\nTRACK 02 AUDIO\nINDEX 01 00:01:00\n";
    let parsed = parse(text, vec![Some(2352 * 100)]);
    let lengths: Vec<Option<u64>> = parsed.files[0].tracks.iter().map(|t| t.sectors).collect();
    assert_eq!(lengths, vec![Some(0), Some(25)]);
}

#[test]
fn index_points_before_a_track_are_left_out() {
    let text = "INDEX 01 00:00:05\nFILE \"a.bin\" BINARY\nINDEX 01 00:00:06\nTRACK 01 AUDIO\nTITLE \"x\"\nINDEX 01 00:00:07\n";
    let parsed = parse(text, vec![Some(2352 * 10)]);
    assert_eq!(
        parsed.files,
        vec![file("a.bin", 2352 * 10, vec![track(1, "AUDIO", vec![index(1, 7)], Some(3))])]
    );
}

#[test]
fn an_empty_sheet() {
    let parsed = parse("", vec![]);
    assert_eq!(parsed, ParsedCue { files: vec![], blocksize: 2352 });
    assert_eq!(cue_file_names(""), Vec::<String>::new());
    assert_eq!(parse("\u{feff}FILE \"a\" BINARY", vec![]).files, vec![]);
}

#[test]
fn keywords_are_read_in_any_case() {
    let text = "  file \"a.bin\" binary\n\ttrack 01 audio\n\tindex 01 00:00:00\n";
    let parsed = parse(text, vec![Some(2352)]);
    assert_eq!(
        parsed.files,
        vec![file("a.bin", 2352, vec![track(1, "audio", vec![index(1, 0)], Some(1))])]
    );
    // The upper case of the dotless i is the letter I, that of the ligature fi is FI.
    let text = "\u{fb01}le \"b.bin\" b\u{131}nary\n";
    assert_eq!(cue_file_names(text), vec!["b.bin".to_string()]);
}

#[test]
fn names_of_files_are_listed() {
    let text = "FILE \"a.bin\" BINARY\nFILE \"b \u{e9}.bin\" BINARY\nREM FILE \"c.bin\" BINARY\nFILE \"a.bin\" WAVE";
    assert_eq!(cue_file_names(text), vec!["a.bin", "b \u{e9}.bin", "a.bin"]);
}

#[test]
fn sheets_that_cannot_be_read() {
    let r = parse_cue_full(Err("no such file".to_string()), &vec![]);
    assert_eq!(r, Err("Cannot read CUE: no such file".to_string()));
    let r = parse_cue_checked(Err("no such file".to_string()), &vec![]);
    assert_eq!(r, Some(Err("Cannot read CUE: no such file".to_string())));
}

#[test]
fn sheets_with_a_position_too_far() {
    let text = "FILE \"a.bin\" BINARY\nTRACK 01 AUDIO\nINDEX 01 18446744073709551615:00:00\n";
    assert!(!sheet_in_range(text));
    assert_eq!(parse_cue_checked(Ok(text.to_string()), &vec![]), None);
}

#[test]
fn lines_make_a_sheet() {
    let items = vec![
        CueLine::File(Some("a.bin".to_string())),
        CueLine::Track(1, "AUDIO".to_string()),
        CueLine::Other,
        CueLine::Index(index(1, 3)),
        CueLine::Track(2, "AUDIO".to_string()),
        CueLine::Index(index(1, 5)),
    ];
    let parsed = parse_lines(&items, &vec![Some(2352 * 9)]);
    assert_eq!(
        parsed.files,
        vec![file(
            "a.bin",
            2352 * 9,
            vec![
                track(1, "AUDIO", vec![index(1, 3)], Some(2)),
                track(2, "AUDIO", vec![index(1, 5)], Some(4)),
            ]
        )]
    );
}
