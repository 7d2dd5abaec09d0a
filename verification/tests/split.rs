use cdg_archive::cue::{CueFile, CueIndex, CueTrack, ParsedCue};
use cdg_archive::layout::detect_layout;
use cdg_archive::sheet::parse_cue_full;
use cdg_archive::split::{
    after_read, gen_split_cue, next_read, split_blocking, split_failure, split_in_range,
    split_write_failure, SplitStep, CHUNK,
};

fn track(num: u32, track_type: &str, starts: &[(u32, u64)], sectors: Option<u64>) -> CueTrack {
    CueTrack {
        num,
        track_type: track_type.to_string(),
        indexes: starts.iter().map(|&(id, sectors)| CueIndex { id, sectors }).collect(),
        sectors,
    }
}

fn disc(tracks: Vec<CueTrack>, blocksize: u64) -> ParsedCue {
    ParsedCue {
        files: vec![CueFile { name: "disc.bin".to_string(), size_bytes: 0, tracks }],
        blocksize,
    }
}

fn sheet_text() -> String {
    "FILE \"disc.bin\" BINARY\n  TRACK 01 AUDIO\n    INDEX 01 00:00:00\n  TRACK 02 CDG\n    INDEX 00 00:00:03\n    INDEX 01 00:00:05\n  TRACK 03 AUDIO\n    INDEX 01 00:00:07\n"
        .to_string()
}

#[test]
fn the_sheet_of_a_split_disc() {
    let tracks = vec![
        track(1, "AUDIO", &[(1, 0)], None),
        track(2, "MODE1/2352", &[(0, 4500), (1, 4650), (2, 4000)], None),
        track(3, "AUDIO", &[], None),
    ];
    assert_eq!(
        gen_split_cue("Base", &tracks),
        "FILE \"Base (Track 1).bin\" BINARY\n  TRACK 01 AUDIO\n    INDEX 01 00:00:00\nFILE \"Base (Track 2).bin\" BINARY\n  TRACK 02 MODE1/2352\n    INDEX 00 00:00:00\n    INDEX 01 00:02:00\n    INDEX 02 00:00:00\nFILE \"Base (Track 3).bin\" BINARY\n  TRACK 03 AUDIO\n"
    );
    assert_eq!(
        gen_split_cue("Base", &tracks[..1]),
        "FILE \"Base.bin\" BINARY\n  TRACK 01 AUDIO\n    INDEX 01 00:00:00\n"
    );
    assert_eq!(gen_split_cue("Base", &[]), "");
}

#[test]
fn the_sheet_of_a_split_disc_reads_back() {
    let tracks: Vec<CueTrack> = (1..=11u32)
        .map(|n| track(n, "AUDIO", &[(0, n as u64 * 500), (1, n as u64 * 500 + 150)], Some(500)))
        .collect();
    let text = gen_split_cue("Some \u{e9}Title", &tracks);
    let parsed = parse_cue_full(Ok(text), &vec![None; 11]).unwrap();
    assert_eq!(parsed.files.len(), 11);
    assert_eq!(parsed.blocksize, 2352);
    for (i, f) in parsed.files.iter().enumerate() {
        assert_eq!(f.name, format!("Some \u{e9}Title (Track {:02}).bin", i + 1));
        assert_eq!(f.tracks, vec![track(i as u32 + 1, "AUDIO", &[(0, 0), (1, 150)], None)]);
    }
    let again = Ok(parsed);
    assert_eq!(
        split_blocking(&again, "Other"),
        Err("CUE references multiple bin files \u{2014} Split only works on a single-bin disc."
            .to_string())
    );
    let layout = detect_layout(&Ok(vec!["x.cue".to_string()]), &again).unwrap();
    assert_eq!(layout.kind, "multi-bin");
    assert_eq!(layout.bin_count, 11);
    assert_eq!(layout.track_count, 11);
}

#[test]
fn any_title_reads_back() {
    let tracks = vec![
        track(1, "AUDIO", &[(1, 0)], None),
        track(2, "\u{fb01} \u{df}", &[(1, 9), (2, 20)], None),
    ];
    for code in 0x80u32..=0x10FFFF {
        if let Some(c) = char::from_u32(code) {
            if c.to_uppercase().ne([c]) {
                let base = format!("{}a{}", c, c);
                let parsed = parse_cue_full(Ok(gen_split_cue(&base, &tracks)), &vec![]).unwrap();
                assert_eq!(parsed.files.len(), 2);
                assert_eq!(parsed.files[1].name, format!("{} (Track 2).bin", base));
                assert_eq!(
                    parsed.files[1].tracks,
                    vec![track(2, "\u{fb01} \u{df}", &[(1, 0), (2, 11)], None)]
                );
            }
        }
    }
}

#[test]
fn a_split_is_planned() {
    let parsed = parse_cue_full(Ok(sheet_text()), &vec![Some(2352 * 10 + 5)]).unwrap();
    assert!(split_in_range(&parsed));
    let text = gen_split_cue("Base", &parsed.files[0].tracks);
    let steps = split_blocking(&Ok(parsed), "Base").unwrap();
    let mut expected = vec![
        SplitStep::LogSource("Splitting 3 tracks from ".to_string(), "\u{2026}".to_string()),
        SplitStep::OpenSource,
    ];
    for (num, start, sectors) in [(1u32, 0u64, 3u64), (2, 3, 4), (3, 7, 3)] {
        let name = format!("Base (Track {}).bin", num);
        expected.push(SplitStep::Log(format!("  writing {}", name)));
        expected.push(SplitStep::Seek(start * 2352));
        expected.push(SplitStep::Create(name.clone()));
        expected.push(SplitStep::Copy(num, sectors * 2352));
        expected.push(SplitStep::Report(name));
    }
    expected.push(SplitStep::WriteSheet("Base.cue".to_string(), text));
    expected.push(SplitStep::LogSheet("Split CUE   : ".to_string()));
    assert_eq!(steps, expected);
}

#[test]
fn a_split_keeps_every_byte() {
    let size = 2352 * 10 + 5;
    let source: Vec<u8> = (0..size).map(|i| (i * 7 % 251) as u8).collect();
    let parsed = parse_cue_full(Ok(sheet_text()), &vec![Some(size as u64)]).unwrap();
    let steps = split_blocking(&Ok(parsed), "Base").unwrap();
    let mut pos: usize = 0;
    let mut copied: Vec<u8> = Vec::new();
    for step in steps {
        match step {
            SplitStep::Seek(offset) => pos = offset as usize,
            SplitStep::Copy(_, bytes) => {
                copied.extend_from_slice(&source[pos..pos + bytes as usize]);
                pos += bytes as usize;
            }
            SplitStep::Fail(_) => panic!("no length"),
            _ => {}
        }
    }
    assert_eq!(copied, source[..2352 * 10]);
}

#[test]
fn discs_that_cannot_be_split() {
    let none = ParsedCue { files: vec![], blocksize: 2352 };
    assert!(split_in_range(&none));
    assert_eq!(split_blocking(&Ok(none), "B"), Err("No FILE entries found in CUE".to_string()));
    let one = disc(vec![track(1, "AUDIO", &[(1, 0)], Some(1))], 2352);
    assert!(split_in_range(&one));
    assert_eq!(
        split_blocking(&Ok(one), "B"),
        Err("Only one track in CUE \u{2014} nothing to split".to_string())
    );
    assert_eq!(split_blocking(&Err("why".to_string()), "B"), Err("why".to_string()));
}

#[test]
fn a_track_without_a_length_ends_the_split() {
    let parsed = disc(
        vec![track(1, "AUDIO", &[(1, 0)], Some(2)), track(2, "AUDIO", &[(1, 2)], None)],
        2352,
    );
    assert!(split_in_range(&parsed));
    let steps = split_blocking(&Ok(parsed), "B").unwrap();
    assert_eq!(steps.len(), 9);
    assert_eq!(steps[7], SplitStep::Log("  writing B (Track 2).bin".to_string()));
    assert_eq!(
        steps[8],
        SplitStep::Fail("Track 2 has no computed sector length".to_string())
    );
}

#[test]
fn splits_beyond_64_bits_are_told() {
    let far = u64::MAX / 2352 + 1;
    let late = disc(
        vec![track(1, "AUDIO", &[(1, 0)], Some(2)), track(2, "AUDIO", &[(1, far)], Some(0))],
        2352,
    );
    assert!(!split_in_range(&late));
    let long = disc(
        vec![track(1, "AUDIO", &[(1, 0)], Some(far)), track(2, "AUDIO", &[(1, 0)], Some(0))],
        2352,
    );
    assert!(!split_in_range(&long));
    // A split that gives up before comes to no such track.
    let after = disc(
        vec![track(1, "AUDIO", &[(1, 0)], None), track(2, "AUDIO", &[(1, far)], Some(0))],
        2352,
    );
    assert!(split_in_range(&after));
}

#[test]
fn failures_of_a_split() {
    let e = "why";
    assert_eq!(split_failure(&SplitStep::OpenSource, e), "Cannot open source bin: why");
    assert_eq!(split_failure(&SplitStep::Seek(1), e), "Seek error: why");
    assert_eq!(split_failure(&SplitStep::Create("x".to_string()), e), "Cannot create x: why");
    assert_eq!(split_failure(&SplitStep::Copy(3, 9), e), "Read error on track 3: why");
    assert_eq!(
        split_failure(&SplitStep::WriteSheet("x".to_string(), "y".to_string()), e),
        "Cannot write split CUE: why"
    );
    assert_eq!(split_failure(&SplitStep::Log("x".to_string()), e), "why");
    assert_eq!(split_write_failure(12, e), "Write error on track 12: why");
}

#[test]
fn copying_goes_chunk_by_chunk() {
    assert_eq!(CHUNK, 1 << 20);
    assert_eq!(next_read(0), 0);
    assert_eq!(next_read(5), 5);
    assert_eq!(next_read(CHUNK as u64), CHUNK);
    assert_eq!(next_read(CHUNK as u64 + 1), CHUNK);
    assert_eq!(after_read(1, 10, 4), Ok(6));
    assert_eq!(after_read(1, 10, 10), Ok(0));
    assert_eq!(
        after_read(7, 10, 0),
        Err("Unexpected EOF at track 7 \u{2014} bin file may be truncated".to_string())
    );
}

#[test]
fn copying_comes_to_an_end() {
    let mut remaining: u64 = 3 * CHUNK as u64 + 17;
    let mut reads = 0;
    while remaining > 0 {
        let n = next_read(remaining);
        assert!(n > 0 && n as u64 <= remaining);
        remaining = after_read(1, remaining, n).unwrap();
        reads += 1;
    }
    assert_eq!(reads, 4);
}
