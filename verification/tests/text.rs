use cdg_archive::files::{file_kind, FileKind};
use cdg_archive::text::white_space;

#[test]
fn white_space_agrees_with_char() {
    for code in 0u32..=0x10FFFF {
        if let Some(c) = char::from_u32(code) {
            assert_eq!(white_space(c), c.is_whitespace(), "{:x}", code);
        }
    }
}

#[test]
fn kinds_go_by_the_extension() {
    assert_eq!(file_kind("disc.bin"), FileKind::Bin);
    assert_eq!(file_kind("disc.BIN"), FileKind::Bin);
    assert_eq!(file_kind("disc.tar.Cue"), FileKind::Cue);
    assert_eq!(file_kind("disc.cdG"), FileKind::Cdg);
    assert_eq!(file_kind("disc.iso"), FileKind::Other);
    assert_eq!(file_kind("disc.bin.bak"), FileKind::Other);
    assert_eq!(file_kind("disc"), FileKind::Other);
    assert_eq!(file_kind("disc."), FileKind::Other);
    assert_eq!(file_kind(""), FileKind::Other);
}

#[test]
fn a_dot_in_front_begins_no_extension() {
    assert_eq!(file_kind(".bin"), FileKind::Other);
    assert_eq!(file_kind(".cue"), FileKind::Other);
    assert_eq!(file_kind("..bin"), FileKind::Bin);
    assert_eq!(file_kind(".x.cdg"), FileKind::Cdg);
}

#[test]
fn only_ascii_letters_change_case_in_an_extension() {
    // The Kelvin sign is a capital k to Unicode, the dotless i a small one.
    assert_eq!(file_kind("disc.b\u{131}n"), FileKind::Other);
    assert_eq!(file_kind("disc.B\u{130}N"), FileKind::Other);
}
