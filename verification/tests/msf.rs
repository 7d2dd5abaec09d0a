use cdg_archive::msf::{blocksize_for_type, msf_in_range, msf_to_sectors, sectors_to_msf};

#[test]
fn msf_round_trip() {
    for sectors in [0u64, 1, 74, 75, 4499, 4500, 333_000, 449_999, 450_000, u64::MAX] {
        let text = sectors_to_msf(sectors);
        assert!(msf_in_range(&text));
        assert_eq!(msf_to_sectors(&text), Some(sectors));
    }
}

#[test]
fn positions_are_read() {
    assert_eq!(msf_to_sectors("00:00:00"), Some(0));
    assert_eq!(msf_to_sectors("00:02:00"), Some(150));
    assert_eq!(msf_to_sectors("01:00:00"), Some(4500));
    assert_eq!(msf_to_sectors("12:34:56"), Some(56606));
    assert_eq!(msf_to_sectors("1:2:3"), Some(4653));
}

#[test]
fn seconds_and_frames_have_no_bound() {
    assert_eq!(msf_to_sectors("00:99:99"), Some(99 * 75 + 99));
    assert_eq!(msf_to_sectors("0:0:4500"), Some(4500));
}

#[test]
fn a_plus_sign_is_read() {
    assert_eq!(msf_to_sectors("+1:+0:+0"), Some(4500));
    assert_eq!(msf_to_sectors("+:0:0"), None);
    assert_eq!(msf_to_sectors("++1:0:0"), None);
}

#[test]
fn other_texts_are_no_positions() {
    assert_eq!(msf_to_sectors(""), None);
    assert_eq!(msf_to_sectors("00:00"), None);
    assert_eq!(msf_to_sectors("00:00:00:00"), None);
    assert_eq!(msf_to_sectors("::"), None);
    assert_eq!(msf_to_sectors("00:-1:00"), None);
    assert_eq!(msf_to_sectors("00: 1:00"), None);
    assert_eq!(msf_to_sectors("aa:bb:cc"), None);
    assert_eq!(msf_to_sectors("18446744073709551616:0:0"), None);
}

#[test]
fn positions_that_are_too_far_are_told() {
    assert!(msf_in_range("00:00:18446744073709551615"));
    assert!(!msf_in_range("00:01:18446744073709551615"));
    assert!(!msf_in_range("18446744073709551615:00:00"));
    assert!(msf_in_range("18446744073709551616:00:00"));
    assert!(msf_in_range("no position"));
    assert_eq!(msf_to_sectors("00:00:18446744073709551615"), Some(u64::MAX));
}

#[test]
fn positions_are_written() {
    assert_eq!(sectors_to_msf(0), "00:00:00");
    assert_eq!(sectors_to_msf(74), "00:00:74");
    assert_eq!(sectors_to_msf(75), "00:01:00");
    assert_eq!(sectors_to_msf(4499), "00:59:74");
    assert_eq!(sectors_to_msf(56606), "12:34:56");
    assert_eq!(sectors_to_msf(450_000), "100:00:00");
    assert_eq!(sectors_to_msf(u64::MAX), "4099276460824344:48:15");
}

#[test]
fn sector_sizes() {
    assert_eq!(blocksize_for_type("CDG"), 2448);
    assert_eq!(blocksize_for_type("MODE1/2048"), 2048);
    assert_eq!(blocksize_for_type("MODE2/2336"), 2336);
    assert_eq!(blocksize_for_type("CDI/2336"), 2336);
    assert_eq!(blocksize_for_type("AUDIO"), 2352);
    assert_eq!(blocksize_for_type("MODE1/2352"), 2352);
    assert_eq!(blocksize_for_type("MODE2/2352"), 2352);
    assert_eq!(blocksize_for_type("CDI/2352"), 2352);
    assert_eq!(blocksize_for_type("cdg"), 2352);
    assert_eq!(blocksize_for_type(""), 2352);
}
