//! Positions on a disc: sectors, and minutes, seconds and frames.
//!
//! A second holds 75 sectors, which the notation calls frames.

use crate::decimal::{
    all_digits, decimal_two, parse_decimal, read_decimal, write_decimal_two,
};
use crate::decimal::{law_decimal_round_trip, lemma_decimal_two};
use crate::text::{chars_of, push_char, push_chars, reads_as, split_char, split_on};
use crate::text::{is_digit, lemma_split_on_first, lemma_split_on_none};
use vstd::prelude::*;

verus! {

/// The minutes, seconds and frames that `s` gives: three unsigned numbers with colons between
/// them. No bound holds the seconds under 60 or the frames under 75.
pub open spec fn msf_parts(s: Seq<char>) -> Option<(int, int, int)> {
    let parts = split_on(s, ':');
    if parts.len() == 3 {
        match (
            read_decimal(parts[0], u64::MAX as int),
            read_decimal(parts[1], u64::MAX as int),
            read_decimal(parts[2], u64::MAX as int),
        ) {
            (Some(minutes), Some(seconds), Some(frames)) => Some((minutes, seconds, frames)),
            _ => None,
        }
    } else {
        None
    }
}

/// The number of sectors that `s` stands for.
pub open spec fn msf_sectors(s: Seq<char>) -> Option<int> {
    match msf_parts(s) {
        Some((minutes, seconds, frames)) => Some((minutes * 60 + seconds) * 75 + frames),
        None => None,
    }
}

/// The sectors that `s` stands for, if it stands for any, can be counted in 64 bits.
pub open spec fn msf_fits(s: Seq<char>) -> bool {
    msf_sectors(s) matches Some(sectors) ==> sectors <= u64::MAX
}

/// `sectors` as minutes, seconds and frames, each with at least two digits.
pub open spec fn msf_text(sectors: int) -> Seq<char> {
    decimal_two(sectors / 4500) + seq![':'] + decimal_two(sectors % 4500 / 75) + seq![':']
        + decimal_two(sectors % 75)
}

/// The bytes in one sector of a track of type `t`.
pub open spec fn block_size(t: Seq<char>) -> u64 {
    if t == "CDG"@ {
        2448
    } else if t == "MODE1/2048"@ {
        2048
    } else if t == "MODE2/2336"@ || t == "CDI/2336"@ {
        2336
    } else {
        2352
    }
}

/// The sectors that `s` stands for, in a type that holds them all.
fn read_msf(s: &[char]) -> (r: Option<u128>)
    ensures
        match r {
            Some(v) => msf_sectors(s@) == Some(v as int),
            None => msf_sectors(s@) is None,
        },
{
    let parts = split_char(s, ':');
    if parts.len() != 3 {
        return None;
    }
    let minutes = parse_decimal(parts[0].as_slice(), u64::MAX);
    let seconds = parse_decimal(parts[1].as_slice(), u64::MAX);
    let frames = parse_decimal(parts[2].as_slice(), u64::MAX);
    match (minutes, seconds, frames) {
        (Some(m), Some(s), Some(f)) => Some((m as u128 * 60 + s as u128) * 75 + f as u128),
        _ => None,
    }
}

/// Tells whether `msf_to_sectors` can count the sectors that `s` stands for.
pub fn msf_in_range(s: &str) -> (b: bool)
    ensures
        b == msf_fits(s@),
{
    let cs = chars_of(s);
    match read_msf(cs.as_slice()) {
        Some(v) => v <= u64::MAX as u128,
        None => true,
    }
}

/// Reads a position in minutes, seconds and frames as a number of sectors.
pub fn msf_to_sectors(s: &str) -> (r: Option<u64>)
    requires
        msf_fits(s@),
    ensures
        match r {
            Some(sectors) => msf_sectors(s@) == Some(sectors as int),
            None => msf_sectors(s@) is None,
        },
{
    let cs = chars_of(s);
    match read_msf(cs.as_slice()) {
        Some(v) => Some(v as u64),
        None => None,
    }
}

/// Writes a number of sectors as minutes, seconds and frames.
pub fn sectors_to_msf(sectors: u64) -> (s: String)
    ensures
        s@ == msf_text(sectors as int),
{
    let minutes: u64 = sectors / 4500;
    let rest: u64 = sectors % 4500;
    let seconds: u64 = rest / 75;
    let frames: u64 = rest % 75;
    let mut out = String::new();
    push_chars(&mut out, write_decimal_two(minutes).as_slice());
    push_char(&mut out, ':');
    push_chars(&mut out, write_decimal_two(seconds).as_slice());
    push_char(&mut out, ':');
    push_chars(&mut out, write_decimal_two(frames).as_slice());
    assert(frames == sectors % 75);
    assert(out@ =~= msf_text(sectors as int));
    out
}

/// The bytes in one sector of a track of the given type. A type that is not listed has the 2352
/// bytes of an audio sector.
pub fn blocksize_for_type(t: &str) -> (r: u64)
    ensures
        r == block_size(t@),
{
    let cs = chars_of(t);
    let cs = cs.as_slice();
    if reads_as(cs, "CDG") {
        2448
    } else if reads_as(cs, "MODE1/2048") {
        2048
    } else if reads_as(cs, "MODE2/2336") || reads_as(cs, "CDI/2336") {
        2336
    } else {
        2352
    }
}

// ---------------------------------------------------------------------------
// Laws
// ---------------------------------------------------------------------------

proof fn lemma_digits_hold_no(s: Seq<char>, c: char)
    requires
        all_digits(s),
        !is_digit(c),
    ensures
        !s.contains(c),
{
    if s.contains(c) {
        let i = choose|i: int| 0 <= i < s.len() && s[i] == c;
        assert(is_digit(s[i]));
    }
}

/// The position written for a number of sectors reads as its minutes, seconds and frames, with
/// the seconds under 60 and the frames under 75.
pub proof fn law_msf_text_parts(sectors: int)
    requires
        0 <= sectors <= u64::MAX,
    ensures
        msf_parts(msf_text(sectors)) == Some(
            (sectors / 4500, sectors % 4500 / 75, sectors % 75),
        ),
        0 <= sectors % 4500 / 75 < 60,
        0 <= sectors % 75 < 75,
{
    let m = decimal_two(sectors / 4500);
    let s = decimal_two(sectors % 4500 / 75);
    let f = decimal_two(sectors % 75);
    lemma_decimal_two(sectors / 4500);
    lemma_decimal_two(sectors % 4500 / 75);
    lemma_decimal_two(sectors % 75);
    law_decimal_round_trip(sectors / 4500, u64::MAX as int);
    law_decimal_round_trip(sectors % 4500 / 75, u64::MAX as int);
    law_decimal_round_trip(sectors % 75, u64::MAX as int);
    lemma_digits_hold_no(m, ':');
    lemma_digits_hold_no(s, ':');
    lemma_digits_hold_no(f, ':');
    assert(msf_text(sectors) =~= m + seq![':'] + (s + seq![':'] + f));
    lemma_split_on_first(m, ':', s + seq![':'] + f);
    lemma_split_on_first(s, ':', f);
    lemma_split_on_none(f, ':');
    assert(split_on(msf_text(sectors), ':') =~= seq![m, s, f]);
}

/// Reading the position that is written for a number of sectors gives the number back.
pub proof fn law_msf_round_trip(sectors: int)
    requires
        0 <= sectors <= u64::MAX,
    ensures
        msf_sectors(msf_text(sectors)) == Some(sectors),
        msf_fits(msf_text(sectors)),
{
    law_msf_text_parts(sectors);
    let m = sectors / 4500;
    let r = sectors % 4500;
    assert(r / 75 * 75 + r % 75 == r);
    assert(r % 75 == sectors % 75);
}

} // verus!
