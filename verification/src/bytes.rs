//! Texts measured in the bytes of their UTF-8 encoding.

use crate::text::chars_of;
use vstd::prelude::*;
use vstd::string::StrSliceExecFns;
use vstd::utf8::{encode_scalar, encode_utf8};

verus! {

/// The bytes of a text in UTF-8.
pub open spec fn byte_len(s: Seq<char>) -> nat {
    encode_utf8(s).len()
}

/// The beginning of `s` that is `n` bytes long. There is none where `n` bytes end within a
/// character or after the end.
pub open spec fn byte_prefix(s: Seq<char>, n: nat) -> Option<Seq<char>> {
    if exists|k: int| 0 <= k <= s.len() && byte_len(#[trigger] s.take(k)) == n {
        Some(s.take(choose|k: int| 0 <= k <= s.len() && byte_len(#[trigger] s.take(k)) == n))
    } else {
        None
    }
}

/// The bytes of two texts, one after the other.
pub proof fn lemma_byte_len_concat(a: Seq<char>, b: Seq<char>)
    ensures
        byte_len(a + b) == byte_len(a) + byte_len(b),
    decreases a.len(),
{
    if a.len() == 0 {
        assert(a + b =~= b);
    } else {
        assert((a + b).drop_first() =~= a.drop_first() + b);
        lemma_byte_len_concat(a.drop_first(), b);
    }
}

proof fn lemma_byte_len_one(c: char)
    ensures
        byte_len(seq![c]) == encode_scalar(c as u32).len(),
        1 <= byte_len(seq![c]) <= 4,
{
    assert(seq![c].drop_first() =~= seq![]);
    assert(encode_utf8(seq![]).len() == 0);
}

/// A longer beginning has more bytes.
proof fn lemma_byte_len_grows(s: Seq<char>, i: int, j: int)
    requires
        0 <= i <= j <= s.len(),
    ensures
        byte_len(s.take(i)) + (j - i) <= byte_len(s.take(j)),
    decreases j - i,
{
    if i < j {
        lemma_byte_len_grows(s, i, j - 1);
        assert(s.take(j) =~= s.take(j - 1) + seq![s[j - 1]]);
        lemma_byte_len_concat(s.take(j - 1), seq![s[j - 1]]);
        lemma_byte_len_one(s[j - 1]);
    }
}

/// The beginning of a given number of bytes is unique.
pub proof fn lemma_byte_prefix_is(s: Seq<char>, k: int)
    requires
        0 <= k <= s.len(),
    ensures
        byte_prefix(s, byte_len(s.take(k))) == Some(s.take(k)),
{
    let n = byte_len(s.take(k));
    let j = choose|j: int| 0 <= j <= s.len() && byte_len(#[trigger] s.take(j)) == n;
    assert(0 <= j <= s.len() && byte_len(s.take(j)) == n);
    if j < k {
        lemma_byte_len_grows(s, j, k);
    } else if k < j {
        lemma_byte_len_grows(s, k, j);
    }
}

/// The two small sigmas are as long in bytes.
pub proof fn lemma_sigmas_byte_len()
    ensures
        byte_len(seq!['\u{3c2}']) == byte_len(seq!['\u{3c3}']),
{
    lemma_byte_len_one('\u{3c2}');
    lemma_byte_len_one('\u{3c3}');
}

/// The bytes of a string in UTF-8.
pub(crate) fn bytes_in(s: &str) -> (n: usize)
    ensures
        n == byte_len(s@),
{
    s.as_bytes().len()
}

fn bytes_of_char(c: char) -> (n: usize)
    ensures
        n == byte_len(seq![c]),
        1 <= n <= 4,
{
    proof {
        lemma_byte_len_one(c);
    }
    let v: u32 = c as u32;
    if v <= 0x7F {
        1
    } else if v <= 0x7FF {
        2
    } else if v <= 0xFFFF {
        3
    } else {
        4
    }
}

/// The beginning of a string that is `n` bytes long, if there is one.
pub(crate) fn first_bytes(s: &str, n: usize) -> (r: Option<String>)
    ensures
        match r {
            Some(p) => byte_prefix(s@, n as nat) == Some(p@),
            None => byte_prefix(s@, n as nat) is None,
        },
{
    let cs = chars_of(s);
    let total = bytes_in(s);
    let mut k: usize = 0;
    let mut have: usize = 0;
    assert(s@.take(0) =~= seq![]);
    while have < n && k < cs.len()
        invariant
            cs@ == s@,
            total == byte_len(s@),
            k <= cs@.len(),
            have == byte_len(s@.take(k as int)),
            forall|j: int| 0 <= j < k ==> byte_len(#[trigger] s@.take(j)) < n,
        decreases cs@.len() - k,
    {
        let more = bytes_of_char(cs[k]);
        proof {
            assert(s@.take(k + 1) =~= s@.take(k as int) + seq![s@[k as int]]);
            lemma_byte_len_concat(s@.take(k as int), seq![s@[k as int]]);
            lemma_byte_len_grows(s@, k + 1, s@.len() as int);
            assert(s@.take(s@.len() as int) =~= s@);
        }
        have += more;
        k += 1;
    }
    if have == n {
        proof {
            lemma_byte_prefix_is(s@, k as int);
        }
        Some(s.substring_char(0, k).to_owned())
    } else {
        proof {
            assert forall|j: int| 0 <= j <= s@.len() implies byte_len(#[trigger] s@.take(j))
                != n by {
                if j > k {
                    lemma_byte_len_grows(s@, k as int, j);
                }
            }
        }
        None
    }
}

} // verus!
