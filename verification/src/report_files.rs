//! Names to try when the report file already exists.

use vstd::prelude::*;
use crate::text::{decimal, push_char, push_numeral};

verus! {

/// How many numbered alternatives are tried before giving up.
pub const MAX_UNIQUE_ATTEMPTS: u32 = 99;

/// `n` in decimal with at least two digits.
pub open spec fn two_digits(n: nat) -> Seq<char> {
    if n < 10 {
        seq!['0'] + decimal(n)
    } else {
        decimal(n)
    }
}

/// The `n`th alternative name: the stem, a hyphen, `n` in two digits, and
/// the extension after a dot when there is one.
pub open spec fn candidate_name(stem: Seq<char>, ext: Option<Seq<char>>, n: nat) -> Seq<char> {
    match ext {
        Some(e) => stem + seq!['-'] + two_digits(n) + seq!['.'] + e,
        None => stem + seq!['-'] + two_digits(n),
    }
}

/// The `n`th alternative name for a file with stem `stem` and extension
/// `ext`.
pub fn candidate_file_name(stem: &str, ext: Option<&str>, n: u32) -> (s: String)
    ensures
        s@ == candidate_name(
            stem@,
            match ext {
                Some(e) => Some(e@),
                None => None,
            },
            n as nat,
        ),
{
    let mut s = stem.to_owned();
    push_char(&mut s, '-');
    if n < 10 {
        push_char(&mut s, '0');
    }
    push_numeral(&mut s, n as u64, 10);
    match ext {
        Some(e) => {
            push_char(&mut s, '.');
            s.append(e);
        },
        None => {},
    }
    assert(s@ =~= candidate_name(
        stem@,
        match ext {
            Some(e) => Some(e@),
            None => None,
        },
        n as nat,
    ));
    s
}

} // verus!
