//! Building and taking apart text: decimal and hexadecimal numerals,
//! UTF-8 decoding and comma-separated lists.

use vstd::prelude::*;
use vstd::utf8::{valid_utf8, decode_utf8};

verus! {

/// Appends one character to a string (`String::push`).
#[verifier::external_body]
pub(crate) fn push_char(s: &mut String, c: char)
    ensures
        final(s)@ == old(s)@.push(c),
{
    s.push(c);
}

/// Decodes bytes as UTF-8 (`std::str::from_utf8`): `None` exactly when the
/// bytes are not valid UTF-8, otherwise the decoded characters.
#[verifier::external_body]
pub(crate) fn decode_utf8_bytes(bytes: &[u8]) -> (r: Option<&str>)
    ensures
        r is Some <==> valid_utf8(bytes@),
        r matches Some(s) ==> s@ == decode_utf8(bytes@),
{
    std::str::from_utf8(bytes).ok()
}

/// The character of a digit value below 16, lower-case beyond 9.
pub open spec fn digit_char(d: int) -> char {
    if d < 10 {
        (48 + d) as char
    } else {
        (87 + d) as char
    }
}

/// The numeral of `n` in `base` (10 or 16) without leading zeros.
pub open spec fn numeral(n: nat, base: nat) -> Seq<char>
    decreases n,
{
    if base < 2 || n < base {
        seq![digit_char(n as int)]
    } else {
        proof {
            assert(n / base < n) by (nonlinear_arith)
                requires
                    base >= 2,
                    n >= base,
            ;
        }
        numeral(n / base, base).push(digit_char((n % base) as int))
    }
}

/// The decimal numeral of `n`.
pub open spec fn decimal(n: nat) -> Seq<char> {
    numeral(n, 10)
}

/// The lower-case hexadecimal numeral of `n`.
pub open spec fn hex(n: nat) -> Seq<char> {
    numeral(n, 16)
}

fn digit(d: u64) -> (c: char)
    requires
        d < 16,
    ensures
        c == digit_char(d as int),
{
    let b: u8 = if d < 10 {
        48 + d as u8
    } else {
        87 + d as u8
    };
    b as char
}

/// Appends the numeral of `n` in `base` (10 or 16).
pub fn push_numeral(s: &mut String, n: u64, base: u64)
    requires
        base == 10 || base == 16,
    ensures
        final(s)@ == old(s)@ + numeral(n as nat, base as nat),
    decreases n,
{
    if n >= base {
        push_numeral(s, n / base, base);
    }
    let c = digit(n % base);
    push_char(s, c);
    proof {
        if n >= base {
            assert(numeral(n as nat, base as nat) == numeral((n / base) as nat, base as nat).push(c));
        }
    }
    assert(final(s)@ =~= old(s)@ + numeral(n as nat, base as nat));
}

/// The decimal numeral of `n` as a new string.
pub fn decimal_string(n: u64) -> (s: String)
    ensures
        s@ == decimal(n as nat),
{
    let mut s = String::new();
    push_numeral(&mut s, n, 10);
    assert(s@ =~= decimal(n as nat));
    s
}

/// The views of a list of strings.
pub open spec fn strings_view(v: Seq<String>) -> Seq<Seq<char>> {
    v.map_values(|x: String| x@)
}

/// The comma-separated pieces of `s`, the first one prefixed by `cur`.
pub open spec fn split_commas_from(s: Seq<char>, cur: Seq<char>) -> Seq<Seq<char>>
    decreases s.len(),
{
    if s.len() == 0 {
        seq![cur]
    } else if s[0] == ',' {
        seq![cur] + split_commas_from(s.drop_first(), Seq::empty())
    } else {
        split_commas_from(s.drop_first(), cur.push(s[0]))
    }
}

/// The pieces of `s` between commas (`str::split(',')`): an empty string
/// gives one empty piece, and `n` commas give `n + 1` pieces.
pub open spec fn split_commas(s: Seq<char>) -> Seq<Seq<char>> {
    split_commas_from(s, Seq::empty())
}

/// Splits `s` at every comma.
pub fn split_on_commas(s: &str) -> (parts: Vec<String>)
    ensures
        strings_view(parts@) == split_commas(s@),
{
    let mut parts: Vec<String> = Vec::new();
    let mut cur = String::new();
    assert(s@.skip(0) =~= s@);
    assert(strings_view(parts@) + split_commas(s@) =~= split_commas(s@));
    for c in it: s.chars()
        invariant
            it.seq() == s@,
            split_commas(s@) == strings_view(parts@) + split_commas_from(s@.skip(it.index() as int), cur@),
    {
        let ghost rest = s@.skip(it.index() as int);
        assert(rest[0] == c);
        assert(rest.drop_first() =~= s@.skip(it.index() + 1));
        if c == ',' {
            let ghost before = parts@;
            let ghost piece = cur@;
            parts.push(cur);
            cur = String::new();
            assert(strings_view(parts@) =~= strings_view(before) + seq![piece]);
        } else {
            push_char(&mut cur, c);
        }
    }
    let ghost before = parts@;
    parts.push(cur);
    assert(strings_view(parts@) =~= split_commas(s@));
    parts
}

} // verus!
