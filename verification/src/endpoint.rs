//! Reading `address:port` endpoint text back into its address and port.

use vstd::prelude::*;
use crate::text::{decimal, digit_char, numeral};

verus! {

/// The position of the last `c` in `t`, if there is one.
pub open spec fn last_index_of(t: Seq<char>, c: char) -> Option<int>
    decreases t.len(),
{
    if t.len() == 0 {
        None
    } else if t.last() == c {
        Some(t.len() - 1)
    } else {
        last_index_of(t.drop_last(), c)
    }
}

/// A decimal digit.
pub open spec fn is_digit(c: char) -> bool {
    '0' <= c && c <= '9'
}

/// The value of a run of decimal digits.
pub open spec fn digits_value(s: Seq<char>) -> nat
    decreases s.len(),
{
    if s.len() == 0 {
        0
    } else {
        digits_value(s.drop_last()) * 10 + (s.last() as nat - 48) as nat
    }
}

/// The port that `s` spells in decimal digits, if it spells one.
pub open spec fn port_value(s: Seq<char>) -> Option<u16> {
    if s.len() > 0 && (forall|i: int| 0 <= i < s.len() ==> is_digit(#[trigger] s[i]))
        && digits_value(s) <= 65535 {
        Some(digits_value(s) as u16)
    } else {
        None
    }
}

/// The address and port of `address:port` text, split at the last colon.
/// An address in square brackets loses them; one that holds a colon must be
/// in brackets.
pub open spec fn split_endpoint(t: Seq<char>) -> Option<(Seq<char>, u16)> {
    match last_index_of(t, ':') {
        None => None,
        Some(i) => {
            let host = t.take(i);
            match port_value(t.skip(i + 1)) {
                None => None,
                Some(p) => if host.len() >= 2 && host[0] == '[' && host.last() == ']' {
                    Some((host.subrange(1, host.len() - 1), p))
                } else if host.contains(':') {
                    None
                } else {
                    Some((host, p))
                },
            }
        },
    }
}

proof fn lemma_last_index_from_scan(t: Seq<char>, c: char, i: int)
    requires
        0 <= i < t.len(),
        t[i] == c,
        forall|j: int| i < j < t.len() ==> t[j] != c,
    ensures
        last_index_of(t, c) == Some(i),
    decreases t.len(),
{
    if t.last() != c {
        lemma_last_index_from_scan(t.drop_last(), c, i);
    }
}

proof fn lemma_no_index_from_scan(t: Seq<char>, c: char)
    requires
        forall|j: int| 0 <= j < t.len() ==> t[j] != c,
    ensures
        last_index_of(t, c) is None,
    decreases t.len(),
{
    if t.len() > 0 {
        lemma_no_index_from_scan(t.drop_last(), c);
    }
}

proof fn lemma_digits_grow(s: Seq<char>, k: int)
    requires
        0 <= k <= s.len(),
    ensures
        digits_value(s.take(k)) <= digits_value(s),
    decreases s.len(),
{
    if k < s.len() {
        assert(s.drop_last().take(k) =~= s.take(k));
        lemma_digits_grow(s.drop_last(), k);
    } else {
        assert(s.take(k) =~= s);
    }
}

/// The port spelled by `s`, if it spells one.
pub fn parse_port(s: &str) -> (r: Option<u16>)
    ensures
        r == port_value(s@),
{
    let n = s.unicode_len();
    if n == 0 {
        return None;
    }
    let mut v: u32 = 0;
    let mut i: usize = 0;
    while i < n
        invariant
            n == s@.len(),
            i <= n,
            v == digits_value(s@.take(i as int)),
            v <= 65535,
            forall|j: int| 0 <= j < i ==> is_digit(#[trigger] s@[j]),
        decreases n - i,
    {
        let c = s.get_char(i);
        if !('0' <= c && c <= '9') {
            assert(!is_digit(s@[i as int]));
            return None;
        }
        let d = (c as u32) - 48;
        assert(s@.take(i + 1).drop_last() =~= s@.take(i as int));
        let w = v * 10 + d;
        if w > 65535 {
            proof {
                lemma_digits_grow(s@, i + 1);
            }
            return None;
        }
        v = w;
        i = i + 1;
    }
    assert(s@.take(n as int) =~= s@);
    Some(v as u16)
}

/// Splits `address:port` text into its address and port; `None` when it
/// has no colon, the port is not one, or an address holding a colon is not
/// in brackets.
pub fn split_endpoint_text(t: &str) -> (r: Option<(String, u16)>)
    ensures
        match r {
            Some((h, p)) => split_endpoint(t@) == Some((h@, p)),
            None => split_endpoint(t@) is None,
        },
{
    let n = t.unicode_len();
    let mut i: usize = n;
    let mut found = false;
    while i > 0 && !found
        invariant
            n == t@.len(),
            i <= n,
            forall|j: int| i < j < n ==> t@[j] != ':',
            found ==> i < n && t@[i as int] == ':',
            !found ==> forall|j: int| i <= j < n ==> t@[j] != ':',
        decreases i + (if found { 0int } else { 1int }),
    {
        if t.get_char(i - 1) == ':' {
            i = i - 1;
            found = true;
        } else {
            i = i - 1;
        }
    }
    if !found {
        proof {
            lemma_no_index_from_scan(t@, ':');
        }
        return None;
    }
    proof {
        lemma_last_index_from_scan(t@, ':', i as int);
    }
    let port_text = t.substring_char(i + 1, n);
    assert(port_text@ =~= t@.skip(i + 1));
    let port = match parse_port(port_text) {
        Some(p) => p,
        None => return None,
    };
    let host = t.substring_char(0, i);
    assert(host@ =~= t@.take(i as int));
    if i >= 2 && host.get_char(0) == '[' && host.get_char(i - 1) == ']' {
        let inner = host.substring_char(1, i - 1);
        return Some((inner.to_owned(), port));
    }
    assert(!(host@.len() >= 2 && host@[0] == '[' && host@.last() == ']'));
    let mut j: usize = 0;
    while j < i
        invariant
            i == host@.len(),
            j <= i,
            host@ == t@.take(i as int),
            last_index_of(t@, ':') == Some(i as int),
            port_value(t@.skip(i + 1)) == Some(port),
            !(host@.len() >= 2 && host@[0] == '[' && host@.last() == ']'),
            forall|k: int| 0 <= k < j ==> host@[k] != ':',
        decreases i - j,
    {
        if host.get_char(j) == ':' {
            assert(host@.contains(':'));
            assert(split_endpoint(t@) is None);
            return None;
        }
        j = j + 1;
    }
    Some((host.to_owned(), port))
}

proof fn lemma_digit_char_range(d: int)
    requires
        0 <= d < 16,
    ensures
        d < 10 ==> is_digit(digit_char(d)) && digit_char(d) as int == 48 + d,
        d >= 10 ==> 'a' <= digit_char(d) <= 'f',
{
}

/// Every character of a decimal or hexadecimal numeral is a digit or one of
/// `a` to `f`; those of a decimal numeral are digits.
pub proof fn lemma_numeral_chars(n: nat, base: nat)
    requires
        base == 10 || base == 16,
    ensures
        numeral(n, base).len() >= 1,
        forall|i: int|
            0 <= i < numeral(n, base).len() ==> is_digit(#[trigger] numeral(n, base)[i]) || ('a'
                <= numeral(n, base)[i] <= 'f'),
        base == 10 ==> forall|i: int|
            0 <= i < numeral(n, base).len() ==> is_digit(#[trigger] numeral(n, base)[i]),
    decreases n,
{
    if n < base {
        lemma_digit_char_range(n as int);
    } else {
        assert(n / base < n) by (nonlinear_arith)
            requires
                base >= 2,
                n >= base,
        ;
        lemma_numeral_chars(n / base, base);
        lemma_digit_char_range((n % base) as int);
    }
}

/// A decimal numeral's digits spell its value.
pub proof fn lemma_decimal_value(n: nat)
    ensures
        digits_value(decimal(n)) == n,
    decreases n,
{
    if n < 10 {
        lemma_digit_char_range(n as int);
        let s = decimal(n);
        assert(s == seq![digit_char(n as int)]);
        assert(s.drop_last() =~= Seq::<char>::empty());
        assert(s.last() as nat == 48 + n);
        assert(digits_value(s) == digits_value(s.drop_last()) * 10 + (s.last() as nat - 48) as nat);
    } else {
        assert(n / 10 < n);
        lemma_decimal_value(n / 10);
        lemma_digit_char_range((n % 10) as int);
        let s = decimal(n);
        assert(s == decimal(n / 10).push(digit_char((n % 10) as int)));
        assert(s.drop_last() =~= decimal(n / 10));
        assert(s.last() as nat == 48 + n % 10);
        assert(n == (n / 10) * 10 + n % 10);
        assert(digits_value(s) == digits_value(s.drop_last()) * 10 + (s.last() as nat - 48) as nat);
    }
}

/// `host:port` with the port in decimal splits at the colon before the port.
pub proof fn lemma_split_host_port(host: Seq<char>, port: u16)
    ensures
        split_endpoint(host + seq![':'] + decimal(port as nat)) == (if host.len() >= 2 && host[0]
            == '[' && host.last() == ']' {
            Some((host.subrange(1, host.len() - 1), port))
        } else if host.contains(':') {
            None
        } else {
            Some((host, port))
        }),
{
    let d = decimal(port as nat);
    let t = host + seq![':'] + d;
    lemma_numeral_chars(port as nat, 10);
    lemma_decimal_value(port as nat);
    assert forall|j: int| host.len() < j < t.len() implies t[j] != ':' by {
        assert(t[j] == d[j - host.len() - 1]);
        assert(is_digit(d[j - host.len() - 1]));
    }
    lemma_last_index_from_scan(t, ':', host.len() as int);
    assert(t.take(host.len() as int) =~= host);
    assert(t.skip(host.len() as int + 1) =~= d);
    assert forall|i: int| 0 <= i < d.len() implies is_digit(#[trigger] d[i]) by {}
    assert(port_value(d) == Some(port));
}

} // verus!
