use vstd::prelude::*;
use vstd::utf8::encode_utf8;

use crate::text::{
    alphanumeric_char, char_pieces, chars_of, is_alphanumeric, parse_unsigned,
    parse_unsigned_chars, split_chars, split_on,
};

verus! {

/// A dotted quad: exactly four parts, each an octet.
pub open spec fn valid_ip(s: Seq<char>) -> bool {
    let parts = split_on(s, '.');
    &&& parts.len() == 4
    &&& forall|i: int| 0 <= i < 4 ==> parse_unsigned(#[trigger] parts[i], 255) is Some
}

/// A char that a domain name may hold.
pub open spec fn domain_char(c: char) -> bool {
    alphanumeric_char(c) || c == '-' || c == '.'
}

pub open spec fn starts_with_hyphen(s: Seq<char>) -> bool {
    s.len() > 0 && s[0] == '-'
}

pub open spec fn ends_with_hyphen(s: Seq<char>) -> bool {
    s.len() > 0 && s.last() == '-'
}

/// A domain name as zone files give it: at most 63 bytes of UTF-8, only
/// letters, digits, `-` and `.`, at least three dot-separated parts, the
/// first not starting with `-` and the one before the last not ending
/// with `-`.
pub open spec fn valid_domain(s: Seq<char>) -> bool {
    let parts = split_on(s, '.');
    &&& encode_utf8(s).len() <= 63
    &&& forall|i: int| 0 <= i < s.len() ==> domain_char(#[trigger] s[i])
    &&& parts.len() >= 3
    &&& !ends_with_hyphen(parts[parts.len() - 2])
    &&& !starts_with_hyphen(parts[0])
}

/// Whether `ip` is a dotted quad.
pub fn validate_ip(ip: String) -> (r: bool)
    ensures
        r == valid_ip(ip@),
{
    let chars = chars_of(ip.as_str());
    let parts = split_chars(chars.as_slice(), '.');
    let ghost pieces = char_pieces(parts@);
    if parts.len() != 4 {
        return false;
    }
    let mut i: usize = 0;
    while i < 4
        invariant
            parts@.len() == 4,
            pieces == char_pieces(parts@),
            pieces == split_on(ip@, '.'),
            i <= 4,
            forall|j: int| 0 <= j < i ==> parse_unsigned(#[trigger] pieces[j], 255) is Some,
        decreases 4 - i,
    {
        assert(pieces[i as int] == parts@[i as int]@);
        if parse_unsigned_chars(parts[i].as_slice(), 255).is_none() {
            return false;
        }
        i = i + 1;
    }
    true
}

/// Whether `domain` is a domain name as zone files give it.
pub fn validate_domain(domain: String) -> (r: bool)
    ensures
        r == valid_domain(domain@),
{
    let byte_len = domain.as_str().as_bytes().len();
    if byte_len > 63 {
        return false;
    }
    assert(encode_utf8(domain@).len() <= 63);
    let chars = chars_of(domain.as_str());
    let n = chars.len();
    let mut i: usize = 0;
    while i < n
        invariant
            n == chars@.len(),
            chars@ == domain@,
            i <= n,
            forall|j: int| 0 <= j < i ==> domain_char(#[trigger] chars@[j]),
        decreases n - i,
    {
        let c = chars[i];
        if !(is_alphanumeric(c) || c == '-' || c == '.') {
            return false;
        }
        i = i + 1;
    }
    let parts = split_chars(chars.as_slice(), '.');
    let ghost pieces = char_pieces(parts@);
    let count = parts.len();
    if count < 3 {
        return false;
    }
    let before_last = &parts[count - 2];
    let first = &parts[0];
    assert(pieces[count - 2] == before_last@);
    assert(pieces[0] == first@);
    if before_last.len() > 0 && before_last[before_last.len() - 1] == '-' {
        return false;
    }
    if first.len() > 0 && first[0] == '-' {
        return false;
    }
    assert(forall|j: int| 0 <= j < domain@.len() ==> domain_char(#[trigger] domain@[j]));
    assert(pieces == split_on(domain@, '.'));
    true
}

} // verus!
