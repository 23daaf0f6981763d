//! Verified parsing of the textual address forms the configuration uses:
//! dotted-quad IPv4 addresses, `ip:port` socket addresses, and `ip/len`
//! CIDR blocks.

use vstd::prelude::*;

use crate::net::{Ipv4Address, Ipv4Cidr, SockAddrV4};

verus! {

/// Index of the first occurrence of `sep` in `s`, or `s.len()` if absent.
pub open spec fn find_sep(s: Seq<char>, sep: char) -> nat
    decreases s.len(),
{
    if s.len() == 0 {
        0
    } else if s[0] == sep {
        0
    } else {
        1 + find_sep(s.skip(1), sep)
    }
}

/// The pieces of `s` between occurrences of `sep`. Always non-empty;
/// separators at the ends or adjacent to each other yield empty pieces.
pub open spec fn spec_split(s: Seq<char>, sep: char) -> Seq<Seq<char>>
    decreases s.len(),
{
    let i = find_sep(s, sep);
    if i >= s.len() {
        seq![s]
    } else {
        seq![s.take(i as int)] + spec_split(s.skip(i as int + 1), sep)
    }
}

proof fn lemma_find_sep_at(s: Seq<char>, sep: char, k: nat)
    requires
        k <= s.len(),
        forall|j: int| 0 <= j < k ==> s[j] != sep,
        k < s.len() ==> s[k as int] == sep,
    ensures
        find_sep(s, sep) == k,
    decreases k,
{
    if k == 0 {
    } else {
        assert(s[0] != sep);
        let t = s.skip(1);
        assert(forall|j: int| 0 <= j < k - 1 ==> t[j] == s[j + 1] && t[j] != sep);
        assert(k - 1 < t.len() ==> t[k - 1] == s[k as int] && t[k - 1] == sep);
        lemma_find_sep_at(t, sep, (k - 1) as nat);
    }
}

pub open spec fn is_digit(c: char) -> bool {
    '0' <= c && c <= '9'
}

pub open spec fn digit_val(c: char) -> nat {
    (c as nat - '0' as nat) as nat
}

pub open spec fn all_digits(s: Seq<char>) -> bool {
    forall|i: int| 0 <= i < s.len() ==> is_digit(#[trigger] s[i])
}

/// Value of a string of decimal digits, most significant first.
pub open spec fn dec_val(s: Seq<char>) -> nat
    decreases s.len(),
{
    if s.len() == 0 {
        0
    } else {
        dec_val(s.drop_last()) * 10 + digit_val(s.last())
    }
}

/// A non-empty, all-digit string.
pub open spec fn is_dec(s: Seq<char>) -> bool {
    s.len() >= 1 && all_digits(s)
}

/// A decimal string acceptable as one octet of a dotted quad: no leading
/// zero (except "0" itself) and value at most 255.
pub open spec fn is_octet(s: Seq<char>) -> bool {
    is_dec(s) && (s.len() > 1 ==> s[0] != '0') && dec_val(s) <= 255
}

proof fn lemma_dec_val_prefix_le(s: Seq<char>, i: int, j: int)
    requires
        0 <= i <= j <= s.len(),
    ensures
        dec_val(s.take(i)) <= dec_val(s.take(j)),
    decreases j - i,
{
    if i < j {
        lemma_dec_val_prefix_le(s, i, j - 1);
        assert(s.take(j).drop_last() =~= s.take(j - 1));
        assert(dec_val(s.take(j)) == dec_val(s.take(j - 1)) * 10 + digit_val(s.take(j).last()));
        assert(dec_val(s.take(j - 1)) * 10 >= dec_val(s.take(j - 1))) by (nonlinear_arith);
    }
}

/// Parses `s` as a decimal number of value at most `bound`. Returns the
/// value exactly when `s` is a non-empty digit string whose value fits.
pub fn parse_decimal_bounded(s: &str, bound: u32) -> (r: Option<u32>)
    ensures
        match r {
            Some(v) => is_dec(s@) && dec_val(s@) <= bound && v as nat == dec_val(s@),
            None => !(is_dec(s@) && dec_val(s@) <= bound),
        },
{
    let len = s.unicode_len();
    if len == 0 {
        return None;
    }
    let mut acc: u32 = 0;
    let mut i: usize = 0;
    while i < len
        invariant
            i <= len,
            len == s@.len(),
            all_digits(s@.take(i as int)),
            acc as nat == dec_val(s@.take(i as int)),
            acc <= bound,
        decreases len - i,
    {
        let c = s.get_char(i);
        if c < '0' || c > '9' {
            assert(!all_digits(s@));
            return None;
        }
        let d: u32 = (c as u32) - 48;
        let next: u64 = (acc as u64) * 10 + (d as u64);
        proof {
            assert(s@.take(i + 1).drop_last() =~= s@.take(i as int));
            assert(s@.take(i + 1).last() == s@[i as int]);
        }
        if next > bound as u64 {
            proof {
                if all_digits(s@) {
                    lemma_dec_val_prefix_le(s@, i + 1, s@.len() as int);
                    assert(s@.take(s@.len() as int) =~= s@);
                }
            }
            return None;
        }
        acc = next as u32;
        i += 1;
    }
    proof {
        assert(s@.take(len as int) =~= s@);
    }
    Some(acc)
}

/// Splits `s` on `sep`, mirroring [`spec_split`].
pub fn split_str<'a>(s: &'a str, sep: char) -> (parts: Vec<&'a str>)
    ensures
        parts.deep_view() == spec_split(s@, sep),
{
    let len = s.unicode_len();
    let mut parts: Vec<&'a str> = Vec::new();
    let mut start: usize = 0;
    let mut i: usize = 0;
    proof {
        assert(s@.skip(0) =~= s@);
        assert(parts.deep_view() =~= Seq::<Seq<char>>::empty());
        assert(parts.deep_view() + spec_split(s@, sep) =~= spec_split(s@, sep));
    }
    while i < len
        invariant
            start <= i <= len,
            len == s@.len(),
            spec_split(s@, sep) == parts.deep_view() + spec_split(s@.skip(start as int), sep),
            forall|j: int| start <= j < i ==> s@[j] != sep,
        decreases len - i,
    {
        let c = s.get_char(i);
        if c == sep {
            let piece = s.substring_char(start, i);
            proof {
                let t = s@.skip(start as int);
                assert(forall|j: int|
                    0 <= j < i - start ==> t[j] == s@[j + start] && t[j] != sep);
                assert(t[i - start] == s@[i as int]);
                lemma_find_sep_at(t, sep, (i - start) as nat);
                assert(t.take(i - start) =~= s@.subrange(start as int, i as int));
                assert(t.skip(i - start + 1) =~= s@.skip(i as int + 1));
                assert(spec_split(t, sep) == seq![s@.subrange(start as int, i as int)]
                    + spec_split(s@.skip(i as int + 1), sep));
            }
            let ghost old_parts = parts.deep_view();
            parts.push(piece);
            proof {
                assert(parts.deep_view() =~= old_parts.push(piece@));
                assert(parts.deep_view() + spec_split(s@.skip(i as int + 1), sep) =~= (old_parts
                    + spec_split(s@.skip(start as int), sep)));
            }
            start = i + 1;
        }
        i += 1;
    }
    let piece = s.substring_char(start, len);
    proof {
        let t = s@.skip(start as int);
        assert(forall|j: int| 0 <= j < t.len() ==> t[j] == s@[j + start] && t[j] != sep);
        lemma_find_sep_at(t, sep, t.len());
        assert(spec_split(t, sep) == seq![t]);
        assert(t =~= s@.subrange(start as int, len as int));
    }
    let ghost old_parts = parts.deep_view();
    parts.push(piece);
    proof {
        assert(parts.deep_view() =~= old_parts.push(piece@));
        assert(old_parts.push(piece@) =~= old_parts + seq![s@.skip(start as int)]);
    }
    parts
}

/// The result of parsing `s` as a dotted-quad IPv4 address: four
/// dot-separated octet strings.
pub open spec fn spec_parse_ipv4(s: Seq<char>) -> Option<Ipv4Address> {
    let ps = spec_split(s, '.');
    if ps.len() == 4 && is_octet(ps[0]) && is_octet(ps[1]) && is_octet(ps[2]) && is_octet(ps[3]) {
        Some(
            Ipv4Address {
                o0: dec_val(ps[0]) as u8,
                o1: dec_val(ps[1]) as u8,
                o2: dec_val(ps[2]) as u8,
                o3: dec_val(ps[3]) as u8,
            },
        )
    } else {
        None
    }
}

/// Parses one octet string: digits, no leading zero, value at most 255.
fn parse_octet(s: &str) -> (r: Option<u8>)
    ensures
        match r {
            Some(v) => is_octet(s@) && v as nat == dec_val(s@),
            None => !is_octet(s@),
        },
{
    let len = s.unicode_len();
    if len > 1 {
        if s.get_char(0) == '0' {
            return None;
        }
    }
    match parse_decimal_bounded(s, 255) {
        Some(v) => Some(v as u8),
        None => None,
    }
}

/// Parses a dotted-quad IPv4 address, mirroring [`spec_parse_ipv4`].
pub fn parse_ipv4_addr(s: &str) -> (r: Option<Ipv4Address>)
    ensures
        r == spec_parse_ipv4(s@),
{
    let parts = split_str(s, '.');
    if parts.len() != 4 {
        return None;
    }
    let p0 = parse_octet(parts[0]);
    let p1 = parse_octet(parts[1]);
    let p2 = parse_octet(parts[2]);
    let p3 = parse_octet(parts[3]);
    match (p0, p1, p2, p3) {
        (Some(o0), Some(o1), Some(o2), Some(o3)) => Some(Ipv4Address { o0, o1, o2, o3 }),
        _ => None,
    }
}

/// The result of parsing `s` as `ip:port`: a dotted quad, one colon, and a
/// decimal port of value at most 65535 (leading zeros allowed).
pub open spec fn spec_parse_sockaddr(s: Seq<char>) -> Option<SockAddrV4> {
    let ps = spec_split(s, ':');
    if ps.len() == 2 && spec_parse_ipv4(ps[0]) is Some && is_dec(ps[1]) && dec_val(ps[1]) <= 65535 {
        Some(SockAddrV4 { ip: spec_parse_ipv4(ps[0])->Some_0, port: dec_val(ps[1]) as u16 })
    } else {
        None
    }
}

/// Parses an `ip:port` socket address, mirroring [`spec_parse_sockaddr`].
pub fn parse_sockaddr_v4(s: &str) -> (r: Option<SockAddrV4>)
    ensures
        r == spec_parse_sockaddr(s@),
{
    let parts = split_str(s, ':');
    if parts.len() != 2 {
        return None;
    }
    let ip = parse_ipv4_addr(parts[0]);
    let port = parse_decimal_bounded(parts[1], 65535);
    match (ip, port) {
        (Some(ip), Some(port)) => Some(SockAddrV4 { ip, port: port as u16 }),
        _ => None,
    }
}

/// An octet string inside a CIDR block: one to three digits (leading zeros
/// allowed, unlike the bare dotted quad) of value at most 255.
pub open spec fn is_cidr_octet(s: Seq<char>) -> bool {
    is_dec(s) && s.len() <= 3 && dec_val(s) <= 255
}

/// The address part of a CIDR block: four dot-separated CIDR octets.
pub open spec fn spec_parse_cidr_addr(s: Seq<char>) -> Option<Ipv4Address> {
    let ps = spec_split(s, '.');
    if ps.len() == 4 && is_cidr_octet(ps[0]) && is_cidr_octet(ps[1]) && is_cidr_octet(ps[2])
        && is_cidr_octet(ps[3]) {
        Some(
            Ipv4Address {
                o0: dec_val(ps[0]) as u8,
                o1: dec_val(ps[1]) as u8,
                o2: dec_val(ps[2]) as u8,
                o3: dec_val(ps[3]) as u8,
            },
        )
    } else {
        None
    }
}

/// The prefix part of a CIDR block: one or two digits (leading zeros
/// allowed) of value at most 32.
pub open spec fn is_cidr_prefix(s: Seq<char>) -> bool {
    is_dec(s) && s.len() <= 2 && dec_val(s) <= 32
}

/// The result of parsing `s` as an `ip/len` CIDR block. The grammar differs
/// from the bare dotted quad's: octets may carry leading zeros but run to
/// at most three digits, and the prefix length to at most two.
pub open spec fn spec_parse_cidr(s: Seq<char>) -> Option<Ipv4Cidr> {
    let ps = spec_split(s, '/');
    if ps.len() == 2 && spec_parse_cidr_addr(ps[0]) is Some && is_cidr_prefix(ps[1]) {
        Some(Ipv4Cidr { addr: spec_parse_cidr_addr(ps[0])->Some_0, prefix_len: dec_val(ps[1]) as u8 })
    } else {
        None
    }
}

/// Parses one CIDR octet: up to three digits, value at most 255.
fn parse_cidr_octet(s: &str) -> (r: Option<u8>)
    ensures
        match r {
            Some(v) => is_cidr_octet(s@) && v as nat == dec_val(s@),
            None => !is_cidr_octet(s@),
        },
{
    let len = s.unicode_len();
    if len > 3 {
        return None;
    }
    match parse_decimal_bounded(s, 255) {
        Some(v) => Some(v as u8),
        None => None,
    }
}

/// Parses the address part of a CIDR block, mirroring
/// [`spec_parse_cidr_addr`].
fn parse_cidr_addr(s: &str) -> (r: Option<Ipv4Address>)
    ensures
        r == spec_parse_cidr_addr(s@),
{
    let parts = split_str(s, '.');
    if parts.len() != 4 {
        return None;
    }
    let p0 = parse_cidr_octet(parts[0]);
    let p1 = parse_cidr_octet(parts[1]);
    let p2 = parse_cidr_octet(parts[2]);
    let p3 = parse_cidr_octet(parts[3]);
    match (p0, p1, p2, p3) {
        (Some(o0), Some(o1), Some(o2), Some(o3)) => Some(Ipv4Address { o0, o1, o2, o3 }),
        _ => None,
    }
}

/// Parses an `ip/len` CIDR block, mirroring [`spec_parse_cidr`]. A parsed
/// block is always well formed.
pub fn parse_ipv4_cidr(s: &str) -> (r: Option<Ipv4Cidr>)
    ensures
        r == spec_parse_cidr(s@),
        r matches Some(c) ==> c.wf(),
{
    let parts = split_str(s, '/');
    if parts.len() != 2 {
        return None;
    }
    let ip = parse_cidr_addr(parts[0]);
    let prefix = parts[1];
    if prefix.unicode_len() > 2 {
        return None;
    }
    let len = parse_decimal_bounded(prefix, 32);
    match (ip, len) {
        (Some(addr), Some(len)) => Some(Ipv4Cidr { addr, prefix_len: len as u8 }),
        _ => None,
    }
}

} // verus!
