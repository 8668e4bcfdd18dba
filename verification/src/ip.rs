//! The IP target parser: one textual token — an explicit `A-B` range, an
//! `A/prefix` network, or a single address — turned into a version-tagged
//! range of address values. IPv4 addresses are 32-bit values, IPv6 addresses
//! 128-bit values; a network's last address is computed by OR-ing the
//! inverted network mask into its first address.

use vstd::prelude::*;
use vstd::string::StrSliceExecFns;
use vstd::string::StringExecFns;

use crate::range::{spec_range, Range};
use crate::text::{
    all_digits, dec_val, find_char, find_first, lemma_dec_val_bound, lemma_find_first,
    parse_digits_bounded, split_on, split_str,
};

verus! {

broadcast use crate::range::lemma_spec_range;

/// A parsed IP address of either version, as a plain value.
#[derive(Debug, Clone, Copy, PartialEq, Eq)]
pub enum IpAddress {
    /// An IPv4 address as its 32-bit value.
    V4(u32),
    /// An IPv6 address as its 128-bit value.
    V6(u128),
}

/// A version-tagged range of IP addresses.
#[derive(Debug, Clone, Copy, PartialEq, Eq)]
pub enum IpRangeUniversal {
    /// A range of IPv4 addresses.
    V4(Range<u32>),
    /// A range of IPv6 addresses.
    V6(Range<u128>),
}

/// A textual IPv4 octet: one to three digits, no leading zero, at most 255.
pub open spec fn valid_octet(p: Seq<char>) -> bool {
    &&& 1 <= p.len() <= 3
    &&& all_digits(p)
    &&& (p.len() > 1 ==> p[0] != '0')
    &&& dec_val(p) <= 255
}

/// A textual IPv4 address: four valid octets separated by dots, read as one
/// 32-bit value, most significant octet first.
pub open spec fn spec_parse_ipv4(s: Seq<char>) -> Option<u32> {
    let parts = split_on(s, '.');
    if parts.len() == 4 && valid_octet(parts[0]) && valid_octet(parts[1]) && valid_octet(parts[2])
        && valid_octet(parts[3]) {
        Some(
            (dec_val(parts[0]) * 0x1000000 + dec_val(parts[1]) * 0x10000 + dec_val(parts[2]) * 0x100
                + dec_val(parts[3])) as u32,
        )
    } else {
        None
    }
}

/// The value of a textual IPv6 address, or nothing when the text is none.
pub uninterp spec fn ipv6_of_text(s: Seq<char>) -> Option<u128>;

/// Relies on `ipnet::Ipv6Net`'s parser, whose address part is the textual
/// IPv6 address grammar: appending the full-length prefix makes the text a
/// valid network exactly when the text alone is a valid IPv6 address, and
/// the parsed value depends on the text alone.
#[verifier::external_body]
fn parse_ipv6_text(s: &str) -> (r: Option<u128>)
    ensures
        r == ipv6_of_text(s@),
{
    let mut t = String::with_capacity(s.len() + 4);
    t.push_str(s);
    t.push_str("/128");
    match t.parse::<ipnet::Ipv6Net>() {
        Ok(n) => Some(u128::from(n.addr())),
        Err(_) => None,
    }
}

/// A textual address of either version: an IPv4 dotted quad, else an IPv6
/// address.
pub open spec fn spec_parse_addr(s: Seq<char>) -> Option<IpAddress> {
    match spec_parse_ipv4(s) {
        Some(v) => Some(IpAddress::V4(v)),
        None => match ipv6_of_text(s) {
            Some(v) => Some(IpAddress::V6(v)),
            None => None,
        },
    }
}

/// The message for an address that does not parse.
pub open spec fn ip_err_msg(t: Seq<char>) -> Seq<char> {
    "Could not parse IP from "@ + t + " because of invalid IP address syntax"@
}

/// The message for a reversed address range.
pub open spec fn ip_order_msg(a: Seq<char>, b: Seq<char>) -> Seq<char> {
    a + " is greater than "@ + b
}

/// The message for a range mixing the two IP versions.
pub open spec fn ip_mixed_msg(a: Seq<char>, b: Seq<char>) -> Seq<char> {
    "Mixed IP versions in range "@ + a + "-"@ + b
}

/// The message for a network that does not parse.
pub open spec fn net_err_msg(s: Seq<char>) -> Seq<char> {
    "Could not parse IP network from "@ + s + " because of invalid IP address syntax"@
}

/// A textual prefix length: one to `max_len` digits valued at most `bound`.
pub open spec fn valid_prefix(p: Seq<char>, max_len: int, bound: int) -> bool {
    1 <= p.len() <= max_len && all_digits(p) && dec_val(p) <= bound
}

/// The host bits of an IPv4 network with the given prefix length: the
/// inverted network mask.
pub open spec fn host_mask4(prefix: u16) -> u32 {
    if prefix >= 32 {
        0u32
    } else {
        0xFFFF_FFFFu32 >> (prefix as u32)
    }
}

/// The host bits of an IPv6 network with the given prefix length.
pub open spec fn host_mask6(prefix: u16) -> u128 {
    if prefix >= 128 {
        0u128
    } else {
        0xFFFF_FFFF_FFFF_FFFF_FFFF_FFFF_FFFF_FFFFu128 >> (prefix as u32)
    }
}

/// An explicit range token `A-B`, already split at the first `-`.
pub open spec fn spec_parse_ip_range(a: Seq<char>, b: Seq<char>) -> Result<
    IpRangeUniversal,
    Seq<char>,
> {
    match spec_parse_addr(a) {
        None => Err(ip_err_msg(a)),
        Some(begin) => match spec_parse_addr(b) {
            None => Err(ip_err_msg(b)),
            Some(end) => match (begin, end) {
                (IpAddress::V4(x), IpAddress::V4(y)) => if x > y {
                    Err(ip_order_msg(a, b))
                } else {
                    Ok(IpRangeUniversal::V4(spec_range(x, y)))
                },
                (IpAddress::V6(x), IpAddress::V6(y)) => if x > y {
                    Err(ip_order_msg(a, b))
                } else {
                    Ok(IpRangeUniversal::V6(spec_range(x, y)))
                },
                _ => Err(ip_mixed_msg(a, b)),
            },
        },
    }
}

/// A network token `A/prefix`, already split at the first `/`; `s` is the
/// whole token, which the failure message quotes. The range runs from the
/// network address — the host bits masked off — to the last address of the
/// network — the host bits set.
pub open spec fn spec_parse_ip_net(s: Seq<char>, a: Seq<char>, p: Seq<char>) -> Result<
    IpRangeUniversal,
    Seq<char>,
> {
    match spec_parse_addr(a) {
        None => Err(net_err_msg(s)),
        Some(IpAddress::V4(x)) => if valid_prefix(p, 2, 32) {
            let m = host_mask4(dec_val(p) as u16);
            Ok(IpRangeUniversal::V4(spec_range(x & !m, x | m)))
        } else {
            Err(net_err_msg(s))
        },
        Some(IpAddress::V6(x)) => if valid_prefix(p, 3, 128) {
            let m = host_mask6(dec_val(p) as u16);
            Ok(IpRangeUniversal::V6(spec_range(x & !m, x | m)))
        } else {
            Err(net_err_msg(s))
        },
    }
}

/// The version-tagged range's underlying range is well formed.
pub open spec fn ip_range_wf(v: IpRangeUniversal) -> bool {
    match v {
        IpRangeUniversal::V4(r) => r.wf(),
        IpRangeUniversal::V6(r) => r.wf(),
    }
}

/// One IP target token, the three forms tried in priority order: an explicit
/// range around the first `-`, a network around the first `/`, else a single
/// address as a degenerate range.
pub open spec fn spec_parse_ip(s: Seq<char>) -> Result<IpRangeUniversal, Seq<char>> {
    let d = find_first(s, '-');
    let sl = find_first(s, '/');
    if d >= 0 {
        spec_parse_ip_range(s.take(d), s.skip(d + 1))
    } else if sl >= 0 {
        spec_parse_ip_net(s, s.take(sl), s.skip(sl + 1))
    } else {
        match spec_parse_addr(s) {
            None => Err(ip_err_msg(s)),
            Some(IpAddress::V4(x)) => Ok(IpRangeUniversal::V4(spec_range(x, x))),
            Some(IpAddress::V6(x)) => Ok(IpRangeUniversal::V6(spec_range(x, x))),
        }
    }
}

/// Reads a textual IPv4 octet.
fn parse_octet(p: &str) -> (r: Option<u8>)
    ensures
        r is Some <==> valid_octet(p@),
        r matches Some(v) ==> v as int == dec_val(p@),
{
    let n = p.unicode_len();
    if n > 1 && p.get_char(0) == '0' {
        return None;
    }
    match parse_digits_bounded(p, 3, 255) {
        Some(v) => Some(v as u8),
        None => None,
    }
}

/// Reads a textual IPv4 address.
fn parse_ipv4_text(s: &str) -> (r: Option<u32>)
    ensures
        r == spec_parse_ipv4(s@),
{
    let parts = split_str(s, '.');
    if parts.len() != 4 {
        return None;
    }
    let a = match parse_octet(parts[0].as_str()) {
        Some(v) => v,
        None => {
            return None;
        },
    };
    let b = match parse_octet(parts[1].as_str()) {
        Some(v) => v,
        None => {
            return None;
        },
    };
    let c = match parse_octet(parts[2].as_str()) {
        Some(v) => v,
        None => {
            return None;
        },
    };
    let d = match parse_octet(parts[3].as_str()) {
        Some(v) => v,
        None => {
            return None;
        },
    };
    proof {
        lemma_dec_val_bound(split_on(s@, '.')[0]);
        lemma_dec_val_bound(split_on(s@, '.')[1]);
        lemma_dec_val_bound(split_on(s@, '.')[2]);
        lemma_dec_val_bound(split_on(s@, '.')[3]);
    }
    Some(
        (a as u32) * 0x1000000 + (b as u32) * 0x10000 + (c as u32) * 0x100 + (d as u32),
    )
}

/// Reads a textual address of either version.
fn parse_addr_opt(txt: &str) -> (r: Option<IpAddress>)
    ensures
        r == spec_parse_addr(txt@),
{
    match parse_ipv4_text(txt) {
        Some(v) => Some(IpAddress::V4(v)),
        None => match parse_ipv6_text(txt) {
            Some(v) => Some(IpAddress::V6(v)),
            None => None,
        },
    }
}

/// Builds the message for an address that does not parse.
fn ip_error(t: &str) -> (m: String)
    ensures
        m@ == ip_err_msg(t@),
{
    let mut m = String::from_str("Could not parse IP from ");
    m.append(t);
    m.append(" because of invalid IP address syntax");
    proof {
        assert(m@ =~= ip_err_msg(t@));
    }
    m
}

/// Builds the message for a network that does not parse.
fn net_error(s: &str) -> (m: String)
    ensures
        m@ == net_err_msg(s@),
{
    let mut m = String::from_str("Could not parse IP network from ");
    m.append(s);
    m.append(" because of invalid IP address syntax");
    proof {
        assert(m@ =~= net_err_msg(s@));
    }
    m
}

/// Builds the message for a reversed address range.
fn ip_order_error(a: &str, b: &str) -> (m: String)
    ensures
        m@ == ip_order_msg(a@, b@),
{
    let mut m = a.to_owned();
    m.append(" is greater than ");
    m.append(b);
    proof {
        assert(m@ =~= ip_order_msg(a@, b@));
    }
    m
}

/// Builds the message for a range mixing the two IP versions.
fn ip_mixed_error(a: &str, b: &str) -> (m: String)
    ensures
        m@ == ip_mixed_msg(a@, b@),
{
    let mut m = String::from_str("Mixed IP versions in range ");
    m.append(a);
    m.append("-");
    m.append(b);
    proof {
        assert(m@ =~= ip_mixed_msg(a@, b@));
    }
    m
}

/// Parses one textual address, with a displayable message on failure.
pub fn parse_single_ip(txt: &str) -> (r: Result<IpAddress, String>)
    ensures
        r is Ok <==> spec_parse_addr(txt@) is Some,
        r matches Ok(a) ==> spec_parse_addr(txt@) == Some(a),
        r matches Err(m) ==> m@ == ip_err_msg(txt@),
{
    match parse_addr_opt(txt) {
        Some(a) => Ok(a),
        None => Err(ip_error(txt)),
    }
}

/// The first address of a network is never above its last address.
proof fn lemma_mask_order4(x: u32, m: u32)
    ensures
        (x & !m) <= (x | m),
{
    assert((x & !m) <= (x | m)) by (bit_vector);
}

/// The first address of a network is never above its last address.
proof fn lemma_mask_order6(x: u128, m: u128)
    ensures
        (x & !m) <= (x | m),
{
    assert((x & !m) <= (x | m)) by (bit_vector);
}

/// Parses one IP target token: an explicit range `A-B`, a network
/// `A/prefix`, or a single address, in that priority order, into a
/// version-tagged address range. Failures carry a displayable message: the
/// offending text and the cause, a reversed range's bounds, or the two
/// mixed versions.
pub fn parse_ip(txt: &str) -> (r: Result<IpRangeUniversal, String>)
    ensures
        r is Ok <==> spec_parse_ip(txt@) is Ok,
        r matches Ok(v) ==> spec_parse_ip(txt@) == Ok::<IpRangeUniversal, Seq<char>>(v)
            && ip_range_wf(v),
        r matches Err(m) ==> spec_parse_ip(txt@) matches Err(me) && m@ == me,
{
    proof {
        lemma_find_first(txt@, '-');
        lemma_find_first(txt@, '/');
    }
    let n = txt.unicode_len();
    match find_char(txt, '-') {
        Some(d) => {
            let a = txt.substring_char(0, d);
            let b = txt.substring_char(d + 1, n);
            proof {
                assert(a@ =~= txt@.take(d as int));
                assert(b@ =~= txt@.skip(d as int + 1));
            }
            let begin = match parse_single_ip(a) {
                Ok(v) => v,
                Err(m) => {
                    return Err(m);
                },
            };
            let end = match parse_single_ip(b) {
                Ok(v) => v,
                Err(m) => {
                    return Err(m);
                },
            };
            match (begin, end) {
                (IpAddress::V4(x), IpAddress::V4(y)) => {
                    if x > y {
                        return Err(ip_order_error(a, b));
                    }
                    match Range::new(x, y) {
                        Ok(rng) => Ok(IpRangeUniversal::V4(rng)),
                        Err(_) => {
                            proof {
                                assert(false);
                            }
                            Err(String::new())
                        },
                    }
                },
                (IpAddress::V6(x), IpAddress::V6(y)) => {
                    if x > y {
                        return Err(ip_order_error(a, b));
                    }
                    match Range::new(x, y) {
                        Ok(rng) => Ok(IpRangeUniversal::V6(rng)),
                        Err(_) => {
                            proof {
                                assert(false);
                            }
                            Err(String::new())
                        },
                    }
                },
                _ => Err(ip_mixed_error(a, b)),
            }
        },
        None => {
            match find_char(txt, '/') {
                Some(sl) => {
                    let a = txt.substring_char(0, sl);
                    let p = txt.substring_char(sl + 1, n);
                    proof {
                        assert(a@ =~= txt@.take(sl as int));
                        assert(p@ =~= txt@.skip(sl as int + 1));
                    }
                    match parse_addr_opt(a) {
                        None => Err(net_error(txt)),
                        Some(IpAddress::V4(x)) => {
                            match parse_digits_bounded(p, 2, 32) {
                                None => Err(net_error(txt)),
                                Some(pre) => {
                                    let m: u32 = if pre >= 32 {
                                        0
                                    } else {
                                        0xFFFF_FFFFu32 >> (pre as u32)
                                    };
                                    proof {
                                        lemma_mask_order4(x, m);
                                    }
                                    match Range::new(x & !m, x | m) {
                                        Ok(rng) => Ok(IpRangeUniversal::V4(rng)),
                                        Err(_) => {
                                            proof {
                                                assert(false);
                                            }
                                            Err(String::new())
                                        },
                                    }
                                },
                            }
                        },
                        Some(IpAddress::V6(x)) => {
                            match parse_digits_bounded(p, 3, 128) {
                                None => Err(net_error(txt)),
                                Some(pre) => {
                                    let m: u128 = if pre >= 128 {
                                        0
                                    } else {
                                        0xFFFF_FFFF_FFFF_FFFF_FFFF_FFFF_FFFF_FFFFu128 >> (
                                        pre as u32)
                                    };
                                    proof {
                                        lemma_mask_order6(x, m);
                                    }
                                    match Range::new(x & !m, x | m) {
                                        Ok(rng) => Ok(IpRangeUniversal::V6(rng)),
                                        Err(_) => {
                                            proof {
                                                assert(false);
                                            }
                                            Err(String::new())
                                        },
                                    }
                                },
                            }
                        },
                    }
                },
                None => {
                    match parse_single_ip(txt) {
                        Err(m) => Err(m),
                        Ok(IpAddress::V4(x)) => {
                            match Range::new(x, x) {
                                Ok(rng) => Ok(IpRangeUniversal::V4(rng)),
                                Err(_) => {
                                    proof {
                                        assert(false);
                                    }
                                    Err(String::new())
                                },
                            }
                        },
                        Ok(IpAddress::V6(x)) => {
                            match Range::new(x, x) {
                                Ok(rng) => Ok(IpRangeUniversal::V6(rng)),
                                Err(_) => {
                                    proof {
                                        assert(false);
                                    }
                                    Err(String::new())
                                },
                            }
                        },
                    }
                },
            }
        },
    }
}

/// Reports only whether an IP target token parses, with the parse's own
/// message on failure.
pub fn validate_ip(txt: String) -> (r: Result<(), String>)
    ensures
        r is Ok <==> spec_parse_ip(txt@) is Ok,
        r matches Err(m) ==> spec_parse_ip(txt@) matches Err(me) && m@ == me,
{
    match parse_ip(txt.as_str()) {
        Ok(_) => Ok(()),
        Err(err) => Err(err),
    }
}

} // verus!
