//! Assembly of the aggregate target specification: every IP token parsed and
//! accumulated into per-version canonical range sets, both port
//! specifications parsed, and the scan options carried along.

use vstd::prelude::*;

use crate::ip::{parse_ip, spec_parse_ip, IpRangeUniversal};
use crate::ports::{parse_ports, spec_parse_ports};
use crate::range::{all_wf, canonical, simplify, spec_simplify, Range};

verus! {

/// The aggregate target specification handed to the scan engine: canonical
/// TCP and UDP port sets, canonical per-version IP range sets, and the scan
/// options.
#[derive(Debug)]
pub struct OpsConfig {
    /// The TCP ports to scan, canonical.
    pub tcp_ports: Vec<Range<u16>>,
    /// The UDP ports to scan, canonical.
    pub udp_ports: Vec<Range<u16>>,
    /// The IPv4 address ranges to scan, canonical.
    pub ipv4: Vec<Range<u32>>,
    /// The IPv6 address ranges to scan, canonical.
    pub ipv6: Vec<Range<u128>>,
    /// Whether ICMP pings are enabled.
    pub ping: bool,
    /// The packet rate cap, absent when unlimited.
    pub max_rate: Option<u32>,
    /// The per-device packet rate cap, absent by default.
    pub max_dev_rate: Option<u32>,
}

/// The IPv4 ranges of the tokens that parse as IPv4, in order.
pub open spec fn spec_v4_ranges(tokens: Seq<Seq<char>>) -> Seq<Range<u32>>
    decreases tokens.len(),
{
    if tokens.len() == 0 {
        Seq::empty()
    } else {
        let rest = spec_v4_ranges(tokens.drop_first());
        match spec_parse_ip(tokens[0]) {
            Ok(IpRangeUniversal::V4(r)) => seq![r] + rest,
            _ => rest,
        }
    }
}

/// The IPv6 ranges of the tokens that parse as IPv6, in order.
pub open spec fn spec_v6_ranges(tokens: Seq<Seq<char>>) -> Seq<Range<u128>>
    decreases tokens.len(),
{
    if tokens.len() == 0 {
        Seq::empty()
    } else {
        let rest = spec_v6_ranges(tokens.drop_first());
        match spec_parse_ip(tokens[0]) {
            Ok(IpRangeUniversal::V6(r)) => seq![r] + rest,
            _ => rest,
        }
    }
}

/// The first failing token's message, if any token fails.
pub open spec fn spec_first_ip_err(tokens: Seq<Seq<char>>) -> Option<Seq<char>>
    decreases tokens.len(),
{
    if tokens.len() == 0 {
        None
    } else {
        match spec_parse_ip(tokens[0]) {
            Err(m) => Some(m),
            Ok(_) => spec_first_ip_err(tokens.drop_first()),
        }
    }
}

/// Builds the aggregate target specification from the raw argument values:
/// each IP token parsed and the per-version ranges canonicalized, both port
/// specifications parsed, the options carried through. The first failure
/// aborts with its own message: the failing IP token's, then the TCP port
/// specification's, then the UDP one's.
pub fn build_config(
    ips: &Vec<String>,
    tcp_ports: &str,
    udp_ports: &str,
    ping: bool,
    max_rate: Option<u32>,
    max_dev_rate: Option<u32>,
) -> (r: Result<OpsConfig, String>)
    ensures
        r is Ok <==> (spec_first_ip_err(ips.deep_view()) is None && spec_parse_ports(tcp_ports@)
            is Ok && spec_parse_ports(udp_ports@) is Ok),
        r matches Ok(c) ==> {
            &&& c.ipv4@ == spec_simplify(spec_v4_ranges(ips.deep_view()))
            &&& c.ipv6@ == spec_simplify(spec_v6_ranges(ips.deep_view()))
            &&& canonical(c.ipv4@)
            &&& canonical(c.ipv6@)
            &&& spec_parse_ports(tcp_ports@) == Ok::<Seq<Range<u16>>, Seq<char>>(c.tcp_ports@)
            &&& spec_parse_ports(udp_ports@) == Ok::<Seq<Range<u16>>, Seq<char>>(c.udp_ports@)
            &&& c.ping == ping
            &&& c.max_rate == max_rate
            &&& c.max_dev_rate == max_dev_rate
        },
        r matches Err(m) ==> {
            ||| spec_first_ip_err(ips.deep_view()) == Some(m@)
            ||| (spec_first_ip_err(ips.deep_view()) is None && (spec_parse_ports(tcp_ports@)
                matches Err(e) && m@ == e))
            ||| (spec_first_ip_err(ips.deep_view()) is None && spec_parse_ports(tcp_ports@) is Ok
                && (spec_parse_ports(udp_ports@) matches Err(e) && m@ == e))
        },
{
    let ghost tv = ips.deep_view();
    let mut v4: Vec<Range<u32>> = Vec::new();
    let mut v6: Vec<Range<u128>> = Vec::new();
    let mut i: usize = 0;
    proof {
        assert(tv.skip(0) =~= tv);
    }
    while i < ips.len()
        invariant
            i <= ips@.len(),
            tv == ips.deep_view(),
            tv.len() == ips@.len(),
            spec_first_ip_err(tv) == spec_first_ip_err(tv.skip(i as int)),
            spec_v4_ranges(tv) == v4@ + spec_v4_ranges(tv.skip(i as int)),
            spec_v6_ranges(tv) == v6@ + spec_v6_ranges(tv.skip(i as int)),
            all_wf(v4@),
            all_wf(v6@),
        decreases ips@.len() - i,
    {
        proof {
            assert(tv.skip(i as int)[0] == tv[i as int]);
            assert(tv[i as int] == ips@[i as int]@);
            assert(tv.skip(i as int).drop_first() =~= tv.skip(i as int + 1));
        }
        let ghost old_v4 = v4@;
        let ghost old_v6 = v6@;
        match parse_ip(ips[i].as_str()) {
            Err(m) => {
                return Err(m);
            },
            Ok(IpRangeUniversal::V4(r)) => {
                v4.push(r);
                proof {
                    assert(r.wf());
                    assert(old_v4 + (seq![r] + spec_v4_ranges(tv.skip(i as int + 1))) =~= v4@
                        + spec_v4_ranges(tv.skip(i as int + 1)));
                    assert(all_wf(v4@)) by {
                        assert forall|k: int| 0 <= k < v4@.len() implies (
                        #[trigger] v4@[k]).wf() by {
                            if k < old_v4.len() {
                                assert(old_v4[k].wf());
                            }
                        }
                    }
                }
            },
            Ok(IpRangeUniversal::V6(r)) => {
                v6.push(r);
                proof {
                    assert(r.wf());
                    assert(old_v6 + (seq![r] + spec_v6_ranges(tv.skip(i as int + 1))) =~= v6@
                        + spec_v6_ranges(tv.skip(i as int + 1)));
                    assert(all_wf(v6@)) by {
                        assert forall|k: int| 0 <= k < v6@.len() implies (
                        #[trigger] v6@[k]).wf() by {
                            if k < old_v6.len() {
                                assert(old_v6[k].wf());
                            }
                        }
                    }
                }
            },
        }
        i += 1;
    }
    proof {
        assert(tv.skip(tv.len() as int) =~= Seq::<Seq<char>>::empty());
        assert(v4@ + Seq::<Range<u32>>::empty() =~= v4@);
        assert(v6@ + Seq::<Range<u128>>::empty() =~= v6@);
    }
    let tcp = match parse_ports(tcp_ports) {
        Ok(v) => v,
        Err(m) => {
            return Err(m);
        },
    };
    let udp = match parse_ports(udp_ports) {
        Ok(v) => v,
        Err(m) => {
            return Err(m);
        },
    };
    let ipv4 = simplify(v4);
    let ipv6 = simplify(v6);
    Ok(OpsConfig { tcp_ports: tcp, udp_ports: udp, ipv4, ipv6, ping, max_rate, max_dev_rate })
}

} // verus!
