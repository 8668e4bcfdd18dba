//! The port-specification parser: a comma-separated list of single ports and
//! port ranges in nmap-compatible format, turned into a canonical set of
//! 16-bit port ranges.

use vstd::prelude::*;
use vstd::string::StrSliceExecFns;
use vstd::string::StringExecFns;

use crate::range::{
    all_wf, canonical, lemma_simplify_props, simplify, spec_range, spec_simplify, Range,
};
use crate::text::{
    find_char, find_first, parse_u16, split_on, split_str, spec_parse_u16, u16_to_string,
    dec_digits, NumError,
};

verus! {

broadcast use crate::range::lemma_spec_range;

/// The message for a port value that does not parse as a 16-bit number.
pub open spec fn port_error_msg(t: Seq<char>, e: NumError) -> Seq<char> {
    "Could not parse port value: \""@ + t + "\" because "@ + e.spec_message()
}

/// The message for a reversed port range.
pub open spec fn port_order_msg(start: u16, end: u16) -> Seq<char> {
    dec_digits(start as int) + " is greater than "@ + dec_digits(end as int)
}

/// One comma-delimited term of a port specification: either a single port,
/// giving a degenerate range, or `N-M` split at the first `-`, rejected when
/// `N` exceeds `M`.
pub open spec fn spec_parse_term(t: Seq<char>) -> Result<Range<u16>, Seq<char>> {
    let i = find_first(t, '-');
    if i < 0 {
        match spec_parse_u16(t) {
            Ok(v) => Ok(spec_range(v, v)),
            Err(e) => Err(port_error_msg(t, e)),
        }
    } else {
        let a = t.take(i);
        let b = t.skip(i + 1);
        match spec_parse_u16(a) {
            Err(e) => Err(port_error_msg(a, e)),
            Ok(start) => match spec_parse_u16(b) {
                Err(e) => Err(port_error_msg(b, e)),
                Ok(end) => if start > end {
                    Err(port_order_msg(start, end))
                } else {
                    Ok(spec_range(start, end))
                },
            },
        }
    }
}

/// All terms parsed in order, stopping at the first failure.
pub open spec fn spec_port_terms(parts: Seq<Seq<char>>) -> Result<Seq<Range<u16>>, Seq<char>>
    decreases parts.len(),
{
    if parts.len() == 0 {
        Ok(Seq::empty())
    } else {
        match spec_parse_term(parts[0]) {
            Err(m) => Err(m),
            Ok(r) => match spec_port_terms(parts.drop_first()) {
                Err(m) => Err(m),
                Ok(rest) => Ok(seq![r] + rest),
            },
        }
    }
}

/// A whole port specification: empty input is the empty set; otherwise the
/// comma-separated terms, canonicalized.
pub open spec fn spec_parse_ports(s: Seq<char>) -> Result<Seq<Range<u16>>, Seq<char>> {
    if s.len() == 0 {
        Ok(Seq::empty())
    } else {
        match spec_port_terms(split_on(s, ',')) {
            Ok(rs) => Ok(spec_simplify(rs)),
            Err(m) => Err(m),
        }
    }
}

/// Every range a successful term parse produces is well formed.
proof fn lemma_terms_wf(parts: Seq<Seq<char>>)
    requires
        spec_port_terms(parts) is Ok,
    ensures
        all_wf(spec_port_terms(parts)->Ok_0),
    decreases parts.len(),
{
    broadcast use crate::range::lemma_spec_range;

    if parts.len() > 0 {
        lemma_terms_wf(parts.drop_first());
    }
}

/// Parses a single port value; the failure message quotes the offending
/// text and the cause.
pub fn parse_port(port: &str) -> (r: Result<u16, String>)
    ensures
        r is Ok <==> spec_parse_u16(port@) is Ok,
        r matches Ok(v) ==> spec_parse_u16(port@) == Ok::<u16, NumError>(v),
        r matches Err(m) ==> spec_parse_u16(port@) matches Err(e) && m@ == port_error_msg(
            port@,
            e,
        ),
{
    match parse_u16(port) {
        Ok(v) => Ok(v),
        Err(e) => {
            let mut m = String::from_str("Could not parse port value: \"");
            m.append(port);
            m.append("\" because ");
            let em = e.message();
            m.append(em.as_str());
            Err(m)
        },
    }
}

/// Parses one term of a port specification into a range.
pub fn parse_range(txt: &str) -> (r: Result<Range<u16>, String>)
    ensures
        r is Ok <==> spec_parse_term(txt@) is Ok,
        r matches Ok(rng) ==> spec_parse_term(txt@) == Ok::<Range<u16>, Seq<char>>(rng)
            && rng.wf(),
        r matches Err(m) ==> spec_parse_term(txt@) matches Err(me) && m@ == me,
{
    broadcast use crate::range::lemma_spec_range;

    proof {
        crate::text::lemma_find_first(txt@, '-');
    }
    match find_char(txt, '-') {
        Some(idx) => {
            let n = txt.unicode_len();
            let a = txt.substring_char(0, idx);
            let b = txt.substring_char(idx + 1, n);
            proof {
                assert(a@ =~= txt@.take(idx as int));
                assert(b@ =~= txt@.skip(idx as int + 1));
            }
            let start = match parse_port(a) {
                Ok(v) => v,
                Err(m) => {
                    return Err(m);
                },
            };
            let end = match parse_port(b) {
                Ok(v) => v,
                Err(m) => {
                    return Err(m);
                },
            };
            if start > end {
                let mut m = u16_to_string(start);
                m.append(" is greater than ");
                let em = u16_to_string(end);
                m.append(em.as_str());
                return Err(m);
            }
            match Range::new(start, end) {
                Ok(rng) => Ok(rng),
                Err(_) => {
                    proof {
                        assert(false);
                    }
                    Err(String::new())
                },
            }
        },
        None => {
            let v = match parse_port(txt) {
                Ok(v) => v,
                Err(m) => {
                    return Err(m);
                },
            };
            match Range::new(v, v) {
                Ok(rng) => Ok(rng),
                Err(_) => {
                    proof {
                        assert(false);
                    }
                    Err(String::new())
                },
            }
        },
    }
}

/// Parses a whole port specification in nmap-compatible format into a
/// canonical set of port ranges: sorted ascending, pairwise
/// non-intersecting, covering exactly the ports the terms name. An empty
/// input yields the empty set; any failing term aborts the whole parse with
/// that term's message.
pub fn parse_ports(txt: &str) -> (r: Result<Vec<Range<u16>>, String>)
    ensures
        r is Ok <==> spec_parse_ports(txt@) is Ok,
        r matches Ok(v) ==> spec_parse_ports(txt@) == Ok::<Seq<Range<u16>>, Seq<char>>(v@)
            && canonical(v@),
        r matches Err(m) ==> spec_parse_ports(txt@) matches Err(me) && m@ == me,
{
    if txt.is_empty() {
        return Ok(Vec::new());
    }
    let parts = split_str(txt, ',');
    let ghost pview = split_on(txt@, ',');
    let mut ranges: Vec<Range<u16>> = Vec::new();
    let mut i: usize = 0;
    proof {
        assert(pview.skip(0) =~= pview);
    }
    while i < parts.len()
        invariant
            i <= parts@.len(),
            txt@.len() != 0,
            pview == split_on(txt@, ','),
            parts@.len() == pview.len(),
            forall|k: int| 0 <= k < parts@.len() ==> (#[trigger] parts@[k])@ == pview[k],
            all_wf(ranges@),
            spec_port_terms(pview) == match spec_port_terms(pview.skip(i as int)) {
                Ok(rest) => Ok::<Seq<Range<u16>>, Seq<char>>(ranges@ + rest),
                Err(m) => Err(m),
            },
        decreases parts@.len() - i,
    {
        proof {
            assert(pview.skip(i as int)[0] == pview[i as int]);
            assert(pview.skip(i as int).drop_first() =~= pview.skip(i as int + 1));
        }
        match parse_range(parts[i].as_str()) {
            Err(m) => {
                return Err(m);
            },
            Ok(rng) => {
                let ghost old_ranges = ranges@;
                ranges.push(rng);
                proof {
                    assert forall|rest: Seq<Range<u16>>| true implies old_ranges + (seq![rng]
                        + rest) == ranges@ + rest by {
                        assert(old_ranges + (seq![rng] + rest) =~= ranges@ + rest);
                    }
                    assert(all_wf(ranges@)) by {
                        assert forall|k: int| 0 <= k < ranges@.len() implies (
                        #[trigger] ranges@[k]).wf() by {
                            if k < old_ranges.len() {
                                assert(old_ranges[k].wf());
                            }
                        }
                    }
                }
            },
        }
        i += 1;
    }
    proof {
        assert(pview.skip(parts@.len() as int) =~= Seq::<Seq<char>>::empty());
        assert(ranges@ + Seq::<Range<u16>>::empty() =~= ranges@);
        lemma_simplify_props(ranges@);
    }
    let out = simplify(ranges);
    Ok(out)
}

/// Reports only whether a port specification parses, with the parse's own
/// message on failure.
pub fn validate_ports(port: String) -> (r: Result<(), String>)
    ensures
        r is Ok <==> spec_parse_ports(port@) is Ok,
        r matches Err(m) ==> spec_parse_ports(port@) matches Err(me) && m@ == me,
{
    match parse_ports(port.as_str()) {
        Ok(_) => Ok(()),
        Err(descr) => Err(descr),
    }
}

} // verus!
