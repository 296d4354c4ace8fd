//! Request-time evaluation of outbound attempts against a resolved policy.
//!
//! The policy is allow-only and closed-world: `All` admits everything, and
//! `SpecificHosts` admits an attempt exactly when at least one rule matches
//! its scheme, host and port. An empty rule list denies every attempt, and a
//! missing or failed policy fails closed.

use vstd::prelude::*;
use vstd::slice::slice_subrange;
use crate::parse::bytes_eq;
use crate::rule::{
    AllowedHostsConfig, AttemptHost, AttemptHostV, AttemptV, Denied, HostConfig, HostV, Ipv4Cidr,
    OutboundAllowRule, OutboundAttempt, PolicyV, PortConfig, ResolveError, RuleV, SchemeConfig,
    SchemeV, rules_view,
};

verus! {

/// IPv4 membership: the first `prefix` bits of `ip` equal those of the
/// network address. A zero prefix admits every address.
pub open spec fn in_cidr(c: Ipv4Cidr, ip: u32) -> bool {
    if c.prefix == 0 {
        true
    } else if c.prefix >= 32 {
        c.addr == ip
    } else {
        c.addr >> ((32 - c.prefix) as u32) == ip >> ((32 - c.prefix) as u32)
    }
}

/// A `*.`-prefixed pattern admits exactly the strict subdomains of its
/// suffix (`*.example.com` admits `api.example.com`, not `example.com`); any
/// other pattern admits exactly the equal host name.
pub open spec fn domain_matches(p: Seq<u8>, h: Seq<u8>) -> bool {
    if p.len() >= 2 && p[0] == 42 && p[1] == 46 {
        let suf = p.skip(1);
        h.len() > suf.len() && h.skip(h.len() - suf.len()) == suf
    } else {
        h == p
    }
}

/// Whether `s` is one of the names in `names`.
pub open spec fn scheme_listed(names: Seq<Seq<u8>>, s: Seq<u8>) -> bool {
    exists|i: int| 0 <= i < names.len() && (#[trigger] names[i]) == s
}

pub open spec fn scheme_matches(c: SchemeV, s: Seq<u8>) -> bool {
    match c {
        SchemeV::Any => true,
        SchemeV::OneOf(names) => scheme_listed(names, s),
    }
}

/// CIDR rules admit only already-resolved IP attempts; domain rules admit
/// only named attempts: IP attempts never match a domain pattern and vice
/// versa.
pub open spec fn host_matches(h: HostV, a: AttemptHostV) -> bool {
    match (h, a) {
        (HostV::Cidr(c), AttemptHostV::Ip(ip)) => in_cidr(c, ip),
        (HostV::DomainPattern(p), AttemptHostV::Name(n)) => domain_matches(p, n),
        _ => false,
    }
}

pub open spec fn port_matches(pc: PortConfig, p: u16) -> bool {
    match pc {
        PortConfig::Any => true,
        PortConfig::Single(q) => p == q,
        PortConfig::Range(lo, hi) => lo <= p <= hi,
    }
}

pub open spec fn rule_matches(r: RuleV, a: AttemptV) -> bool {
    scheme_matches(r.scheme, a.scheme) && host_matches(r.host, a.host) && port_matches(
        r.port,
        a.port,
    )
}

/// Whether at least one rule of `rs` matches the attempt.
pub open spec fn any_rule_matches(rs: Seq<RuleV>, a: AttemptV) -> bool {
    exists|i: int| 0 <= i < rs.len() && rule_matches(#[trigger] rs[i], a)
}

/// What a policy answers to an attempt: `All` admits everything;
/// `SpecificHosts` admits exactly the attempts at least one rule matches.
pub open spec fn evaluate_spec(pol: PolicyV, a: AttemptV) -> bool {
    match pol {
        PolicyV::All => true,
        PolicyV::SpecificHosts(rs) => any_rule_matches(rs, a),
    }
}

/// `All` admits every attempt.
pub proof fn lemma_evaluate_all(a: AttemptV)
    ensures
        evaluate_spec(PolicyV::All, a),
{
}

/// An empty rule list denies every attempt: absence of a match is denial.
pub proof fn lemma_evaluate_empty(a: AttemptV)
    ensures
        !evaluate_spec(PolicyV::SpecificHosts(Seq::empty()), a),
{
}

fn ends_with(h: &[u8], suf: &[u8]) -> (r: bool)
    ensures
        r == (h@.len() >= suf@.len() && h@.skip(h@.len() - suf@.len()) == suf@),
{
    let n = h.len();
    if n < suf.len() {
        return false;
    }
    let tail = slice_subrange(h, n - suf.len(), n);
    proof {
        assert(tail@ =~= h@.skip(h@.len() - suf@.len()));
    }
    bytes_eq(tail, suf)
}

fn cidr_contains(c: &Ipv4Cidr, ip: u32) -> (r: bool)
    ensures
        r == in_cidr(*c, ip),
{
    if c.prefix == 0 {
        true
    } else if c.prefix >= 32 {
        c.addr == ip
    } else {
        let sh: u32 = (32 - c.prefix) as u32;
        (c.addr >> sh) == (ip >> sh)
    }
}

fn scheme_match(c: &SchemeConfig, s: &[u8]) -> (r: bool)
    ensures
        r == scheme_matches(c@, s@),
{
    match c {
        SchemeConfig::Any => true,
        SchemeConfig::OneOf(names) => {
            let n = names.len();
            let mut i: usize = 0;
            while i < n
                invariant
                    n == names@.len(),
                    i <= n,
                    c@ == SchemeV::OneOf(names.deep_view()),
                    forall|j: int| 0 <= j < i ==> #[trigger] names.deep_view()[j] != s@,
                decreases n - i,
            {
                let eq = bytes_eq(names[i].as_slice(), s);
                proof {
                    assert(names@[i as int].deep_view() =~= names@[i as int]@);
                }
                if eq {
                    proof {
                        assert(names.deep_view()[i as int] == s@);
                        assert(scheme_listed(names.deep_view(), s@));
                    }
                    return true;
                }
                i += 1;
            }
            false
        },
    }
}

fn host_match(h: &HostConfig, a: &AttemptHost) -> (r: bool)
    ensures
        r == host_matches(h@, a@),
{
    match (h, a) {
        (HostConfig::Cidr(c), AttemptHost::Ip(ip)) => cidr_contains(c, *ip),
        (HostConfig::DomainPattern(p), AttemptHost::Name(nm)) => {
            if p.len() >= 2 && p[0] == 42 && p[1] == 46 {
                let suf = slice_subrange(p.as_slice(), 1, p.len());
                proof {
                    assert(suf@ =~= p@.skip(1));
                }
                nm.len() > suf.len() && ends_with(nm.as_slice(), suf)
            } else {
                bytes_eq(nm.as_slice(), p.as_slice())
            }
        },
        _ => false,
    }
}

fn port_match(pc: &PortConfig, p: u16) -> (r: bool)
    ensures
        r == port_matches(*pc, p),
{
    match pc {
        PortConfig::Any => true,
        PortConfig::Single(q) => p == *q,
        PortConfig::Range(lo, hi) => *lo <= p && p <= *hi,
    }
}

fn rule_allows(r: &OutboundAllowRule, a: &OutboundAttempt) -> (b: bool)
    ensures
        b == rule_matches(r@, a@),
{
    scheme_match(&r.scheme, a.scheme.as_slice()) && host_match(&r.host, &a.host) && port_match(
        &r.port,
        a.port,
    )
}

/// Answers whether the policy admits the attempt: exactly
/// `evaluate_spec(policy@, attempt@)`.
pub fn evaluate(policy: &AllowedHostsConfig, attempt: &OutboundAttempt) -> (r: bool)
    ensures
        r == evaluate_spec(policy@, attempt@),
{
    match policy {
        AllowedHostsConfig::All => true,
        AllowedHostsConfig::SpecificHosts(rules) => {
            let n = rules.len();
            let mut i: usize = 0;
            while i < n
                invariant
                    n == rules@.len(),
                    i <= n,
                    policy@ == PolicyV::SpecificHosts(rules_view(rules@)),
                    forall|j: int| 0 <= j < i ==> !rule_matches(
                        #[trigger] rules_view(rules@)[j],
                        attempt@,
                    ),
                decreases n - i,
            {
                if rule_allows(&rules[i], attempt) {
                    proof {
                        assert(rule_matches(rules_view(rules@)[i as int], attempt@));
                        assert(any_rule_matches(rules_view(rules@), attempt@));
                    }
                    return true;
                }
                proof {
                    assert(rules_view(rules@)[i as int] == rules@[i as int]@);
                }
                i += 1;
            }
            false
        },
    }
}

/// The request-time check on the control path of every outbound operation:
/// `Ok` exactly when the policy admits the attempt, else `Denied` carrying
/// the attempt. Denial is the expected outcome of a disallowed attempt, not
/// an engine fault.
pub fn check(policy: &AllowedHostsConfig, attempt: OutboundAttempt) -> (r: Result<(), Denied>)
    ensures
        r is Ok == evaluate_spec(policy@, attempt@),
        r matches Err(d) ==> d.attempt@ == attempt@,
{
    if evaluate(policy, &attempt) {
        Ok(())
    } else {
        Err(Denied { attempt })
    }
}

/// The request-time check against a resolution outcome. A failed resolution
/// fails closed: every attempt is denied, whatever it is.
pub fn check_outcome(
    outcome: &Result<AllowedHostsConfig, ResolveError>,
    attempt: OutboundAttempt,
) -> (r: Result<(), Denied>)
    ensures
        r is Ok == (outcome matches Ok(p) && evaluate_spec(p@, attempt@)),
        r matches Err(d) ==> d.attempt@ == attempt@,
{
    match outcome {
        Ok(p) => check(p, attempt),
        Err(_) => Err(Denied { attempt }),
    }
}

} // verus!
