//! The capability materializer: the single pass, run once after resolution
//! completes and before the guest's first network operation, that turns the
//! soundly pre-authorizable subset of a policy into static socket grants.
//!
//! Only a rule whose scheme is `Any` (no HTTP-specific semantics required)
//! and whose host is a CIDR is pre-authorized: its address space is fixed and
//! does not depend on a runtime DNS outcome. Domain-pattern or
//! scheme-specific rules are deliberately left to the request-time check;
//! pre-authorizing a domain rule would grant access to arbitrary addresses
//! behind a matching name. `All` materializes as one grant covering the
//! whole address space and every port.

use vstd::prelude::*;
use crate::evaluate::{any_rule_matches, evaluate_spec, in_cidr, rule_matches};
use crate::rule::{
    AllowedHostsConfig, AttemptHostV, AttemptV, HostV, Ipv4Cidr, PolicyV, PortConfig, RuleV,
    SchemeConfig, SchemeV, SocketGrant, HostConfig, rules_view,
};

verus! {

/// Which rules may soundly be pre-authorized as static grants.
pub open spec fn pre_authorizable(r: RuleV) -> bool {
    r.scheme is Any && r.host is Cidr
}

/// The inclusive port range a rule's port configuration covers.
pub open spec fn grant_ports(p: PortConfig) -> (u16, u16) {
    match p {
        PortConfig::Any => (0u16, 65535u16),
        PortConfig::Single(q) => (q, q),
        PortConfig::Range(lo, hi) => (lo, hi),
    }
}

/// The grant a pre-authorizable rule materializes as.
pub open spec fn grant_of(r: RuleV) -> SocketGrant
    recommends
        pre_authorizable(r),
{
    match r.host {
        HostV::Cidr(c) => SocketGrant {
            network: c,
            port_lo: grant_ports(r.port).0,
            port_hi: grant_ports(r.port).1,
        },
        HostV::DomainPattern(_) => SocketGrant {
            network: Ipv4Cidr { addr: 0, prefix: 32 },
            port_lo: 0,
            port_hi: 0,
        },
    }
}

/// The grants of a rule list, in rule order: one grant for each
/// pre-authorizable rule, none for any other.
pub open spec fn materialize_rules(rs: Seq<RuleV>) -> Seq<SocketGrant>
    decreases rs.len(),
{
    if rs.len() == 0 {
        Seq::empty()
    } else {
        materialize_rules(rs.drop_last()) + (if pre_authorizable(rs.last()) {
            seq![grant_of(rs.last())]
        } else {
            Seq::empty()
        })
    }
}

/// What a policy materializes as: `All` becomes the one grant covering the
/// whole address space and every port; a rule list becomes the grants of its
/// pre-authorizable rules.
pub open spec fn materialize_spec(pol: PolicyV) -> Seq<SocketGrant> {
    match pol {
        PolicyV::All => seq![
            SocketGrant { network: Ipv4Cidr { addr: 0, prefix: 0 }, port_lo: 0, port_hi: 65535 },
        ],
        PolicyV::SpecificHosts(rs) => materialize_rules(rs),
    }
}

/// A scheme-`Any`, CIDR-host rule materializes as exactly one grant, whose
/// network and port range equal the rule's.
pub proof fn lemma_materialize_cidr_rule(r: RuleV)
    requires
        r.scheme is Any,
        r.host is Cidr,
    ensures
        materialize_spec(PolicyV::SpecificHosts(seq![r])) == seq![
            SocketGrant {
                network: r.host->Cidr_0,
                port_lo: grant_ports(r.port).0,
                port_hi: grant_ports(r.port).1,
            },
        ],
{
    let rs = seq![r];
    assert(rs.drop_last() =~= Seq::<RuleV>::empty());
    assert(rs.last() == r);
    assert(materialize_rules(Seq::<RuleV>::empty()) == Seq::<SocketGrant>::empty());
    assert(materialize_rules(rs) =~= seq![grant_of(r)]);
}

/// A domain-pattern or scheme-specific rule is not pre-materialized: no
/// grant is emitted for it, and its enforcement stays at request time.
pub proof fn lemma_materialize_deferred_rule(r: RuleV)
    requires
        !(r.scheme is Any && r.host is Cidr),
    ensures
        materialize_spec(PolicyV::SpecificHosts(seq![r])) == Seq::<SocketGrant>::empty(),
{
    let rs = seq![r];
    assert(rs.drop_last() =~= Seq::<RuleV>::empty());
    assert(rs.last() == r);
    assert(materialize_rules(Seq::<RuleV>::empty()) == Seq::<SocketGrant>::empty());
    assert(materialize_rules(rs) =~= Seq::<SocketGrant>::empty());
}

/// Every emitted grant comes from a pre-authorizable rule of the list.
proof fn lemma_grant_has_a_rule(rs: Seq<RuleV>, g: SocketGrant)
    requires
        materialize_rules(rs).contains(g),
    ensures
        exists|i: int|
            0 <= i < rs.len() && pre_authorizable(#[trigger] rs[i]) && g == grant_of(rs[i]),
    decreases rs.len(),
{
    let m = materialize_rules(rs);
    let k = choose|k: int| 0 <= k < m.len() && m[k] == g;
    if rs.len() == 0 {
        assert(m.len() == 0);
    } else {
        let left = materialize_rules(rs.drop_last());
        if k < left.len() {
            assert(left[k] == g);
            assert(left.contains(g));
            lemma_grant_has_a_rule(rs.drop_last(), g);
            let i = choose|i: int|
                0 <= i < rs.drop_last().len() && pre_authorizable(#[trigger] rs.drop_last()[i])
                    && g == grant_of(rs.drop_last()[i]);
            assert(rs.drop_last()[i] == rs[i]);
            assert(pre_authorizable(rs[i]) && g == grant_of(rs[i]));
        } else {
            assert(pre_authorizable(rs.last()) && g == grant_of(rs.last()));
            assert(rs.last() == rs[rs.len() - 1]);
            assert(pre_authorizable(rs[rs.len() - 1]) && g == grant_of(rs[rs.len() - 1]));
        }
    }
}

/// Pre-authorization is sound: an IP attempt that an emitted grant covers is
/// one the policy itself admits — installing the grants ahead of time never
/// allows more than the request-time check would.
pub proof fn lemma_grants_sound(pol: PolicyV, a: AttemptV, g: SocketGrant)
    requires
        materialize_spec(pol).contains(g),
        a.host matches AttemptHostV::Ip(ip) && in_cidr(g.network, ip),
        g.port_lo <= a.port <= g.port_hi,
    ensures
        evaluate_spec(pol, a),
{
    match pol {
        PolicyV::All => {},
        PolicyV::SpecificHosts(rs) => {
            lemma_grant_has_a_rule(rs, g);
            let i = choose|i: int|
                0 <= i < rs.len() && pre_authorizable(#[trigger] rs[i]) && g == grant_of(rs[i]);
            assert(rule_matches(rs[i], a)) by {
                match rs[i].port {
                    PortConfig::Any => {},
                    PortConfig::Single(q) => {
                        assert(g.port_lo == q && g.port_hi == q);
                    },
                    PortConfig::Range(lo, hi) => {
                        assert(g.port_lo == lo && g.port_hi == hi);
                    },
                }
            }
            assert(any_rule_matches(rs, a));
        },
    }
}

/// Walks a resolved policy and returns the socket grants to install, in rule
/// order: exactly `materialize_spec(policy@)`.
pub fn materialize(policy: &AllowedHostsConfig) -> (g: Vec<SocketGrant>)
    ensures
        g@ == materialize_spec(policy@),
{
    match policy {
        AllowedHostsConfig::All => {
            let mut g: Vec<SocketGrant> = Vec::new();
            g.push(SocketGrant {
                network: Ipv4Cidr { addr: 0, prefix: 0 },
                port_lo: 0,
                port_hi: 65535,
            });
            proof {
                assert(g@ =~= materialize_spec(policy@));
            }
            g
        },
        AllowedHostsConfig::SpecificHosts(rules) => {
            let n = rules.len();
            let mut g: Vec<SocketGrant> = Vec::new();
            let mut i: usize = 0;
            while i < n
                invariant
                    n == rules@.len(),
                    i <= n,
                    policy@ == PolicyV::SpecificHosts(rules_view(rules@)),
                    g@ == materialize_rules(rules_view(rules@).take(i as int)),
                decreases n - i,
            {
                let r = &rules[i];
                proof {
                    assert(rules_view(rules@)[i as int] == rules@[i as int]@);
                    assert(rules_view(rules@).take(i as int + 1).drop_last() =~= rules_view(
                        rules@,
                    ).take(i as int));
                    assert(rules_view(rules@).take(i as int + 1).last() == rules_view(rules@)[
                        i as int
                    ]);
                }
                match (&r.scheme, &r.host) {
                    (SchemeConfig::Any, HostConfig::Cidr(c)) => {
                        let (lo, hi): (u16, u16) = match r.port {
                            PortConfig::Any => (0, 65535),
                            PortConfig::Single(q) => (q, q),
                            PortConfig::Range(a, b) => (a, b),
                        };
                        g.push(SocketGrant { network: *c, port_lo: lo, port_hi: hi });
                        proof {
                            assert(g@ =~= materialize_rules(
                                rules_view(rules@).take(i as int + 1),
                            ));
                        }
                    },
                    _ => {
                        proof {
                            assert(g@ =~= materialize_rules(
                                rules_view(rules@).take(i as int + 1),
                            ));
                        }
                    },
                }
                i += 1;
            }
            proof {
                assert(rules_view(rules@).take(n as int) =~= rules_view(rules@));
            }
            g
        },
    }
}

} // verus!
