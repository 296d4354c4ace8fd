use outbound_networking::evaluate::{check, check_outcome, evaluate};
use outbound_networking::materialize::materialize;
use outbound_networking::parse::parse;
use outbound_networking::rule::{
    AllowedHostsConfig, AttemptHost, HostConfig, Ipv4Cidr, OutboundAllowRule, OutboundAttempt,
    ParseError, ParseErrorKind, PortConfig, ResolveError, SchemeConfig, SocketGrant,
};

fn policy_of(rules: &[&[u8]]) -> AllowedHostsConfig {
    AllowedHostsConfig::SpecificHosts(
        rules.iter().map(|r| parse(r).expect("rule should parse")).collect(),
    )
}

fn attempt(scheme: &[u8], host: AttemptHost, port: u16) -> OutboundAttempt {
    OutboundAttempt { scheme: scheme.to_vec(), host, port }
}

fn name(h: &[u8]) -> AttemptHost {
    AttemptHost::Name(h.to_vec())
}

#[test]
fn all_admits_every_attempt() {
    let p = AllowedHostsConfig::All;
    assert!(evaluate(&p, &attempt(b"https", name(b"example.com"), 443)));
    assert!(evaluate(&p, &attempt(b"raw", AttemptHost::Ip(167_838_211), 9)));
    assert!(evaluate(&p, &attempt(b"", name(b""), 0)));
}

#[test]
fn empty_rule_list_denies_every_attempt() {
    let p = AllowedHostsConfig::SpecificHosts(vec![]);
    assert!(!evaluate(&p, &attempt(b"https", name(b"example.com"), 443)));
    assert!(!evaluate(&p, &attempt(b"raw", AttemptHost::Ip(167_838_211), 9)));
    let denied = check(&p, attempt(b"https", name(b"example.com"), 443)).unwrap_err();
    assert_eq!(denied.attempt, attempt(b"https", name(b"example.com"), 443));
}

#[test]
fn wildcard_domain_admits_strict_subdomains_only() {
    // rule "https://*.example.com:443"
    let p = policy_of(&[b"https://*.example.com:443"]);
    assert!(evaluate(&p, &attempt(b"https", name(b"api.example.com"), 443)));
    // the bare domain is not a strict subdomain: denied by this engine
    assert!(!evaluate(&p, &attempt(b"https", name(b"example.com"), 443)));
    // and the wildcard is no substring match
    assert!(!evaluate(&p, &attempt(b"https", name(b"evil-example.com"), 443)));
    assert!(!evaluate(&p, &attempt(b"http", name(b"api.example.com"), 443)));
    assert!(!evaluate(&p, &attempt(b"https", name(b"api.example.com"), 8443)));
}

#[test]
fn cidr_rule_admits_member_ips_on_any_scheme_and_port() {
    // rule "*://10.0.0.0/8:*"
    let p = policy_of(&[b"*://10.0.0.0/8:*"]);
    // 10.1.2.3
    assert!(evaluate(&p, &attempt(b"raw", AttemptHost::Ip(167_838_211), 9000)));
    // 11.0.0.1 lies outside 10.0.0.0/8
    assert!(!evaluate(&p, &attempt(b"raw", AttemptHost::Ip(184_549_377), 9000)));
    // a named attempt never matches a CIDR rule
    assert!(!evaluate(&p, &attempt(b"raw", name(b"10.1.2.3"), 9000)));
}

#[test]
fn port_range_bounds_are_inclusive() {
    // rule "https://example.com:8000-8100"
    let p = policy_of(&[b"https://example.com:8000-8100"]);
    assert!(evaluate(&p, &attempt(b"https", name(b"example.com"), 8050)));
    assert!(evaluate(&p, &attempt(b"https", name(b"example.com"), 8000)));
    assert!(evaluate(&p, &attempt(b"https", name(b"example.com"), 8100)));
    assert!(!evaluate(&p, &attempt(b"https", name(b"example.com"), 9000)));
    assert!(!evaluate(&p, &attempt(b"https", name(b"example.com"), 7999)));
}

#[test]
fn exact_domain_rule_admits_only_that_name() {
    let p = policy_of(&[b"https://example.com:443"]);
    assert!(evaluate(&p, &attempt(b"https", name(b"example.com"), 443)));
    assert!(!evaluate(&p, &attempt(b"https", name(b"api.example.com"), 443)));
    // an IP attempt never matches a domain rule
    assert!(!evaluate(&p, &attempt(b"https", AttemptHost::Ip(16_909_060), 443)));
}

#[test]
fn one_of_matches_by_exact_scheme_equality() {
    let p = AllowedHostsConfig::SpecificHosts(vec![OutboundAllowRule {
        scheme: SchemeConfig::OneOf(vec![b"http".to_vec(), b"https".to_vec()]),
        host: HostConfig::DomainPattern(b"example.com".to_vec()),
        port: PortConfig::Any,
    }]);
    assert!(evaluate(&p, &attempt(b"http", name(b"example.com"), 80)));
    assert!(evaluate(&p, &attempt(b"https", name(b"example.com"), 443)));
    assert!(!evaluate(&p, &attempt(b"ftp", name(b"example.com"), 21)));
    assert!(!evaluate(&p, &attempt(b"htt", name(b"example.com"), 80)));
}

#[test]
fn first_matching_rule_admits() {
    let p = policy_of(&[b"http://one.test:80", b"https://two.test:443"]);
    assert!(evaluate(&p, &attempt(b"https", name(b"two.test"), 443)));
    assert!(evaluate(&p, &attempt(b"http", name(b"one.test"), 80)));
    assert!(!evaluate(&p, &attempt(b"https", name(b"one.test"), 80)));
}

#[test]
fn materializes_exactly_one_grant_per_cidr_any_scheme_rule() {
    let p = policy_of(&[b"*://10.0.0.0/8:*"]);
    let grants = materialize(&p);
    assert_eq!(
        grants,
        vec![SocketGrant {
            network: Ipv4Cidr { addr: 167_772_160, prefix: 8 },
            port_lo: 0,
            port_hi: 65535,
        }]
    );
}

#[test]
fn materializes_the_rule_port_range() {
    let p = policy_of(&[b"*://10.0.0.0/8:443", b"*://192.168.0.0/16:8000-8100"]);
    let grants = materialize(&p);
    assert_eq!(
        grants,
        vec![
            SocketGrant {
                network: Ipv4Cidr { addr: 167_772_160, prefix: 8 },
                port_lo: 443,
                port_hi: 443,
            },
            SocketGrant {
                network: Ipv4Cidr { addr: 3_232_235_520, prefix: 16 },
                port_lo: 8000,
                port_hi: 8100,
            },
        ]
    );
}

#[test]
fn domain_or_scheme_specific_rules_emit_no_grant() {
    // neither a domain pattern nor a scheme-specific CIDR is pre-authorized
    let p = policy_of(&[b"https://*.example.com:443", b"https://10.0.0.0/8:443"]);
    assert_eq!(materialize(&p), vec![]);
    // enforcement stays at request time
    assert!(evaluate(&p, &attempt(b"https", name(b"api.example.com"), 443)));
    assert!(evaluate(&p, &attempt(b"https", AttemptHost::Ip(167_838_211), 443)));
    assert!(!evaluate(&p, &attempt(b"http", AttemptHost::Ip(167_838_211), 443)));
}

#[test]
fn allow_all_materializes_as_the_unrestricted_grant() {
    let grants = materialize(&AllowedHostsConfig::All);
    assert_eq!(
        grants,
        vec![SocketGrant {
            network: Ipv4Cidr { addr: 0, prefix: 0 },
            port_lo: 0,
            port_hi: 65535,
        }]
    );
}

#[test]
fn check_outcome_fails_closed_on_a_failed_resolution() {
    let outcome: Result<AllowedHostsConfig, ResolveError> = Err(ResolveError::Parse(ParseError {
        rule: b"nonsense".to_vec(),
        kind: ParseErrorKind::MissingSeparator,
    }));
    let a = attempt(b"https", name(b"example.com"), 443);
    let denied = check_outcome(&outcome, a.clone()).unwrap_err();
    assert_eq!(denied.attempt, a);
}

#[test]
fn check_outcome_consults_a_resolved_policy() {
    let outcome: Result<AllowedHostsConfig, ResolveError> =
        Ok(policy_of(&[b"https://example.com:443"]));
    assert!(check_outcome(&outcome, attempt(b"https", name(b"example.com"), 443)).is_ok());
    assert!(check_outcome(&outcome, attempt(b"https", name(b"other.test"), 443)).is_err());
}
