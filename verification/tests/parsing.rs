use outbound_networking::canonical::serialize;
use outbound_networking::parse::parse;
use outbound_networking::rule::{
    HostConfig, Ipv4Cidr, OutboundAllowRule, ParseErrorKind, PortConfig, SchemeConfig,
};

fn ok(rule: &[u8]) -> OutboundAllowRule {
    parse(rule).expect("rule should parse")
}

fn err_kind(rule: &[u8]) -> ParseErrorKind {
    let e = parse(rule).expect_err("rule should be rejected");
    assert_eq!(e.rule, rule.to_vec(), "the error names the offending rule");
    e.kind
}

#[test]
fn parses_wildcard_scheme_cidr_and_any_port() {
    let r = ok(b"*://10.0.0.0/8:*");
    assert_eq!(r.scheme, SchemeConfig::Any);
    assert_eq!(r.host, HostConfig::Cidr(Ipv4Cidr { addr: 167_772_160, prefix: 8 }));
    assert_eq!(r.port, PortConfig::Any);
}

#[test]
fn parses_https_domain_pattern_with_port() {
    let r = ok(b"https://*.example.com:443");
    assert_eq!(r.scheme, SchemeConfig::OneOf(vec![b"https".to_vec()]));
    assert_eq!(r.host, HostConfig::DomainPattern(b"*.example.com".to_vec()));
    assert_eq!(r.port, PortConfig::Single(443));
}

#[test]
fn parses_port_range() {
    let r = ok(b"https://example.com:8000-8100");
    assert_eq!(r.port, PortConfig::Range(8000, 8100));
    assert_eq!(r.host, HostConfig::DomainPattern(b"example.com".to_vec()));
}

#[test]
fn absent_port_means_any() {
    let r = ok(b"https://example.com");
    assert_eq!(r.port, PortConfig::Any);
}

#[test]
fn bare_ip_literal_is_a_full_length_cidr() {
    let r = ok(b"https://1.2.3.4");
    assert_eq!(r.host, HostConfig::Cidr(Ipv4Cidr { addr: 16_909_060, prefix: 32 }));
}

#[test]
fn bare_star_host_is_the_whole_address_space() {
    let r = ok(b"*://*:*");
    assert_eq!(r.scheme, SchemeConfig::Any);
    assert_eq!(r.host, HostConfig::Cidr(Ipv4Cidr { addr: 0, prefix: 0 }));
    assert_eq!(r.port, PortConfig::Any);
}

#[test]
fn largest_single_port_parses() {
    let r = ok(b"*://*:65535");
    assert_eq!(r.port, PortConfig::Single(65535));
}

#[test]
fn missing_separator_is_rejected() {
    assert_eq!(err_kind(b"example.com"), ParseErrorKind::MissingSeparator);
}

#[test]
fn bad_scheme_token_is_rejected() {
    assert_eq!(err_kind(b"ht tp://example.com"), ParseErrorKind::Scheme);
    assert_eq!(err_kind(b"://example.com"), ParseErrorKind::Scheme);
}

#[test]
fn empty_host_is_rejected() {
    assert_eq!(err_kind(b"http://"), ParseErrorKind::Host);
    assert_eq!(err_kind(b"http://:80"), ParseErrorKind::Host);
}

#[test]
fn malformed_cidr_prefix_is_rejected() {
    assert_eq!(err_kind(b"*://1.2.3.4/99"), ParseErrorKind::Cidr);
    assert_eq!(err_kind(b"*://1.2.3.4/x"), ParseErrorKind::Cidr);
}

#[test]
fn bad_ports_are_rejected() {
    assert_eq!(err_kind(b"http://example.com:99999"), ParseErrorKind::Port);
    assert_eq!(err_kind(b"http://example.com:80-20"), ParseErrorKind::Port);
    assert_eq!(err_kind(b"http://example.com:8o"), ParseErrorKind::Port);
    assert_eq!(err_kind(b"http://example.com:"), ParseErrorKind::Port);
}

#[test]
fn round_trip_preserves_the_structured_rule() {
    for rule in [
        b"*://10.0.0.0/8:*".as_slice(),
        b"https://*.example.com:443",
        b"https://example.com:8000-8100",
        b"*://*:*",
        b"wss://example.com",
        b"https://1.2.3.4",
    ] {
        let parsed = ok(rule);
        let canonical = serialize(&parsed);
        let reparsed = parse(canonical.as_slice()).expect("canonical text should parse");
        assert_eq!(parsed, reparsed, "round trip of {:?}", String::from_utf8_lossy(rule));
    }
}

#[test]
fn leading_zeros_are_read_as_decimal() {
    let r = ok(b"http://example.com:080");
    assert_eq!(r.port, PortConfig::Single(80));
    let r = ok(b"*://010.0.0.1");
    assert_eq!(r.host, HostConfig::Cidr(Ipv4Cidr { addr: 167_772_161, prefix: 32 }));
}

#[test]
fn host_that_is_no_ip_literal_is_a_domain_pattern() {
    // four octets are required for an IP literal
    let r = ok(b"https://10.0.0:80");
    assert_eq!(r.host, HostConfig::DomainPattern(b"10.0.0".to_vec()));
    let r = ok(b"https://1.2.3.4.5:80");
    assert_eq!(r.host, HostConfig::DomainPattern(b"1.2.3.4.5".to_vec()));
}

#[test]
fn serialize_writes_the_canonical_form() {
    assert_eq!(serialize(&ok(b"*://10.0.0.0/8")), b"*://10.0.0.0/8:*".to_vec());
    assert_eq!(serialize(&ok(b"https://example.com:443")), b"https://example.com:443".to_vec());
    assert_eq!(serialize(&ok(b"*://*:*")), b"*://0.0.0.0/0:*".to_vec());
    assert_eq!(
        serialize(&ok(b"https://example.com:8000-8100")),
        b"https://example.com:8000-8100".to_vec()
    );
}
