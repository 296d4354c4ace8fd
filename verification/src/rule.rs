//! The structured policy model: schemes, hosts, ports, rules, policies,
//! outbound attempts, socket grants, and the engine's error types, together
//! with their mathematical views.

use vstd::prelude::*;

verus! {

/// An IPv4 network in CIDR notation: a 32-bit address and a prefix length.
/// Well-formed when `prefix <= 32`.
#[derive(Clone, Copy, Debug, PartialEq, Eq, Structural)]
pub struct Ipv4Cidr {
    pub addr: u32,
    pub prefix: u8,
}

pub open spec fn cidr_wf(c: Ipv4Cidr) -> bool {
    c.prefix <= 32
}

/// The scheme part of a rule: `Any` (written `*`) is scheme-agnostic and also
/// authorizes raw socket use; `OneOf` holds the admitted scheme names.
#[derive(Clone, Debug, PartialEq, Eq)]
pub enum SchemeConfig {
    Any,
    OneOf(Vec<Vec<u8>>),
}

pub enum SchemeV {
    Any,
    OneOf(Seq<Seq<u8>>),
}

impl View for SchemeConfig {
    type V = SchemeV;

    open spec fn view(&self) -> SchemeV {
        match self {
            SchemeConfig::Any => SchemeV::Any,
            SchemeConfig::OneOf(names) => SchemeV::OneOf(names.deep_view()),
        }
    }
}

/// The host part of a rule: either a fixed IPv4 address space, or a domain
/// pattern (a host name, optionally `*.`-prefixed to mean "any strict
/// subdomain of").
#[derive(Clone, Debug, PartialEq, Eq)]
pub enum HostConfig {
    Cidr(Ipv4Cidr),
    DomainPattern(Vec<u8>),
}

pub enum HostV {
    Cidr(Ipv4Cidr),
    DomainPattern(Seq<u8>),
}

impl View for HostConfig {
    type V = HostV;

    open spec fn view(&self) -> HostV {
        match self {
            HostConfig::Cidr(c) => HostV::Cidr(*c),
            HostConfig::DomainPattern(p) => HostV::DomainPattern(p@),
        }
    }
}

/// The port part of a rule. Well-formed when a `Range` is not inverted.
#[derive(Clone, Copy, Debug, PartialEq, Eq, Structural)]
pub enum PortConfig {
    Any,
    Single(u16),
    Range(u16, u16),
}

pub open spec fn port_wf(p: PortConfig) -> bool {
    match p {
        PortConfig::Range(lo, hi) => lo <= hi,
        _ => true,
    }
}

/// One declared outbound-destination permission.
#[derive(Clone, Debug, PartialEq, Eq)]
pub struct OutboundAllowRule {
    pub scheme: SchemeConfig,
    pub host: HostConfig,
    pub port: PortConfig,
}

pub struct RuleV {
    pub scheme: SchemeV,
    pub host: HostV,
    pub port: PortConfig,
}

impl View for OutboundAllowRule {
    type V = RuleV;

    open spec fn view(&self) -> RuleV {
        RuleV { scheme: self.scheme@, host: self.host@, port: self.port }
    }
}

pub open spec fn rules_view(rs: Seq<OutboundAllowRule>) -> Seq<RuleV> {
    rs.map_values(|r: OutboundAllowRule| r@)
}

/// A component's resolved policy: allow everything, or exactly the given
/// rules (an empty list denies every attempt).
#[derive(Clone, Debug, PartialEq, Eq)]
pub enum AllowedHostsConfig {
    All,
    SpecificHosts(Vec<OutboundAllowRule>),
}

pub enum PolicyV {
    All,
    SpecificHosts(Seq<RuleV>),
}

impl View for AllowedHostsConfig {
    type V = PolicyV;

    open spec fn view(&self) -> PolicyV {
        match self {
            AllowedHostsConfig::All => PolicyV::All,
            AllowedHostsConfig::SpecificHosts(rs) => PolicyV::SpecificHosts(rules_view(rs@)),
        }
    }
}

/// The destination of an outbound connection attempt, as known at request
/// time: either an already-resolved IPv4 address or a host name.
#[derive(Clone, Debug, PartialEq, Eq)]
pub enum AttemptHost {
    Ip(u32),
    Name(Vec<u8>),
}

pub enum AttemptHostV {
    Ip(u32),
    Name(Seq<u8>),
}

impl View for AttemptHost {
    type V = AttemptHostV;

    open spec fn view(&self) -> AttemptHostV {
        match self {
            AttemptHost::Ip(ip) => AttemptHostV::Ip(*ip),
            AttemptHost::Name(n) => AttemptHostV::Name(n@),
        }
    }
}

/// An outbound connection attempt to be judged against a policy.
#[derive(Clone, Debug, PartialEq, Eq)]
pub struct OutboundAttempt {
    pub scheme: Vec<u8>,
    pub host: AttemptHost,
    pub port: u16,
}

pub struct AttemptV {
    pub scheme: Seq<u8>,
    pub host: AttemptHostV,
    pub port: u16,
}

impl View for OutboundAttempt {
    type V = AttemptV;

    open spec fn view(&self) -> AttemptV {
        AttemptV { scheme: self.scheme@, host: self.host@, port: self.port }
    }
}

/// A static socket-level permission handed to the sandbox before guest code
/// runs: an IPv4 space plus an inclusive port range.
#[derive(Clone, Copy, Debug, PartialEq, Eq, Structural)]
pub struct SocketGrant {
    pub network: Ipv4Cidr,
    pub port_lo: u16,
    pub port_hi: u16,
}

/// The sub-grammar a malformed rule violated.
#[derive(Clone, Copy, Debug, PartialEq, Eq, Structural)]
pub enum ParseErrorKind {
    /// No `://` separator.
    MissingSeparator,
    /// Empty scheme, or a scheme token with a character outside the scheme
    /// alphabet.
    Scheme,
    /// Empty host.
    Host,
    /// A host that is an IP literal followed by a malformed prefix length.
    Cidr,
    /// Non-numeric, out-of-range, or inverted port.
    Port,
    /// A `{{` variable template with no closing `}}`.
    Template,
}

/// A malformed rule, naming the offending rule text and the violated
/// sub-grammar.
#[derive(Clone, Debug, PartialEq, Eq)]
pub struct ParseError {
    pub rule: Vec<u8>,
    pub kind: ParseErrorKind,
}

/// Why resolving a component's declared rules failed. Resolution failures
/// are terminal for the component instance: the policy stays unavailable and
/// every outbound attempt is denied (fail closed).
#[derive(Clone, Debug, PartialEq, Eq)]
pub enum ResolveError {
    /// A rule failed to parse after substitution.
    Parse(ParseError),
    /// A `{{name}}` template whose variable the external resolver did not
    /// supply.
    VariableResolution(Vec<u8>),
}

pub enum ResolveErrV {
    Parse(Seq<u8>, ParseErrorKind),
    VariableResolution(Seq<u8>),
}

impl View for ResolveError {
    type V = ResolveErrV;

    open spec fn view(&self) -> ResolveErrV {
        match self {
            ResolveError::Parse(e) => ResolveErrV::Parse(e.rule@, e.kind),
            ResolveError::VariableResolution(n) => ResolveErrV::VariableResolution(n@),
        }
    }
}

/// The engine was invoked for a component with no declared policy at all: a
/// caller bug, raised synchronously at preparation time.
#[derive(Clone, Copy, Debug, PartialEq, Eq, Structural)]
pub struct MissingComponentConfig;

/// A disallowed outbound attempt: the expected outcome of a request-time
/// check against a policy that no rule of which matches. Not an engine
/// fault.
#[derive(Clone, Debug, PartialEq, Eq)]
pub struct Denied {
    pub attempt: OutboundAttempt,
}

/// A component's declared destinations: the explicit allow-all sentinel, or
/// a list of raw rule strings, each possibly holding `{{name}}` templates.
#[derive(Clone, Debug, PartialEq, Eq)]
pub enum RawRules {
    AllowAll,
    List(Vec<Vec<u8>>),
}

pub enum RawRulesV {
    AllowAll,
    List(Seq<Seq<u8>>),
}

impl View for RawRules {
    type V = RawRulesV;

    open spec fn view(&self) -> RawRulesV {
        match self {
            RawRules::AllowAll => RawRulesV::AllowAll,
            RawRules::List(rs) => RawRulesV::List(rs.deep_view()),
        }
    }
}

} // verus!
