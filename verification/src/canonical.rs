//! Canonical rule text: re-serializing a structured rule back to the
//! grammar's canonical form, and the round-trip law — parsing a rule,
//! serializing it, and parsing again yields the same structured rule.
//!
//! The canonical form always writes the port (`:*` when any), a CIDR host
//! always with its prefix length, and decimal numbers without leading
//! zeros.

use vstd::prelude::*;
use vstd::slice::slice_to_vec;
use crate::parse::{
    all_digits, dec_val, find_byte_spec, find_sub_spec, is_dec, is_digit, is_scheme_token,
    lemma_dec_nonneg, lemma_find_byte_first, lemma_find_byte_bounds, lemma_find_sub_first,
    lemma_rfind_byte_last, matches_at, parse_host_spec, parse_ipv4_spec, parse_octet_spec,
    parse_port_spec, parse_rule_spec, parse_scheme_spec, rfind_byte_spec, scheme_char,
};
use crate::rule::{
    cidr_wf, port_wf, HostConfig, HostV, Ipv4Cidr, OutboundAllowRule, ParseErrorKind, PortConfig,
    RuleV, SchemeConfig, SchemeV,
};

verus! {

// ---------------------------------------------------------------------------
// Canonical form
// ---------------------------------------------------------------------------

/// Decimal digits of `n`, most significant first, no leading zeros.
pub open spec fn dec_print(n: int) -> Seq<u8>
    recommends
        0 <= n,
    decreases n,
{
    if n < 10 {
        seq![(n + 48) as u8]
    } else {
        dec_print(n / 10).push((n % 10 + 48) as u8)
    }
}

pub open spec fn ip_octet1(ip: u32) -> int {
    (ip as int) / 0x1000000
}

pub open spec fn ip_octet2(ip: u32) -> int {
    ((ip as int) % 0x1000000) / 0x10000
}

pub open spec fn ip_octet3(ip: u32) -> int {
    (((ip as int) % 0x1000000) % 0x10000) / 0x100
}

pub open spec fn ip_octet4(ip: u32) -> int {
    (((ip as int) % 0x1000000) % 0x10000) % 0x100
}

/// Dotted-quad text of an IPv4 address.
pub open spec fn ser_ipv4(ip: u32) -> Seq<u8> {
    dec_print(ip_octet1(ip)) + seq![46u8] + dec_print(ip_octet2(ip)) + seq![46u8] + dec_print(
        ip_octet3(ip),
    ) + seq![46u8] + dec_print(ip_octet4(ip))
}

/// Canonical host text: a CIDR always with its prefix, a domain pattern as
/// it stands.
pub open spec fn ser_host(h: HostV) -> Seq<u8> {
    match h {
        HostV::Cidr(c) => ser_ipv4(c.addr) + seq![47u8] + dec_print(c.prefix as int),
        HostV::DomainPattern(p) => p,
    }
}

/// Canonical port text: `*` for any, the number, or `lo-hi`.
pub open spec fn ser_port(p: PortConfig) -> Seq<u8> {
    match p {
        PortConfig::Any => seq![42u8],
        PortConfig::Single(q) => dec_print(q as int),
        PortConfig::Range(lo, hi) => dec_print(lo as int) + seq![45u8] + dec_print(hi as int),
    }
}

/// Canonical scheme text: `*` for any, else the one scheme name.
pub open spec fn ser_scheme(c: SchemeV) -> Seq<u8> {
    match c {
        SchemeV::Any => seq![42u8],
        SchemeV::OneOf(names) => if names.len() >= 1 {
            names[0]
        } else {
            Seq::empty()
        },
    }
}

/// The canonical text of a structured rule.
pub open spec fn ser_rule(r: RuleV) -> Seq<u8> {
    ser_scheme(r.scheme) + seq![58u8, 47u8, 47u8] + ser_host(r.host) + seq![58u8] + ser_port(
        r.port,
    )
}

/// Whether a domain pattern's text would not parse as a CIDR host.
pub open spec fn domain_not_ip(p: Seq<u8>) -> bool {
    match find_byte_spec(p, 47) {
        Some(i) => parse_ipv4_spec(p.take(i)) is None,
        None => parse_ipv4_spec(p) is None,
    }
}

/// The structural invariant every parsed rule satisfies; exactly the rules
/// whose canonical text parses back to themselves.
pub open spec fn rule_canon(r: RuleV) -> bool {
    &&& match r.scheme {
        SchemeV::Any => true,
        SchemeV::OneOf(names) => names.len() == 1 && is_scheme_token(names[0]),
    }
    &&& match r.host {
        HostV::Cidr(c) => cidr_wf(c),
        HostV::DomainPattern(p) => p.len() > 0 && p != seq![42u8] && domain_not_ip(p),
    }
    &&& port_wf(r.port)
}

// ---------------------------------------------------------------------------
// The serializer
// ---------------------------------------------------------------------------

/// Appends the decimal digits of `n`.
fn push_dec(out: &mut Vec<u8>, n: u16)
    ensures
        final(out)@ == old(out)@ + dec_print(n as int),
    decreases n,
{
    if n >= 10 {
        let ghost mid = out@;
        push_dec(out, n / 10);
        out.push((n % 10) as u8 + 48);
        proof {
            assert(out@ =~= mid + dec_print(n as int));
        }
    } else {
        out.push(n as u8 + 48);
        proof {
            assert(out@ =~= old(out)@ + dec_print(n as int));
        }
    }
}

fn push_ipv4(out: &mut Vec<u8>, ip: u32)
    ensures
        final(out)@ == old(out)@ + ser_ipv4(ip),
{
    let o1: u32 = ip / 0x1000000;
    let r1: u32 = ip % 0x1000000;
    let o2: u32 = r1 / 0x10000;
    let r2: u32 = r1 % 0x10000;
    let o3: u32 = r2 / 0x100;
    let o4: u32 = r2 % 0x100;
    push_dec(out, o1 as u16);
    out.push(46);
    push_dec(out, o2 as u16);
    out.push(46);
    push_dec(out, o3 as u16);
    out.push(46);
    push_dec(out, o4 as u16);
    proof {
        assert(o1 as int == ip_octet1(ip));
        assert(o2 as int == ip_octet2(ip));
        assert(o3 as int == ip_octet3(ip));
        assert(o4 as int == ip_octet4(ip));
        assert(out@ =~= old(out)@ + ser_ipv4(ip));
    }
}

/// Serializes a rule back to its canonical string form.
pub fn serialize(rule: &OutboundAllowRule) -> (out: Vec<u8>)
    ensures
        out@ == ser_rule(rule@),
{
    let mut out: Vec<u8> = Vec::new();
    match &rule.scheme {
        SchemeConfig::Any => {
            out.push(42);
        },
        SchemeConfig::OneOf(names) => {
            if names.len() >= 1 {
                let mut name = slice_to_vec(names[0].as_slice());
                proof {
                    assert(names@[0].deep_view() =~= names@[0]@);
                    assert(name@ == names.deep_view()[0]);
                }
                out.append(&mut name);
            }
        },
    }
    proof {
        assert(out@ =~= ser_scheme(rule.scheme@));
    }
    out.push(58);
    out.push(47);
    out.push(47);
    let ghost head = out@;
    proof {
        assert(head =~= ser_scheme(rule.scheme@) + seq![58u8, 47u8, 47u8]);
    }
    match &rule.host {
        HostConfig::Cidr(c) => {
            push_ipv4(&mut out, c.addr);
            out.push(47);
            push_dec(&mut out, c.prefix as u16);
            proof {
                assert(out@ =~= head + ser_host(rule.host@));
            }
        },
        HostConfig::DomainPattern(p) => {
            let mut ptext = slice_to_vec(p.as_slice());
            out.append(&mut ptext);
            proof {
                assert(out@ =~= head + ser_host(rule.host@));
            }
        },
    }
    out.push(58);
    let ghost head2 = out@;
    proof {
        assert(head2 =~= head + ser_host(rule.host@) + seq![58u8]);
    }
    match rule.port {
        PortConfig::Any => {
            out.push(42);
        },
        PortConfig::Single(q) => {
            push_dec(&mut out, q);
        },
        PortConfig::Range(lo, hi) => {
            push_dec(&mut out, lo);
            out.push(45);
            push_dec(&mut out, hi);
        },
    }
    proof {
        assert(out@ =~= ser_rule(rule@));
    }
    out
}

// ---------------------------------------------------------------------------
// Round trip: parse after serialize
// ---------------------------------------------------------------------------

proof fn lemma_find_byte_is(s: Seq<u8>, b: u8, k: int)
    requires
        0 <= k < s.len(),
        s[k] == b,
        forall|j: int| 0 <= j < k ==> s[j] != b,
    ensures
        find_byte_spec(s, b) == Some(k),
{
    lemma_find_byte_bounds(s, b);
    lemma_find_byte_first(s, b);
    match find_byte_spec(s, b) {
        Some(i) => {
            if i < k {
                assert(s[i] != b);
            }
            if i > k {
                assert(s[k] != b);
            }
        },
        None => {
            assert(s[k] != b);
        },
    }
}

proof fn lemma_find_byte_absent(s: Seq<u8>, b: u8)
    requires
        forall|j: int| 0 <= j < s.len() ==> s[j] != b,
    ensures
        find_byte_spec(s, b) is None,
{
    lemma_find_byte_bounds(s, b);
    match find_byte_spec(s, b) {
        Some(i) => {
            assert(s[i] != b);
        },
        None => {},
    }
}

proof fn lemma_rfind_byte_is(s: Seq<u8>, b: u8, k: int)
    requires
        0 <= k < s.len(),
        s[k] == b,
        forall|j: int| k < j < s.len() ==> s[j] != b,
    ensures
        rfind_byte_spec(s, b) == Some(k),
{
    lemma_rfind_byte_last(s, b);
    match rfind_byte_spec(s, b) {
        Some(i) => {
            if i > k {
                assert(s[i] != b);
            }
            if i < k {
                assert(s[k] != b);
            }
        },
        None => {
            assert(s[k] != b);
        },
    }
}

proof fn lemma_find_sub_is(s: Seq<u8>, pat: Seq<u8>, k: int)
    requires
        matches_at(s, pat, k),
        forall|j: int| 0 <= j < k ==> !matches_at(s, pat, j),
    ensures
        find_sub_spec(s, pat) == Some(k),
{
    lemma_find_sub_first(s, pat);
    match find_sub_spec(s, pat) {
        Some(i) => {
            if i < k {
                assert(!matches_at(s, pat, i));
            }
            if i > k {
                assert(!matches_at(s, pat, k));
            }
        },
        None => {
            assert(!matches_at(s, pat, k));
        },
    }
}

/// Decimal printing and reading are mutually inverse.
proof fn lemma_dec_print_rt(n: int)
    requires
        0 <= n,
    ensures
        dec_print(n).len() >= 1,
        all_digits(dec_print(n)),
        is_dec(dec_print(n)),
        dec_val(dec_print(n)) == n,
    decreases n,
{
    if n < 10 {
        let s = dec_print(n);
        assert(s =~= seq![(n + 48) as u8]);
        assert(is_digit(s[0]));
        assert(s.drop_last() =~= Seq::<u8>::empty());
        assert(dec_val(Seq::<u8>::empty()) == 0);
        assert(s.last() == (n + 48) as u8);
        assert(dec_val(s) == n);
    } else {
        lemma_dec_print_rt(n / 10);
        let s0 = dec_print(n / 10);
        let s = dec_print(n);
        assert(s == s0.push((n % 10 + 48) as u8));
        assert(s.drop_last() =~= s0);
        assert(s.last() == (n % 10 + 48) as u8);
        assert forall|k: int| 0 <= k < s.len() implies is_digit(s[k]) by {
            if k < s0.len() {
                assert(s[k] == s0[k]);
            }
        }
        assert(dec_val(s) == dec_val(s0) * 10 + (n % 10));
    }
}

/// Dotted-quad printing and reading are mutually inverse, and the printed
/// text holds only digits and dots.
proof fn lemma_ipv4_rt(ip: u32)
    ensures
        parse_ipv4_spec(ser_ipv4(ip)) == Some(ip),
        forall|k: int|
            0 <= k < ser_ipv4(ip).len() ==> (is_digit(#[trigger] ser_ipv4(ip)[k]) || ser_ipv4(
                ip,
            )[k] == 46),
        is_digit(ser_ipv4(ip)[0]),
        ser_ipv4(ip).len() >= 1,
{
    let a = ip_octet1(ip);
    let b = ip_octet2(ip);
    let c = ip_octet3(ip);
    let d = ip_octet4(ip);
    assert(0 <= a <= 255 && 0 <= b <= 255 && 0 <= c <= 255 && 0 <= d <= 255);
    lemma_dec_print_rt(a);
    lemma_dec_print_rt(b);
    lemma_dec_print_rt(c);
    lemma_dec_print_rt(d);
    let pa = dec_print(a);
    let pb = dec_print(b);
    let pc = dec_print(c);
    let pd = dec_print(d);
    let s = ser_ipv4(ip);
    let la = pa.len() as int;
    let lb = pb.len() as int;
    let lc = pc.len() as int;
    let ld = pd.len() as int;
    assert(s.len() == la + 1 + lb + 1 + lc + 1 + ld);
    assert forall|k: int| 0 <= k < s.len() implies (is_digit(#[trigger] s[k]) || s[k] == 46) by {
        if k < la {
            assert(s[k] == pa[k]);
        } else if k == la {
            assert(s[k] == 46);
        } else if k < la + 1 + lb {
            assert(s[k] == pb[k - la - 1]);
        } else if k == la + 1 + lb {
            assert(s[k] == 46);
        } else if k < la + 1 + lb + 1 + lc {
            assert(s[k] == pc[k - la - 1 - lb - 1]);
        } else if k == la + 1 + lb + 1 + lc {
            assert(s[k] == 46);
        } else {
            assert(s[k] == pd[k - la - 1 - lb - 1 - lc - 1]);
        }
    }
    assert(s[0] == pa[0]);
    // first dot
    assert(s[la] == 46);
    assert forall|j: int| 0 <= j < la implies s[j] != 46 by {
        assert(s[j] == pa[j]);
        assert(is_digit(pa[j]));
    }
    lemma_find_byte_is(s, 46, la);
    assert(s.take(la) =~= pa);
    let r1 = s.skip(la + 1);
    assert(r1 =~= pb + seq![46u8] + pc + seq![46u8] + pd);
    // second dot
    assert(r1[lb] == 46);
    assert forall|j: int| 0 <= j < lb implies r1[j] != 46 by {
        assert(r1[j] == pb[j]);
        assert(is_digit(pb[j]));
    }
    lemma_find_byte_is(r1, 46, lb);
    assert(r1.take(lb) =~= pb);
    let r2 = r1.skip(lb + 1);
    assert(r2 =~= pc + seq![46u8] + pd);
    // third dot
    assert(r2[lc] == 46);
    assert forall|j: int| 0 <= j < lc implies r2[j] != 46 by {
        assert(r2[j] == pc[j]);
        assert(is_digit(pc[j]));
    }
    lemma_find_byte_is(r2, 46, lc);
    assert(r2.take(lc) =~= pc);
    let r3 = r2.skip(lc + 1);
    assert(r3 =~= pd);
    assert forall|j: int| 0 <= j < r3.len() implies r3[j] != 46 by {
        assert(is_digit(pd[j]));
    }
    lemma_find_byte_absent(r3, 46);
    assert(parse_octet_spec(s.take(la)) == Some(a));
    assert(parse_octet_spec(r1.take(lb)) == Some(b));
    assert(parse_octet_spec(r2.take(lc)) == Some(c));
    assert(parse_octet_spec(r3) == Some(d));
    assert(a * 0x1000000 + b * 0x10000 + c * 0x100 + d == ip as int);
    assert(parse_ipv4_spec(s) == Some(ip));
}

/// Canonical port text parses back to the same port configuration, and
/// never holds a `:`.
proof fn lemma_port_rt(p: PortConfig)
    requires
        p matches PortConfig::Range(lo, hi) ==> lo <= hi,
    ensures
        parse_port_spec(ser_port(p)) == Some(p),
        forall|k: int| 0 <= k < ser_port(p).len() ==> (#[trigger] ser_port(p)[k]) != 58,
        ser_port(p).len() >= 1,
{
    let s = ser_port(p);
    match p {
        PortConfig::Any => {
            assert(s =~= seq![42u8]);
        },
        PortConfig::Single(q) => {
            lemma_dec_print_rt(q as int);
            assert(s.len() >= 1 && is_digit(s[0]));
            if s == seq![42u8] {
                assert(is_digit(42u8));
            }
            assert(s != seq![42u8]);
            assert forall|j: int| 0 <= j < s.len() implies s[j] != 45 by {
                assert(is_digit(s[j]));
            }
            lemma_find_byte_absent(s, 45);
            assert(parse_port_spec(s) == Some(PortConfig::Single(q)));
            assert forall|k: int| 0 <= k < s.len() implies (#[trigger] s[k]) != 58 by {
                assert(is_digit(s[k]));
            }
        },
        PortConfig::Range(lo, hi) => {
            lemma_dec_print_rt(lo as int);
            lemma_dec_print_rt(hi as int);
            let pl = dec_print(lo as int);
            let ph = dec_print(hi as int);
            let ll = pl.len() as int;
            assert(s.len() == ll + 1 + ph.len());
            assert forall|k: int| 0 <= k < s.len() implies (is_digit(#[trigger] s[k]) || s[k]
                == 45) by {
                if k < ll {
                    assert(s[k] == pl[k]);
                } else if k == ll {
                    assert(s[k] == 45);
                } else {
                    assert(s[k] == ph[k - ll - 1]);
                }
            }
            assert(s[0] == pl[0]);
            if s == seq![42u8] {
                assert(s.len() == 1);
                assert(is_digit(s[0]) || s[0] == 45);
            }
            assert(s != seq![42u8]);
            assert(s[ll] == 45);
            assert forall|j: int| 0 <= j < ll implies s[j] != 45 by {
                assert(s[j] == pl[j]);
                assert(is_digit(pl[j]));
            }
            lemma_find_byte_is(s, 45, ll);
            assert(s.take(ll) =~= pl);
            assert(s.skip(ll + 1) =~= ph);
            assert(parse_port_spec(s) == Some(PortConfig::Range(lo, hi)));
        },
    }
}

/// Canonical host text parses back to the same host configuration.
proof fn lemma_host_rt(h: HostV)
    requires
        h matches HostV::Cidr(c) ==> c.prefix <= 32,
        h matches HostV::DomainPattern(p) ==> p.len() > 0 && p != seq![42u8] && domain_not_ip(p),
    ensures
        parse_host_spec(ser_host(h)) == Ok::<HostV, ParseErrorKind>(h),
        ser_host(h).len() >= 1,
{
    let s = ser_host(h);
    match h {
        HostV::Cidr(c) => {
            lemma_ipv4_rt(c.addr);
            lemma_dec_print_rt(c.prefix as int);
            let pi = ser_ipv4(c.addr);
            let pp = dec_print(c.prefix as int);
            let li = pi.len() as int;
            assert(s.len() == li + 1 + pp.len());
            assert(s[0] == pi[0]);
            if s == seq![42u8] {
                assert(is_digit(s[0]));
            }
            assert(s != seq![42u8]);
            assert(s[li] == 47);
            assert forall|j: int| 0 <= j < li implies s[j] != 47 by {
                assert(s[j] == pi[j]);
                assert(is_digit(pi[j]) || pi[j] == 46);
            }
            lemma_find_byte_is(s, 47, li);
            assert(s.take(li) =~= pi);
            assert(s.skip(li + 1) =~= pp);
            assert(parse_host_spec(s) == Ok::<HostV, ParseErrorKind>(
                HostV::Cidr(Ipv4Cidr { addr: c.addr, prefix: c.prefix }),
            ));
            assert(Ipv4Cidr { addr: c.addr, prefix: c.prefix } == c);
        },
        HostV::DomainPattern(p) => {
            assert(s == p);
            assert(parse_host_spec(s) == Ok::<HostV, ParseErrorKind>(h));
        },
    }
}

/// Canonical scheme text parses back to the same scheme configuration, and
/// holds neither `:` nor `/`.
proof fn lemma_scheme_rt(c: SchemeV)
    requires
        c matches SchemeV::OneOf(names) ==> names.len() == 1 && is_scheme_token(names[0]),
    ensures
        parse_scheme_spec(ser_scheme(c)) == Ok::<SchemeV, ParseErrorKind>(c),
        forall|k: int|
            0 <= k < ser_scheme(c).len() ==> (#[trigger] ser_scheme(c)[k]) != 58 && ser_scheme(
                c,
            )[k] != 47,
{
    let s = ser_scheme(c);
    match c {
        SchemeV::Any => {
            assert(s =~= seq![42u8]);
        },
        SchemeV::OneOf(names) => {
            let t = names[0];
            assert(s == t);
            if s == seq![42u8] {
                assert(scheme_char(t[0]));
                assert(t[0] == 42);
            }
            assert(s != seq![42u8]);
            assert(parse_scheme_spec(s) == Ok::<SchemeV, ParseErrorKind>(
                SchemeV::OneOf(seq![t]),
            ));
            assert(seq![t] =~= names);
            assert forall|k: int| 0 <= k < s.len() implies (#[trigger] s[k]) != 58 && s[k]
                != 47 by {
                assert(scheme_char(s[k]));
            }
        },
    }
}

/// The round-trip law, serialization side: the canonical text of any
/// well-formed rule parses back to exactly that rule.
pub proof fn lemma_serialize_parse_rt(r: RuleV)
    requires
        rule_canon(r),
    ensures
        parse_rule_spec(ser_rule(r)) == Ok::<RuleV, ParseErrorKind>(r),
{
    lemma_scheme_rt(r.scheme);
    lemma_host_rt(r.host);
    lemma_port_rt(r.port);
    let sch = ser_scheme(r.scheme);
    let host = ser_host(r.host);
    let port = ser_port(r.port);
    let pat = seq![58u8, 47u8, 47u8];
    let s = ser_rule(r);
    let ls = sch.len() as int;
    let lh = host.len() as int;
    let lp = port.len() as int;
    assert(s.len() == ls + 3 + lh + 1 + lp);
    // the separator stands right after the scheme, and nowhere earlier
    assert(s.subrange(ls, ls + 3) =~= pat);
    assert(matches_at(s, pat, ls));
    assert forall|j: int| 0 <= j < ls implies !matches_at(s, pat, j) by {
        if matches_at(s, pat, j) {
            assert(s.subrange(j, j + 3)[0] == s[j]);
            assert(s[j] == 58);
            assert(s[j] == sch[j]);
            assert(sch[j] != 58);
        }
    }
    lemma_find_sub_is(s, pat, ls);
    assert(s.take(ls) =~= sch);
    let rest = s.skip(ls + 3);
    assert(rest =~= host + seq![58u8] + port);
    // the port separator is the last `:` of the remainder
    assert(rest[lh] == 58);
    assert forall|j: int| lh < j < rest.len() implies rest[j] != 58 by {
        assert(rest[j] == port[j - lh - 1]);
    }
    lemma_rfind_byte_is(rest, 58, lh);
    assert(rest.take(lh) =~= host);
    assert(rest.skip(lh + 1) =~= port);
    assert(parse_rule_spec(s) == Ok::<RuleV, ParseErrorKind>(
        RuleV { scheme: r.scheme, host: r.host, port: r.port },
    ));
    assert(RuleV { scheme: r.scheme, host: r.host, port: r.port } == r);
}

/// Every rule the parser accepts is well-formed in the canonical sense.
pub proof fn lemma_parse_canon(s: Seq<u8>)
    ensures
        parse_rule_spec(s) matches Ok(r) ==> rule_canon(r),
{
    match find_sub_spec(s, seq![58u8, 47u8, 47u8]) {
        None => {},
        Some(i) => {
            let rest = s.skip(i + 3);
            match rfind_byte_spec(rest, 58) {
                None => {
                    lemma_parse_canon_parts(s.take(i), rest, Seq::empty());
                },
                Some(c) => {
                    lemma_parse_canon_parts(s.take(i), rest.take(c), rest.skip(c + 1));
                },
            }
        },
    }
}

/// The sub-parsers yield only canonical parts.
proof fn lemma_parse_canon_parts(st: Seq<u8>, ht: Seq<u8>, pt: Seq<u8>)
    ensures
        parse_scheme_spec(st) matches Ok(sc) ==> match sc {
            SchemeV::Any => true,
            SchemeV::OneOf(names) => names.len() == 1 && is_scheme_token(names[0]),
        },
        parse_host_spec(ht) matches Ok(h) ==> match h {
            HostV::Cidr(cd) => cd.prefix <= 32,
            HostV::DomainPattern(p) => p.len() > 0 && p != seq![42u8] && domain_not_ip(p),
        },
        parse_port_spec(pt) matches Some(p) ==> match p {
            PortConfig::Range(lo, hi) => lo <= hi,
            _ => true,
        },
{
    // scheme
    if st != seq![42u8] && is_scheme_token(st) {
        assert(seq![st].len() == 1 && seq![st][0] == st);
    }
    // host
    if ht.len() > 0 && ht != seq![42u8] {
        match find_byte_spec(ht, 47) {
            Some(i) => {
                match parse_ipv4_spec(ht.take(i)) {
                    Some(_) => {
                        let ptext = ht.skip(i + 1);
                        if is_dec(ptext) && dec_val(ptext) <= 32 {
                            lemma_dec_nonneg(ptext);
                        }
                    },
                    None => {},
                }
            },
            None => {},
        }
    }
    // port
    if pt != seq![42u8] {
        match find_byte_spec(pt, 45) {
            None => {
                if is_dec(pt) && dec_val(pt) <= 65535 {
                    lemma_dec_nonneg(pt);
                }
            },
            Some(i) => {
                let lo = pt.take(i);
                let hi = pt.skip(i + 1);
                if is_dec(lo) && dec_val(lo) <= 65535 && is_dec(hi) && dec_val(hi) <= 65535
                    && dec_val(lo) <= dec_val(hi) {
                    lemma_dec_nonneg(lo);
                    lemma_dec_nonneg(hi);
                }
            },
        }
    }
}

/// The round-trip law: parsing a rule, serializing it back to canonical
/// form, and parsing again yields the same structured rule.
pub proof fn lemma_round_trip(s: Seq<u8>)
    ensures
        parse_rule_spec(s) matches Ok(r) ==> parse_rule_spec(ser_rule(r)) == Ok::<
            RuleV,
            ParseErrorKind,
        >(r),
{
    match parse_rule_spec(s) {
        Ok(r) => {
            lemma_parse_canon(s);
            lemma_serialize_parse_rt(r);
        },
        Err(_) => {},
    }
}

} // verus!
