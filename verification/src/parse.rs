//! The rule grammar and its parser.
//!
//! Grammar: `scheme "://" host [":" port]`.
//! - scheme: `*` (any scheme, raw sockets included) or a token over the
//!   scheme alphabet (letters, digits, `+`, `-`, `.`).
//! - host: an IPv4 literal with an optional `/prefix` is a CIDR; a bare `*`
//!   is the whole IPv4 space (`0.0.0.0/0`); anything else, nonempty, is a
//!   domain pattern, a leading `*.` meaning "any strict subdomain of".
//! - port: absent or `*` means any; `N` a single port; `N-M` an inclusive
//!   range with `N <= M`.
//!
//! Parsing is all-or-nothing per rule: a malformed rule is a `ParseError`
//! naming the rule text and the violated sub-grammar.

use vstd::prelude::*;
use vstd::slice::{slice_subrange, slice_to_vec};
use crate::rule::{
    HostConfig, Ipv4Cidr, OutboundAllowRule, ParseError, ParseErrorKind, PortConfig, SchemeConfig,
    HostV, RuleV, SchemeV,
};

verus! {

// ---------------------------------------------------------------------------
// Byte searching
// ---------------------------------------------------------------------------

/// Index of the first occurrence of `b` in `s`.
pub open spec fn find_byte_spec(s: Seq<u8>, b: u8) -> Option<int>
    decreases s.len(),
{
    if s.len() == 0 {
        None
    } else if s[0] == b {
        Some(0)
    } else {
        match find_byte_spec(s.skip(1), b) {
            None => None,
            Some(i) => Some(i + 1),
        }
    }
}

pub proof fn lemma_find_byte_bounds(s: Seq<u8>, b: u8)
    ensures
        find_byte_spec(s, b) matches Some(i) ==> 0 <= i < s.len() && s[i] == b,
    decreases s.len(),
{
    if s.len() > 0 && s[0] != b {
        lemma_find_byte_bounds(s.skip(1), b);
    }
}

/// `find_byte_spec` finds the first occurrence: nothing before it matches,
/// and `None` means no occurrence at all.
pub proof fn lemma_find_byte_first(s: Seq<u8>, b: u8)
    ensures
        find_byte_spec(s, b) matches Some(i) ==> forall|j: int| 0 <= j < i ==> s[j] != b,
        find_byte_spec(s, b) is None ==> forall|j: int| 0 <= j < s.len() ==> s[j] != b,
    decreases s.len(),
{
    if s.len() > 0 && s[0] != b {
        lemma_find_byte_first(s.skip(1), b);
        lemma_find_byte_bounds(s.skip(1), b);
        match find_byte_spec(s.skip(1), b) {
            Some(i2) => {
                assert forall|j: int| 0 <= j < i2 + 1 implies s[j] != b by {
                    if j >= 1 {
                        assert(s.skip(1)[j - 1] == s[j]);
                        assert(s.skip(1)[j - 1] != b);
                    }
                }
            },
            None => {
                assert forall|j: int| 0 <= j < s.len() implies s[j] != b by {
                    if j >= 1 {
                        assert(s.skip(1)[j - 1] == s[j]);
                        assert(s.skip(1)[j - 1] != b);
                    }
                }
            },
        }
    }
}

pub fn find_byte(s: &[u8], b: u8) -> (r: Option<usize>)
    ensures
        match r {
            Some(i) => find_byte_spec(s@, b) == Some(i as int) && i < s@.len(),
            None => find_byte_spec(s@, b) is None,
        },
    decreases s@.len(),
{
    if s.len() == 0 {
        None
    } else if s[0] == b {
        Some(0)
    } else {
        let rest = slice_subrange(s, 1, s.len());
        proof {
            assert(rest@ =~= s@.skip(1));
        }
        match find_byte(rest, b) {
            None => None,
            Some(i) => Some(i + 1),
        }
    }
}

/// Index of the last occurrence of `b` in `s`.
pub open spec fn rfind_byte_spec(s: Seq<u8>, b: u8) -> Option<int>
    decreases s.len(),
{
    if s.len() == 0 {
        None
    } else if s.last() == b {
        Some(s.len() - 1)
    } else {
        rfind_byte_spec(s.drop_last(), b)
    }
}

/// `rfind_byte_spec` finds the last occurrence: nothing after it matches,
/// and `None` means no occurrence at all.
pub proof fn lemma_rfind_byte_last(s: Seq<u8>, b: u8)
    ensures
        rfind_byte_spec(s, b) matches Some(i) ==> 0 <= i < s.len() && s[i] == b
            && forall|j: int| i < j < s.len() ==> s[j] != b,
        rfind_byte_spec(s, b) is None ==> forall|j: int| 0 <= j < s.len() ==> s[j] != b,
    decreases s.len(),
{
    if s.len() > 0 && s.last() != b {
        lemma_rfind_byte_last(s.drop_last(), b);
        assert forall|j: int| 0 <= j < s.len() - 1 implies s.drop_last()[j] == s[j] by {}
    }
}

pub fn rfind_byte(s: &[u8], b: u8) -> (r: Option<usize>)
    ensures
        match r {
            Some(i) => rfind_byte_spec(s@, b) == Some(i as int) && i < s@.len(),
            None => rfind_byte_spec(s@, b) is None,
        },
    decreases s@.len(),
{
    if s.len() == 0 {
        None
    } else if s[s.len() - 1] == b {
        Some(s.len() - 1)
    } else {
        let rest = slice_subrange(s, 0, s.len() - 1);
        proof {
            assert(rest@ =~= s@.drop_last());
        }
        rfind_byte(rest, b)
    }
}

/// Whether `pat` occurs in `s` starting at index `i`.
pub open spec fn matches_at(s: Seq<u8>, pat: Seq<u8>, i: int) -> bool {
    0 <= i && i + pat.len() <= s.len() && s.subrange(i, i + pat.len()) == pat
}

/// Index of the first occurrence of `pat` as a contiguous subsequence of `s`.
pub open spec fn find_sub_spec(s: Seq<u8>, pat: Seq<u8>) -> Option<int>
    decreases s.len(),
{
    if pat.len() == 0 {
        Some(0)
    } else if s.len() < pat.len() {
        None
    } else if s.subrange(0, pat.len() as int) == pat {
        Some(0)
    } else {
        match find_sub_spec(s.skip(1), pat) {
            None => None,
            Some(i) => Some(i + 1),
        }
    }
}

pub proof fn lemma_find_sub_bounds(s: Seq<u8>, pat: Seq<u8>)
    ensures
        find_sub_spec(s, pat) matches Some(i) ==> 0 <= i && i + pat.len() <= s.len(),
    decreases s.len(),
{
    if pat.len() > 0 && s.len() >= pat.len() && s.subrange(0, pat.len() as int) != pat {
        lemma_find_sub_bounds(s.skip(1), pat);
    }
}

/// `find_sub_spec` finds the first occurrence: it matches where found,
/// nothing before it matches, and `None` means no occurrence at all.
pub proof fn lemma_find_sub_first(s: Seq<u8>, pat: Seq<u8>)
    ensures
        find_sub_spec(s, pat) matches Some(i) ==> matches_at(s, pat, i)
            && forall|j: int| 0 <= j < i ==> !matches_at(s, pat, j),
        find_sub_spec(s, pat) is None ==> forall|j: int| !matches_at(s, pat, j),
    decreases s.len(),
{
    if pat.len() == 0 {
        assert(s.subrange(0, 0) =~= pat);
    } else if s.len() < pat.len() {
    } else if s.subrange(0, pat.len() as int) == pat {
        assert(matches_at(s, pat, 0));
    } else {
        lemma_find_sub_first(s.skip(1), pat);
        assert forall|j: int| 1 <= j && j + pat.len() <= s.len() implies (#[trigger] matches_at(
            s,
            pat,
            j,
        ) == matches_at(s.skip(1), pat, j - 1)) by {
            assert(s.subrange(j, j + pat.len()) =~= s.skip(1).subrange(j - 1, j - 1 + pat.len()));
        }
    }
}

pub(crate) fn bytes_eq(a: &[u8], b: &[u8]) -> (r: bool)
    ensures
        r == (a@ == b@),
{
    let n = a.len();
    if n != b.len() {
        return false;
    }
    let mut i: usize = 0;
    while i < n
        invariant
            n == a@.len() == b@.len(),
            i <= n,
            forall|j: int| 0 <= j < i ==> a@[j] == b@[j],
        decreases n - i,
    {
        if a[i] != b[i] {
            return false;
        }
        i += 1;
    }
    proof {
        assert(a@ =~= b@);
    }
    true
}

fn starts_with(s: &[u8], pat: &[u8]) -> (r: bool)
    requires
        s@.len() >= pat@.len(),
    ensures
        r == (s@.subrange(0, pat@.len() as int) == pat@),
{
    let n = pat.len();
    let mut i: usize = 0;
    while i < n
        invariant
            n == pat@.len() <= s@.len(),
            i <= n,
            forall|j: int| 0 <= j < i ==> s@[j] == pat@[j],
        decreases n - i,
    {
        if s[i] != pat[i] {
            proof {
                assert(s@.subrange(0, pat@.len() as int)[i as int] == s@[i as int]);
            }
            return false;
        }
        i += 1;
    }
    proof {
        assert(s@.subrange(0, pat@.len() as int) =~= pat@);
    }
    true
}

pub fn find_sub(s: &[u8], pat: &[u8]) -> (r: Option<usize>)
    requires
        pat@.len() >= 1,
    ensures
        match r {
            Some(i) => find_sub_spec(s@, pat@) == Some(i as int) && i + pat@.len() <= s@.len(),
            None => find_sub_spec(s@, pat@) is None,
        },
    decreases s@.len(),
{
    if s.len() < pat.len() {
        return None;
    }
    if starts_with(s, pat) {
        return Some(0);
    }
    let rest = slice_subrange(s, 1, s.len());
    proof {
        assert(rest@ =~= s@.skip(1));
    }
    match find_sub(rest, pat) {
        None => None,
        Some(i) => Some(i + 1),
    }
}

// ---------------------------------------------------------------------------
// Decimal numbers
// ---------------------------------------------------------------------------

pub open spec fn is_digit(c: u8) -> bool {
    48 <= c <= 57
}

pub open spec fn all_digits(s: Seq<u8>) -> bool {
    forall|i: int| 0 <= i < s.len() ==> is_digit(#[trigger] s[i])
}

/// A nonempty, all-digits byte string.
pub open spec fn is_dec(s: Seq<u8>) -> bool {
    s.len() >= 1 && all_digits(s)
}

/// The value of a digit string read in base 10.
pub open spec fn dec_val(s: Seq<u8>) -> int
    decreases s.len(),
{
    if s.len() == 0 {
        0
    } else {
        dec_val(s.drop_last()) * 10 + (s.last() - 48)
    }
}

pub proof fn lemma_dec_nonneg(s: Seq<u8>)
    requires
        all_digits(s),
    ensures
        dec_val(s) >= 0,
    decreases s.len(),
{
    if s.len() > 0 {
        assert(all_digits(s.drop_last())) by {
            assert forall|i: int| 0 <= i < s.drop_last().len() implies is_digit(
                #[trigger] s.drop_last()[i],
            ) by {
                assert(s.drop_last()[i] == s[i]);
            }
        }
        lemma_dec_nonneg(s.drop_last());
    }
}

/// A digit string is worth at least any of its prefixes.
pub proof fn lemma_dec_prefix_le(s: Seq<u8>, i: int)
    requires
        all_digits(s),
        0 <= i <= s.len(),
    ensures
        dec_val(s.take(i)) <= dec_val(s),
    decreases s.len() - i,
{
    if i == s.len() {
        assert(s.take(i) =~= s);
    } else {
        lemma_dec_prefix_le(s, i + 1);
        assert(s.take(i + 1).drop_last() =~= s.take(i));
        assert(s.take(i + 1).last() == s[i]);
        assert(all_digits(s.take(i))) by {
            assert forall|j: int| 0 <= j < s.take(i).len() implies is_digit(
                #[trigger] s.take(i)[j],
            ) by {
                assert(s.take(i)[j] == s[j]);
            }
        }
        lemma_dec_nonneg(s.take(i));
    }
}

/// Parses a bounded decimal: `Some` exactly when `s` is a nonempty digit
/// string worth at most `max`.
pub fn parse_dec(s: &[u8], max: u32) -> (r: Option<u32>)
    requires
        max <= 429_496_728,
    ensures
        match r {
            Some(v) => is_dec(s@) && dec_val(s@) == v as int && v <= max,
            None => !(is_dec(s@) && dec_val(s@) <= max as int),
        },
{
    if s.len() == 0 {
        return None;
    }
    let n = s.len();
    let mut i: usize = 0;
    let mut acc: u32 = 0;
    while i < n
        invariant
            n == s@.len(),
            0 < n,
            i <= n,
            max <= 429_496_728,
            forall|j: int| 0 <= j < i ==> is_digit(#[trigger] s@[j]),
            acc as int == dec_val(s@.take(i as int)),
            acc <= max,
        decreases n - i,
    {
        let c = s[i];
        if c < 48 || c > 57 {
            return None;
        }
        let d: u32 = (c - 48) as u32;
        let next: u32 = acc * 10 + d;
        proof {
            assert(s@.take(i as int + 1).drop_last() =~= s@.take(i as int));
            assert(s@.take(i as int + 1).last() == s@[i as int]);
        }
        if next > max {
            proof {
                if is_dec(s@) {
                    lemma_dec_prefix_le(s@, i as int + 1);
                }
            }
            return None;
        }
        acc = next;
        i += 1;
    }
    proof {
        assert(s@.take(n as int) =~= s@);
    }
    Some(acc)
}

// ---------------------------------------------------------------------------
// IPv4 literals
// ---------------------------------------------------------------------------

/// A decimal octet: value at most 255.
pub open spec fn parse_octet_spec(s: Seq<u8>) -> Option<int> {
    if is_dec(s) && dec_val(s) <= 255 {
        Some(dec_val(s))
    } else {
        None
    }
}

/// A dotted-quad IPv4 literal, read into a `u32` with the first octet
/// highest.
pub open spec fn parse_ipv4_spec(s: Seq<u8>) -> Option<u32> {
    match find_byte_spec(s, 46) {
        None => None,
        Some(i1) => {
            let r1 = s.skip(i1 + 1);
            match find_byte_spec(r1, 46) {
                None => None,
                Some(i2) => {
                    let r2 = r1.skip(i2 + 1);
                    match find_byte_spec(r2, 46) {
                        None => None,
                        Some(i3) => {
                            let r3 = r2.skip(i3 + 1);
                            if find_byte_spec(r3, 46) is Some {
                                None
                            } else {
                                match (
                                    parse_octet_spec(s.take(i1)),
                                    parse_octet_spec(r1.take(i2)),
                                    parse_octet_spec(r2.take(i3)),
                                    parse_octet_spec(r3),
                                ) {
                                    (Some(a), Some(b), Some(c), Some(d)) => Some(
                                        (a * 0x1000000 + b * 0x10000 + c * 0x100 + d) as u32,
                                    ),
                                    _ => None,
                                }
                            }
                        },
                    }
                },
            }
        },
    }
}

fn parse_octet(s: &[u8]) -> (r: Option<u32>)
    ensures
        match r {
            Some(v) => parse_octet_spec(s@) == Some(v as int),
            None => parse_octet_spec(s@) is None,
        },
{
    parse_dec(s, 255)
}

pub fn parse_ipv4(s: &[u8]) -> (r: Option<u32>)
    ensures
        r == parse_ipv4_spec(s@),
{
    let n = s.len();
    let i1 = match find_byte(s, 46) {
        None => {
            return None;
        },
        Some(i) => i,
    };
    let r1 = slice_subrange(s, i1 + 1, n);
    proof {
        assert(r1@ =~= s@.skip(i1 as int + 1));
    }
    let n1 = r1.len();
    let i2 = match find_byte(r1, 46) {
        None => {
            return None;
        },
        Some(i) => i,
    };
    let r2 = slice_subrange(r1, i2 + 1, n1);
    proof {
        assert(r2@ =~= r1@.skip(i2 as int + 1));
    }
    let n2 = r2.len();
    let i3 = match find_byte(r2, 46) {
        None => {
            return None;
        },
        Some(i) => i,
    };
    let r3 = slice_subrange(r2, i3 + 1, n2);
    proof {
        assert(r3@ =~= r2@.skip(i3 as int + 1));
    }
    if find_byte(r3, 46).is_some() {
        return None;
    }
    let p1 = slice_subrange(s, 0, i1);
    let p2 = slice_subrange(r1, 0, i2);
    let p3 = slice_subrange(r2, 0, i3);
    proof {
        assert(p1@ =~= s@.take(i1 as int));
        assert(p2@ =~= r1@.take(i2 as int));
        assert(p3@ =~= r2@.take(i3 as int));
    }
    let a = match parse_octet(p1) {
        None => {
            return None;
        },
        Some(v) => v,
    };
    let b = match parse_octet(p2) {
        None => {
            return None;
        },
        Some(v) => v,
    };
    let c = match parse_octet(p3) {
        None => {
            return None;
        },
        Some(v) => v,
    };
    let d = match parse_octet(r3) {
        None => {
            return None;
        },
        Some(v) => v,
    };
    Some(a * 0x1000000 + b * 0x10000 + c * 0x100 + d)
}

// ---------------------------------------------------------------------------
// Scheme, host, port
// ---------------------------------------------------------------------------

/// The scheme alphabet: ASCII letters, digits, `+`, `-`, `.`.
pub open spec fn scheme_char(c: u8) -> bool {
    (97 <= c <= 122) || (65 <= c <= 90) || (48 <= c <= 57) || c == 43 || c == 45 || c == 46
}

pub open spec fn is_scheme_token(s: Seq<u8>) -> bool {
    s.len() >= 1 && forall|i: int| 0 <= i < s.len() ==> scheme_char(#[trigger] s[i])
}

pub open spec fn parse_scheme_spec(s: Seq<u8>) -> Result<SchemeV, ParseErrorKind> {
    if s == seq![42u8] {
        Ok(SchemeV::Any)
    } else if is_scheme_token(s) {
        Ok(SchemeV::OneOf(seq![s]))
    } else {
        Err(ParseErrorKind::Scheme)
    }
}

fn is_scheme_byte(c: u8) -> (r: bool)
    ensures
        r == scheme_char(c),
{
    (97 <= c && c <= 122) || (65 <= c && c <= 90) || (48 <= c && c <= 57) || c == 43 || c == 45
        || c == 46
}

pub fn parse_scheme(s: &[u8]) -> (r: Result<SchemeConfig, ParseErrorKind>)
    ensures
        match r {
            Ok(sc) => parse_scheme_spec(s@) == Ok::<SchemeV, ParseErrorKind>(sc@),
            Err(k) => parse_scheme_spec(s@) == Err::<SchemeV, ParseErrorKind>(k),
        },
{
    if s.len() == 1 && s[0] == 42 {
        proof {
            assert(s@ =~= seq![42u8]);
        }
        return Ok(SchemeConfig::Any);
    }
    proof {
        if s@ == seq![42u8] {
            assert(s@.len() == 1);
            assert(s@[0] == 42);
        }
    }
    let n = s.len();
    if n == 0 {
        return Err(ParseErrorKind::Scheme);
    }
    proof {
        assert(s@ != seq![42u8]);
    }
    let mut i: usize = 0;
    while i < n
        invariant
            n == s@.len(),
            i <= n,
            s@ != seq![42u8],
            forall|j: int| 0 <= j < i ==> scheme_char(#[trigger] s@[j]),
        decreases n - i,
    {
        if !is_scheme_byte(s[i]) {
            return Err(ParseErrorKind::Scheme);
        }
        i += 1;
    }
    let mut names: Vec<Vec<u8>> = Vec::new();
    names.push(slice_to_vec(s));
    proof {
        assert(names.deep_view() =~~= seq![s@]);
    }
    Ok(SchemeConfig::OneOf(names))
}

pub open spec fn parse_host_spec(s: Seq<u8>) -> Result<HostV, ParseErrorKind> {
    if s.len() == 0 {
        Err(ParseErrorKind::Host)
    } else if s == seq![42u8] {
        Ok(HostV::Cidr(Ipv4Cidr { addr: 0, prefix: 0 }))
    } else {
        match find_byte_spec(s, 47) {
            Some(i) => match parse_ipv4_spec(s.take(i)) {
                Some(ip) => {
                    let ptext = s.skip(i + 1);
                    if is_dec(ptext) && dec_val(ptext) <= 32 {
                        Ok(HostV::Cidr(Ipv4Cidr { addr: ip, prefix: dec_val(ptext) as u8 }))
                    } else {
                        Err(ParseErrorKind::Cidr)
                    }
                },
                None => Ok(HostV::DomainPattern(s)),
            },
            None => match parse_ipv4_spec(s) {
                Some(ip) => Ok(HostV::Cidr(Ipv4Cidr { addr: ip, prefix: 32 })),
                None => Ok(HostV::DomainPattern(s)),
            },
        }
    }
}

pub fn parse_host(s: &[u8]) -> (r: Result<HostConfig, ParseErrorKind>)
    ensures
        match r {
            Ok(h) => parse_host_spec(s@) == Ok::<HostV, ParseErrorKind>(h@),
            Err(k) => parse_host_spec(s@) == Err::<HostV, ParseErrorKind>(k),
        },
{
    let n = s.len();
    if n == 0 {
        return Err(ParseErrorKind::Host);
    }
    if n == 1 && s[0] == 42 {
        proof {
            assert(s@ =~= seq![42u8]);
        }
        return Ok(HostConfig::Cidr(Ipv4Cidr { addr: 0, prefix: 0 }));
    }
    proof {
        if s@ == seq![42u8] {
            assert(s@.len() == 1);
            assert(s@[0] == 42);
        }
    }
    match find_byte(s, 47) {
        Some(i) => {
            let left = slice_subrange(s, 0, i);
            proof {
                assert(left@ =~= s@.take(i as int));
            }
            match parse_ipv4(left) {
                Some(ip) => {
                    let ptext = slice_subrange(s, i + 1, n);
                    proof {
                        assert(ptext@ =~= s@.skip(i as int + 1));
                    }
                    match parse_dec(ptext, 32) {
                        Some(p) => Ok(HostConfig::Cidr(Ipv4Cidr { addr: ip, prefix: p as u8 })),
                        None => Err(ParseErrorKind::Cidr),
                    }
                },
                None => Ok(HostConfig::DomainPattern(slice_to_vec(s))),
            }
        },
        None => match parse_ipv4(s) {
            Some(ip) => Ok(HostConfig::Cidr(Ipv4Cidr { addr: ip, prefix: 32 })),
            None => Ok(HostConfig::DomainPattern(slice_to_vec(s))),
        },
    }
}

pub open spec fn parse_port_spec(s: Seq<u8>) -> Option<PortConfig> {
    if s == seq![42u8] {
        Some(PortConfig::Any)
    } else {
        match find_byte_spec(s, 45) {
            None => if is_dec(s) && dec_val(s) <= 65535 {
                Some(PortConfig::Single(dec_val(s) as u16))
            } else {
                None
            },
            Some(i) => {
                let lo = s.take(i);
                let hi = s.skip(i + 1);
                if is_dec(lo) && dec_val(lo) <= 65535 && is_dec(hi) && dec_val(hi) <= 65535
                    && dec_val(lo) <= dec_val(hi) {
                    Some(PortConfig::Range(dec_val(lo) as u16, dec_val(hi) as u16))
                } else {
                    None
                }
            },
        }
    }
}

pub fn parse_port(s: &[u8]) -> (r: Option<PortConfig>)
    ensures
        r == parse_port_spec(s@),
{
    let n = s.len();
    if n == 1 && s[0] == 42 {
        proof {
            assert(s@ =~= seq![42u8]);
        }
        return Some(PortConfig::Any);
    }
    proof {
        if s@ == seq![42u8] {
            assert(s@.len() == 1);
            assert(s@[0] == 42);
        }
    }
    match find_byte(s, 45) {
        None => match parse_dec(s, 65535) {
            Some(v) => Some(PortConfig::Single(v as u16)),
            None => None,
        },
        Some(i) => {
            let left = slice_subrange(s, 0, i);
            let right = slice_subrange(s, i + 1, n);
            proof {
                assert(left@ =~= s@.take(i as int));
                assert(right@ =~= s@.skip(i as int + 1));
            }
            match (parse_dec(left, 65535), parse_dec(right, 65535)) {
                (Some(lo), Some(hi)) => if lo <= hi {
                    Some(PortConfig::Range(lo as u16, hi as u16))
                } else {
                    None
                },
                _ => None,
            }
        },
    }
}

// ---------------------------------------------------------------------------
// Whole rules
// ---------------------------------------------------------------------------

/// The grammar `scheme "://" host [":" port]`, as a function from rule text
/// to either the structured rule or the violated sub-grammar. The scheme
/// ends at the first `://`; the port, if any, starts after the last `:` of
/// the remainder.
pub open spec fn parse_rule_spec(s: Seq<u8>) -> Result<RuleV, ParseErrorKind> {
    match find_sub_spec(s, seq![58u8, 47u8, 47u8]) {
        None => Err(ParseErrorKind::MissingSeparator),
        Some(i) => match parse_scheme_spec(s.take(i)) {
            Err(k) => Err(k),
            Ok(scheme) => {
                let rest = s.skip(i + 3);
                match rfind_byte_spec(rest, 58) {
                    None => match parse_host_spec(rest) {
                        Err(k) => Err(k),
                        Ok(host) => Ok(RuleV { scheme, host, port: PortConfig::Any }),
                    },
                    Some(c) => match parse_host_spec(rest.take(c)) {
                        Err(k) => Err(k),
                        Ok(host) => match parse_port_spec(rest.skip(c + 1)) {
                            None => Err(ParseErrorKind::Port),
                            Some(port) => Ok(RuleV { scheme, host, port }),
                        },
                    },
                }
            },
        },
    }
}

/// Parses one raw rule. Exactly the rules in the grammar's language are
/// accepted; a rejected rule yields the violated sub-grammar and the rule
/// text itself.
pub fn parse(rule_text: &[u8]) -> (r: Result<OutboundAllowRule, ParseError>)
    ensures
        r matches Ok(x) ==> parse_rule_spec(rule_text@) == Ok::<RuleV, ParseErrorKind>(x@),
        r matches Err(e) ==> parse_rule_spec(rule_text@) == Err::<RuleV, ParseErrorKind>(e.kind)
            && e.rule@ == rule_text@,
{
    let n = rule_text.len();
    let mut sep: Vec<u8> = Vec::new();
    sep.push(58);
    sep.push(47);
    sep.push(47);
    proof {
        assert(sep@ =~= seq![58u8, 47u8, 47u8]);
    }
    let i = match find_sub(rule_text, sep.as_slice()) {
        None => {
            return Err(ParseError {
                rule: slice_to_vec(rule_text),
                kind: ParseErrorKind::MissingSeparator,
            });
        },
        Some(i) => i,
    };
    let scheme_text = slice_subrange(rule_text, 0, i);
    proof {
        assert(scheme_text@ =~= rule_text@.take(i as int));
    }
    let scheme = match parse_scheme(scheme_text) {
        Err(k) => {
            return Err(ParseError { rule: slice_to_vec(rule_text), kind: k });
        },
        Ok(sc) => sc,
    };
    let rest = slice_subrange(rule_text, i + 3, n);
    proof {
        assert(rest@ =~= rule_text@.skip(i as int + 3));
    }
    let rn = rest.len();
    match rfind_byte(rest, 58) {
        None => match parse_host(rest) {
            Err(k) => Err(ParseError { rule: slice_to_vec(rule_text), kind: k }),
            Ok(host) => Ok(OutboundAllowRule { scheme, host, port: PortConfig::Any }),
        },
        Some(c) => {
            let host_text = slice_subrange(rest, 0, c);
            let port_text = slice_subrange(rest, c + 1, rn);
            proof {
                assert(host_text@ =~= rest@.take(c as int));
                assert(port_text@ =~= rest@.skip(c as int + 1));
            }
            match parse_host(host_text) {
                Err(k) => Err(ParseError { rule: slice_to_vec(rule_text), kind: k }),
                Ok(host) => match parse_port(port_text) {
                    None => Err(ParseError {
                        rule: slice_to_vec(rule_text),
                        kind: ParseErrorKind::Port,
                    }),
                    Some(port) => Ok(OutboundAllowRule { scheme, host, port }),
                },
            }
        },
    }
}

} // verus!
