//! Variable-aware resolution: substituting `{{name}}` templates into raw
//! rules, parsing the result into a policy, the write-once resolution
//! outcome, and the per-application configuration table.
//!
//! The external variable service is an asynchronous lookup run by the
//! caller; this module works on the values it produced, as a table of
//! name/value pairs, so every step here is pure and verified. A variable the
//! table does not hold is a `VariableResolution` failure; a failure is
//! terminal for the component instance and fails closed.

use vstd::prelude::*;
use vstd::slice::{slice_subrange, slice_to_vec};
use crate::parse::{bytes_eq, find_sub, find_sub_spec, lemma_find_sub_bounds, parse, parse_rule_spec};
use crate::rule::{
    AllowedHostsConfig, ParseError, ParseErrorKind, PolicyV, OutboundAllowRule, RawRules,
    RawRulesV, ResolveErrV, ResolveError, RuleV, MissingComponentConfig, rules_view,
};

verus! {

/// How substituting templates into one rule can fail.
#[derive(Clone, Debug, PartialEq, Eq)]
pub enum SubstErr {
    /// A `{{` with no closing `}}`.
    Unterminated,
    /// A variable name the table does not hold.
    Missing(Vec<u8>),
}

pub enum SubstErrV {
    Unterminated,
    Missing(Seq<u8>),
}

impl View for SubstErr {
    type V = SubstErrV;

    open spec fn view(&self) -> SubstErrV {
        match self {
            SubstErr::Unterminated => SubstErrV::Unterminated,
            SubstErr::Missing(n) => SubstErrV::Missing(n@),
        }
    }
}

/// The variable table as a sequence of name/value pairs.
pub open spec fn table_view(vars: Seq<(Vec<u8>, Vec<u8>)>) -> Seq<(Seq<u8>, Seq<u8>)> {
    vars.map_values(|p: (Vec<u8>, Vec<u8>)| (p.0@, p.1@))
}

/// The value of the first table entry named `name`, if any.
pub open spec fn lookup_spec(vars: Seq<(Seq<u8>, Seq<u8>)>, name: Seq<u8>) -> Option<Seq<u8>>
    decreases vars.len(),
{
    if vars.len() == 0 {
        None
    } else if vars[0].0 == name {
        Some(vars[0].1)
    } else {
        lookup_spec(vars.skip(1), name)
    }
}

/// The rule text with every `{{name}}` template replaced, left to right, by
/// the table's value for `name`; replaced text is not rescanned. Fails on an
/// unterminated `{{` or on a name the table does not hold.
pub open spec fn subst_spec(s: Seq<u8>, vars: Seq<(Seq<u8>, Seq<u8>)>) -> Result<
    Seq<u8>,
    SubstErrV,
>
    decreases s.len(),
    via subst_spec_dec
{
    match find_sub_spec(s, seq![123u8, 123u8]) {
        None => Ok(s),
        Some(i) => {
            let after = s.skip(i + 2);
            match find_sub_spec(after, seq![125u8, 125u8]) {
                None => Err(SubstErrV::Unterminated),
                Some(j) => {
                    let name = after.take(j);
                    match lookup_spec(vars, name) {
                        None => Err(SubstErrV::Missing(name)),
                        Some(v) => match subst_spec(after.skip(j + 2), vars) {
                            Ok(t) => Ok(s.take(i) + v + t),
                            Err(e) => Err(e),
                        },
                    }
                },
            }
        },
    }
}

#[via_fn]
proof fn subst_spec_dec(s: Seq<u8>, vars: Seq<(Seq<u8>, Seq<u8>)>) {
    lemma_find_sub_bounds(s, seq![123u8, 123u8]);
    match find_sub_spec(s, seq![123u8, 123u8]) {
        Some(i) => {
            lemma_find_sub_bounds(s.skip(i + 2), seq![125u8, 125u8]);
        },
        None => {},
    }
}

/// The `{{name}}` template names embedded in the rule text, in order, or
/// `None` on an unterminated `{{`.
pub open spec fn template_vars_spec(s: Seq<u8>) -> Option<Seq<Seq<u8>>>
    decreases s.len(),
    via template_vars_spec_dec
{
    match find_sub_spec(s, seq![123u8, 123u8]) {
        None => Some(Seq::empty()),
        Some(i) => {
            let after = s.skip(i + 2);
            match find_sub_spec(after, seq![125u8, 125u8]) {
                None => None,
                Some(j) => match template_vars_spec(after.skip(j + 2)) {
                    None => None,
                    Some(rest) => Some(seq![after.take(j)] + rest),
                },
            }
        },
    }
}

#[via_fn]
proof fn template_vars_spec_dec(s: Seq<u8>) {
    lemma_find_sub_bounds(s, seq![123u8, 123u8]);
    match find_sub_spec(s, seq![123u8, 123u8]) {
        Some(i) => {
            lemma_find_sub_bounds(s.skip(i + 2), seq![125u8, 125u8]);
        },
        None => {},
    }
}

fn lookup(vars: &Vec<(Vec<u8>, Vec<u8>)>, name: &[u8]) -> (r: Option<Vec<u8>>)
    ensures
        match r {
            Some(v) => lookup_spec(table_view(vars@), name@) == Some(v@),
            None => lookup_spec(table_view(vars@), name@) is None,
        },
{
    let n = vars.len();
    let mut i: usize = 0;
    proof {
        assert(table_view(vars@).skip(0) =~= table_view(vars@));
    }
    while i < n
        invariant
            n == vars@.len(),
            i <= n,
            lookup_spec(table_view(vars@), name@) == lookup_spec(
                table_view(vars@).skip(i as int),
                name@,
            ),
        decreases n - i,
    {
        let pair = &vars[i];
        proof {
            assert(table_view(vars@).skip(i as int)[0] == table_view(vars@)[i as int]);
            assert(table_view(vars@).skip(i as int).skip(1) =~= table_view(vars@).skip(
                i as int + 1,
            ));
        }
        if bytes_eq(pair.0.as_slice(), name) {
            return Some(slice_to_vec(pair.1.as_slice()));
        }
        i += 1;
    }
    proof {
        assert(table_view(vars@).skip(n as int) =~= Seq::<(Seq<u8>, Seq<u8>)>::empty());
    }
    None
}

fn subst_rec(s: &[u8], vars: &Vec<(Vec<u8>, Vec<u8>)>) -> (r: Result<Vec<u8>, SubstErr>)
    ensures
        match r {
            Ok(t) => subst_spec(s@, table_view(vars@)) == Ok::<Seq<u8>, SubstErrV>(t@),
            Err(e) => subst_spec(s@, table_view(vars@)) == Err::<Seq<u8>, SubstErrV>(e@),
        },
    decreases s@.len(),
{
    let n = s.len();
    let mut open_pat: Vec<u8> = Vec::new();
    open_pat.push(123);
    open_pat.push(123);
    let mut close_pat: Vec<u8> = Vec::new();
    close_pat.push(125);
    close_pat.push(125);
    proof {
        assert(open_pat@ =~= seq![123u8, 123u8]);
        assert(close_pat@ =~= seq![125u8, 125u8]);
    }
    let i = match find_sub(s, open_pat.as_slice()) {
        None => {
            return Ok(slice_to_vec(s));
        },
        Some(i) => i,
    };
    let after = slice_subrange(s, i + 2, n);
    proof {
        assert(after@ =~= s@.skip(i as int + 2));
    }
    let an = after.len();
    let j = match find_sub(after, close_pat.as_slice()) {
        None => {
            return Err(SubstErr::Unterminated);
        },
        Some(j) => j,
    };
    let name = slice_subrange(after, 0, j);
    proof {
        assert(name@ =~= after@.take(j as int));
    }
    let v = match lookup(vars, name) {
        None => {
            return Err(SubstErr::Missing(slice_to_vec(name)));
        },
        Some(v) => v,
    };
    let tail_text = slice_subrange(after, j + 2, an);
    proof {
        assert(tail_text@ =~= after@.skip(j as int + 2));
    }
    match subst_rec(tail_text, vars) {
        Err(e) => Err(e),
        Ok(t) => {
            let mut out = slice_to_vec(slice_subrange(s, 0, i));
            let mut v2 = v;
            let mut t2 = t;
            proof {
                assert(out@ =~= s@.take(i as int));
            }
            out.append(&mut v2);
            out.append(&mut t2);
            proof {
                assert(out@ =~= s@.take(i as int) + v@ + t@);
            }
            Ok(out)
        },
    }
}

/// What a substitution failure means for resolution: an unterminated
/// template is a parse error of the raw rule; a missing variable is a
/// variable-resolution failure.
pub open spec fn resolve_err_of(rule: Seq<u8>, e: SubstErrV) -> ResolveErrV {
    match e {
        SubstErrV::Unterminated => ResolveErrV::Parse(rule, ParseErrorKind::Template),
        SubstErrV::Missing(n) => ResolveErrV::VariableResolution(n),
    }
}

/// Substitutes every `{{name}}` template in one raw rule from the variable
/// table: exactly `subst_spec(rule_text@, table_view(vars@))`, a failure
/// mapped by `resolve_err_of`.
pub fn substitute(rule_text: &[u8], vars: &Vec<(Vec<u8>, Vec<u8>)>) -> (r: Result<
    Vec<u8>,
    ResolveError,
>)
    ensures
        r matches Ok(t) ==> subst_spec(rule_text@, table_view(vars@)) == Ok::<Seq<u8>, SubstErrV>(
            t@,
        ),
        r matches Err(e) ==> (subst_spec(rule_text@, table_view(vars@)) matches Err(se)
            && e@ == resolve_err_of(rule_text@, se)),
{
    match subst_rec(rule_text, vars) {
        Ok(t) => Ok(t),
        Err(SubstErr::Unterminated) => Err(ResolveError::Parse(ParseError {
            rule: slice_to_vec(rule_text),
            kind: ParseErrorKind::Template,
        })),
        Err(SubstErr::Missing(nm)) => Err(ResolveError::VariableResolution(nm)),
    }
}

/// The template names embedded in one raw rule, in order, for the caller to
/// look up before substitution; an unterminated `{{` is a parse error naming
/// the rule.
pub fn template_vars(rule_text: &[u8]) -> (r: Result<Vec<Vec<u8>>, ParseError>)
    ensures
        r matches Ok(v) ==> template_vars_spec(rule_text@) == Some(v.deep_view()),
        r matches Err(e) ==> template_vars_spec(rule_text@) is None && e.rule@ == rule_text@
            && e.kind == ParseErrorKind::Template,
    decreases rule_text@.len(),
{
    let n = rule_text.len();
    let mut open_pat: Vec<u8> = Vec::new();
    open_pat.push(123);
    open_pat.push(123);
    let mut close_pat: Vec<u8> = Vec::new();
    close_pat.push(125);
    close_pat.push(125);
    proof {
        assert(open_pat@ =~= seq![123u8, 123u8]);
        assert(close_pat@ =~= seq![125u8, 125u8]);
    }
    let i = match find_sub(rule_text, open_pat.as_slice()) {
        None => {
            let out: Vec<Vec<u8>> = Vec::new();
            proof {
                assert(out.deep_view() =~~= Seq::<Seq<u8>>::empty());
            }
            return Ok(out);
        },
        Some(i) => i,
    };
    let after = slice_subrange(rule_text, i + 2, n);
    proof {
        assert(after@ =~= rule_text@.skip(i as int + 2));
    }
    let an = after.len();
    let j = match find_sub(after, close_pat.as_slice()) {
        None => {
            return Err(ParseError {
                rule: slice_to_vec(rule_text),
                kind: ParseErrorKind::Template,
            });
        },
        Some(j) => j,
    };
    let name = slice_subrange(after, 0, j);
    let tail_text = slice_subrange(after, j + 2, an);
    proof {
        assert(name@ =~= after@.take(j as int));
        assert(tail_text@ =~= after@.skip(j as int + 2));
    }
    match template_vars(tail_text) {
        Err(_) => Err(ParseError { rule: slice_to_vec(rule_text), kind: ParseErrorKind::Template }),
        Ok(rest) => {
            let ghost rest_snap = rest.deep_view();
            let mut out: Vec<Vec<u8>> = Vec::new();
            out.push(slice_to_vec(name));
            let mut rest2 = rest;
            out.append(&mut rest2);
            proof {
                assert(out.deep_view() =~~= seq![name@] + rest_snap);
            }
            Ok(out)
        },
    }
}

/// The rules of a component, substituted and parsed in order; the first
/// failure wins and fails the whole list.
pub open spec fn resolve_list_spec(rs: Seq<Seq<u8>>, vars: Seq<(Seq<u8>, Seq<u8>)>) -> Result<
    Seq<RuleV>,
    ResolveErrV,
>
    decreases rs.len(),
{
    if rs.len() == 0 {
        Ok(Seq::empty())
    } else {
        let first = rs[0];
        match subst_spec(first, vars) {
            Err(e) => Err(resolve_err_of(first, e)),
            Ok(t) => match parse_rule_spec(t) {
                Err(k) => Err(ResolveErrV::Parse(t, k)),
                Ok(r) => match resolve_list_spec(rs.skip(1), vars) {
                    Err(e) => Err(e),
                    Ok(rest) => Ok(seq![r] + rest),
                },
            },
        }
    }
}

/// What resolution yields: the allow-all sentinel becomes `All` with no
/// substitution or parsing; a rule list becomes `SpecificHosts` of the rules
/// resolved in order, or the first failure.
pub open spec fn resolve_spec(raw: RawRulesV, vars: Seq<(Seq<u8>, Seq<u8>)>) -> Result<
    PolicyV,
    ResolveErrV,
> {
    match raw {
        RawRulesV::AllowAll => Ok(PolicyV::All),
        RawRulesV::List(rs) => match resolve_list_spec(rs, vars) {
            Ok(rules) => Ok(PolicyV::SpecificHosts(rules)),
            Err(e) => Err(e),
        },
    }
}

fn resolve_list(rs: &Vec<Vec<u8>>, from: usize, vars: &Vec<(Vec<u8>, Vec<u8>)>) -> (r: Result<
    Vec<OutboundAllowRule>,
    ResolveError,
>)
    requires
        from <= rs@.len(),
    ensures
        match r {
            Ok(v) => resolve_list_spec(rs.deep_view().skip(from as int), table_view(vars@))
                == Ok::<Seq<RuleV>, ResolveErrV>(rules_view(v@)),
            Err(e) => resolve_list_spec(rs.deep_view().skip(from as int), table_view(vars@))
                == Err::<Seq<RuleV>, ResolveErrV>(e@),
        },
    decreases rs@.len() - from,
{
    proof {
        assert(rs.deep_view().len() == rs@.len());
    }
    if from == rs.len() {
        let out: Vec<OutboundAllowRule> = Vec::new();
        proof {
            assert(rs.deep_view().skip(from as int) =~= Seq::<Seq<u8>>::empty());
            assert(rules_view(out@) =~= Seq::<RuleV>::empty());
        }
        return Ok(out);
    }
    proof {
        assert(rs.deep_view().skip(from as int)[0] == rs.deep_view()[from as int]);
        assert(rs.deep_view()[from as int] =~= rs@[from as int]@);
        assert(rs.deep_view().skip(from as int).skip(1) =~= rs.deep_view().skip(from as int + 1));
    }
    let text = match substitute(rs[from].as_slice(), vars) {
        Err(e) => {
            return Err(e);
        },
        Ok(t) => t,
    };
    let parsed = match parse(text.as_slice()) {
        Err(e) => {
            return Err(ResolveError::Parse(e));
        },
        Ok(x) => x,
    };
    match resolve_list(rs, from + 1, vars) {
        Err(e) => Err(e),
        Ok(rest) => {
            let ghost rest_snap = rest@;
            let mut out: Vec<OutboundAllowRule> = Vec::new();
            out.push(parsed);
            let mut rest2 = rest;
            out.append(&mut rest2);
            proof {
                assert(rules_view(out@) =~= seq![parsed@] + rules_view(rest_snap));
            }
            Ok(out)
        },
    }
}

/// Resolves a component's declared destinations against the variable table:
/// exactly `resolve_spec(raw@, table_view(vars@))`. The allow-all sentinel
/// skips substitution and parsing; otherwise every rule is substituted and
/// parsed, and the first failure fails the whole policy — a bad rule is
/// never silently dropped.
pub fn resolve_rules(raw: &RawRules, vars: &Vec<(Vec<u8>, Vec<u8>)>) -> (r: Result<
    AllowedHostsConfig,
    ResolveError,
>)
    ensures
        r matches Ok(c) ==> resolve_spec(raw@, table_view(vars@)) == Ok::<PolicyV, ResolveErrV>(
            c@,
        ),
        r matches Err(e) ==> resolve_spec(raw@, table_view(vars@)) == Err::<PolicyV, ResolveErrV>(
            e@,
        ),
{
    match raw {
        RawRules::AllowAll => Ok(AllowedHostsConfig::All),
        RawRules::List(rs) => {
            proof {
                assert(rs.deep_view().skip(0) =~= rs.deep_view());
            }
            match resolve_list(rs, 0, vars) {
                Err(e) => Err(e),
                Ok(v) => Ok(AllowedHostsConfig::SpecificHosts(v)),
            }
        },
    }
}

/// The per-instance resolution outcome: write-once, then shared read-only.
///
/// The cell starts unresolved; `complete` may be called exactly once, when
/// the single resolution computation finishes; every later read observes
/// that same outcome, success or failure alike. Failures are terminal and
/// cached: resolution is never retried within an instance's life, so every
/// concurrent reader sees the identical outcome.
pub struct ResolutionCell {
    outcome: Option<Result<AllowedHostsConfig, ResolveError>>,
}

impl ResolutionCell {
    /// The stored outcome, if resolution has completed.
    pub closed spec fn outcome_spec(&self) -> Option<Result<AllowedHostsConfig, ResolveError>> {
        self.outcome
    }

    pub open spec fn is_resolved(&self) -> bool {
        self.outcome_spec() is Some
    }

    pub fn new() -> (c: ResolutionCell)
        ensures
            !c.is_resolved(),
    {
        ResolutionCell { outcome: None }
    }

    /// Fixes the outcome, once: callable only while unresolved, so the first
    /// completion is the value every reader observes for the cell's
    /// lifetime.
    pub fn complete(&mut self, o: Result<AllowedHostsConfig, ResolveError>)
        requires
            !old(self).is_resolved(),
        ensures
            final(self).outcome_spec() == Some(o),
    {
        self.outcome = Some(o);
    }

    /// Reads the outcome: `None` while unresolved, afterwards always the one
    /// completed value.
    pub fn get(&self) -> (r: Option<&Result<AllowedHostsConfig, ResolveError>>)
        ensures
            match r {
                Some(v) => self.outcome_spec() == Some(*v),
                None => !self.is_resolved(),
            },
    {
        match &self.outcome {
            Some(v) => Some(v),
            None => None,
        }
    }
}

/// The first-declared rules for a component id, if any.
pub open spec fn config_lookup(entries: Seq<(Seq<u8>, RawRulesV)>, id: Seq<u8>) -> Option<
    RawRulesV,
>
    decreases entries.len(),
{
    if entries.len() == 0 {
        None
    } else if entries[0].0 == id {
        Some(entries[0].1)
    } else {
        config_lookup(entries.skip(1), id)
    }
}

/// The application-level configuration: each component's declared
/// destinations, keyed by component id.
pub struct AppConfig {
    entries: Vec<(Vec<u8>, RawRules)>,
}

impl AppConfig {
    pub closed spec fn entries_spec(&self) -> Seq<(Seq<u8>, RawRulesV)> {
        self.entries@.map_values(|p: (Vec<u8>, RawRules)| (p.0@, p.1@))
    }

    pub fn new() -> (c: AppConfig)
        ensures
            c.entries_spec() == Seq::<(Seq<u8>, RawRulesV)>::empty(),
    {
        let c = AppConfig { entries: Vec::new() };
        proof {
            assert(c.entries_spec() =~= Seq::<(Seq<u8>, RawRulesV)>::empty());
        }
        c
    }

    /// Declares a component's destinations. The first entry for an id wins
    /// on lookup, so an id is declared once.
    pub fn insert(&mut self, id: Vec<u8>, rules: RawRules)
        ensures
            final(self).entries_spec() == old(self).entries_spec().push((id@, rules@)),
    {
        let ghost old_entries = self.entries@;
        self.entries.push((id, rules));
        proof {
            assert(self.entries_spec() =~= old(self).entries_spec().push((id@, rules@)));
        }
    }

    /// The declared destinations of one component. A component with no
    /// declared policy at all is a caller bug, raised here, synchronously,
    /// as `MissingComponentConfig`.
    pub fn component_allowed_hosts(&self, id: &[u8]) -> (r: Result<
        &RawRules,
        MissingComponentConfig,
    >)
        ensures
            match r {
                Ok(rr) => config_lookup(self.entries_spec(), id@) == Some(rr@),
                Err(_) => config_lookup(self.entries_spec(), id@) is None,
            },
    {
        let n = self.entries.len();
        let mut i: usize = 0;
        proof {
            assert(self.entries_spec().skip(0) =~= self.entries_spec());
        }
        while i < n
            invariant
                n == self.entries@.len(),
                i <= n,
                config_lookup(self.entries_spec(), id@) == config_lookup(
                    self.entries_spec().skip(i as int),
                    id@,
                ),
            decreases n - i,
        {
            let pair = &self.entries[i];
            proof {
                assert(self.entries_spec().skip(i as int)[0] == self.entries_spec()[i as int]);
                assert(self.entries_spec().skip(i as int).skip(1) =~= self.entries_spec().skip(
                    i as int + 1,
                ));
            }
            if bytes_eq(pair.0.as_slice(), id) {
                return Ok(&pair.1);
            }
            i += 1;
        }
        proof {
            assert(self.entries_spec().skip(n as int) =~= Seq::<(Seq<u8>, RawRulesV)>::empty());
        }
        Err(MissingComponentConfig)
    }
}

} // verus!
