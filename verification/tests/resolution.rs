use std::sync::atomic::{AtomicUsize, Ordering};
use std::sync::Arc;

use futures::executor::block_on;
use futures::FutureExt;

use outbound_networking::resolve::{
    resolve_rules, substitute, template_vars, AppConfig, ResolutionCell,
};
use outbound_networking::rule::{
    AllowedHostsConfig, HostConfig, Ipv4Cidr, ParseErrorKind, PortConfig, RawRules, ResolveError,
    SchemeConfig,
};

fn vars(pairs: &[(&[u8], &[u8])]) -> Vec<(Vec<u8>, Vec<u8>)> {
    pairs.iter().map(|(k, v)| (k.to_vec(), v.to_vec())).collect()
}

#[test]
fn substitutes_templates_left_to_right() {
    let table = vars(&[(b"host", b"example.com"), (b"port", b"443")]);
    let out = substitute(b"https://{{host}}:{{port}}", &table).unwrap();
    assert_eq!(out, b"https://example.com:443".to_vec());
}

#[test]
fn substitution_without_templates_is_identity() {
    let out = substitute(b"https://example.com:443", &vars(&[])).unwrap();
    assert_eq!(out, b"https://example.com:443".to_vec());
}

#[test]
fn substituted_values_are_not_rescanned() {
    let table = vars(&[(b"a", b"{{b}}"), (b"b", b"never")]);
    let out = substitute(b"x{{a}}y", &table).unwrap();
    assert_eq!(out, b"x{{b}}y".to_vec());
}

#[test]
fn missing_variable_fails_resolution() {
    let e = substitute(b"https://{{api_key}}.example.com:443", &vars(&[])).unwrap_err();
    assert_eq!(e, ResolveError::VariableResolution(b"api_key".to_vec()));
}

#[test]
fn unterminated_template_is_a_parse_error() {
    let e = substitute(b"https://{{api_key", &vars(&[])).unwrap_err();
    match e {
        ResolveError::Parse(pe) => {
            assert_eq!(pe.kind, ParseErrorKind::Template);
            assert_eq!(pe.rule, b"https://{{api_key".to_vec());
        },
        other => panic!("expected a template parse error, got {:?}", other),
    }
}

#[test]
fn template_vars_lists_names_in_order() {
    let names = template_vars(b"{{a}}://{{b}}.test:{{c}}").unwrap();
    assert_eq!(names, vec![b"a".to_vec(), b"b".to_vec(), b"c".to_vec()]);
    assert_eq!(template_vars(b"https://example.com").unwrap(), Vec::<Vec<u8>>::new());
    assert!(template_vars(b"https://{{oops").is_err());
}

#[test]
fn resolves_a_rule_list_in_order() {
    let raw = RawRules::List(vec![
        b"https://{{host}}:443".to_vec(),
        b"*://10.0.0.0/8:*".to_vec(),
    ]);
    let table = vars(&[(b"host", b"example.com")]);
    let policy = resolve_rules(&raw, &table).unwrap();
    match policy {
        AllowedHostsConfig::SpecificHosts(rules) => {
            assert_eq!(rules.len(), 2);
            assert_eq!(rules[0].scheme, SchemeConfig::OneOf(vec![b"https".to_vec()]));
            assert_eq!(rules[0].host, HostConfig::DomainPattern(b"example.com".to_vec()));
            assert_eq!(rules[0].port, PortConfig::Single(443));
            assert_eq!(rules[1].scheme, SchemeConfig::Any);
            assert_eq!(rules[1].host, HostConfig::Cidr(Ipv4Cidr { addr: 167_772_160, prefix: 8 }));
        },
        other => panic!("expected specific hosts, got {:?}", other),
    }
}

#[test]
fn allow_all_sentinel_skips_substitution_and_parsing() {
    // the undefined {{x}} is never looked at
    let policy = resolve_rules(&RawRules::AllowAll, &vars(&[])).unwrap();
    assert_eq!(policy, AllowedHostsConfig::All);
}

#[test]
fn one_bad_rule_fails_the_whole_policy() {
    let raw = RawRules::List(vec![
        b"https://example.com:443".to_vec(),
        b"nonsense".to_vec(),
    ]);
    let e = resolve_rules(&raw, &vars(&[])).unwrap_err();
    match e {
        ResolveError::Parse(pe) => {
            assert_eq!(pe.kind, ParseErrorKind::MissingSeparator);
            assert_eq!(pe.rule, b"nonsense".to_vec());
        },
        other => panic!("expected a parse error, got {:?}", other),
    }
}

#[test]
fn resolution_cell_is_write_once() {
    let mut cell = ResolutionCell::new();
    assert!(cell.get().is_none());
    let policy = resolve_rules(
        &RawRules::List(vec![b"*://10.0.0.0/8:*".to_vec()]),
        &vars(&[]),
    );
    cell.complete(policy.clone());
    assert_eq!(cell.get(), Some(&policy));
    // a later read observes the identical outcome
    assert_eq!(cell.get(), Some(&policy));
}

#[test]
fn app_config_lookup_and_missing_component() {
    let mut config = AppConfig::new();
    config.insert(
        b"frontend".to_vec(),
        RawRules::List(vec![b"https://example.com:443".to_vec()]),
    );
    config.insert(b"batch".to_vec(), RawRules::AllowAll);
    assert_eq!(
        config.component_allowed_hosts(b"batch").unwrap(),
        &RawRules::AllowAll
    );
    assert!(config.component_allowed_hosts(b"frontend").is_ok());
    // a component with no declared policy is a caller bug, raised synchronously
    assert!(config.component_allowed_hosts(b"unknown").is_err());
}

#[test]
fn concurrent_resolution_runs_the_lookup_pass_once() {
    let lookups = Arc::new(AtomicUsize::new(0));
    let counted = lookups.clone();
    let shared = async move {
        // one variable-lookup pass plus substitution and parsing
        counted.fetch_add(1, Ordering::SeqCst);
        let table = vars(&[(b"host", b"example.com")]);
        let raw = RawRules::List(vec![b"https://{{host}}:443".to_vec()]);
        Arc::new(resolve_rules(&raw, &table))
    }
    .boxed()
    .shared();

    let first = block_on(shared.clone());
    let second = block_on(shared.clone());
    assert_eq!(lookups.load(Ordering::SeqCst), 1, "the work ran exactly once");
    assert!(Arc::ptr_eq(&first, &second), "every caller observes the same outcome");
    assert!(first.is_ok());
}

#[test]
fn concurrent_resolution_shares_the_same_failure() {
    let runs = Arc::new(AtomicUsize::new(0));
    let counted = runs.clone();
    let shared = async move {
        counted.fetch_add(1, Ordering::SeqCst);
        let raw = RawRules::List(vec![b"https://{{api_key}}.test:443".to_vec()]);
        Arc::new(resolve_rules(&raw, &vars(&[])))
    }
    .boxed()
    .shared();

    let first = block_on(shared.clone());
    let second = block_on(shared.clone());
    assert_eq!(runs.load(Ordering::SeqCst), 1, "a failure is cached, never retried");
    assert!(Arc::ptr_eq(&first, &second), "every caller sees the identical error");
    assert_eq!(
        *first.as_ref().as_ref().unwrap_err(),
        ResolveError::VariableResolution(b"api_key".to_vec())
    );
}
