use scopes_rs::error::ScopeParseError;
use scopes_rs::policy::{IntoPolicy, Policy};
use scopes_rs::registry::Registry;
use scopes_rs::scope::{ScopeDescriptor, ScopeId};

const FOO: ScopeId = 0;
const FOO_BAR: ScopeId = 1;
const BAZ: ScopeId = 2;
const BAR: ScopeId = 3;

fn labels(parts: &[&str]) -> Vec<String> {
    parts.iter().map(|p| p.to_string()).collect()
}

fn my_scopes(hierarchy: bool) -> Registry {
    let descriptors = vec![
        ScopeDescriptor::new(labels(&["foo"])),
        ScopeDescriptor::new(labels(&["foo", "bar"])),
        ScopeDescriptor::new(labels(&["baz"])),
        ScopeDescriptor::new(labels(&["bar"])),
    ];
    Registry::build(descriptors, ".".to_string(), String::new(), hierarchy).expect("distinct names")
}

#[test]
fn test_parsing() {
    let reg = my_scopes(true);
    assert_eq!(FOO, reg.parse("foo").expect("Could not parse scope"));
    assert_eq!(FOO_BAR, reg.parse("foo.bar").expect("Could not parse scope"));
    assert_eq!(BAZ, reg.parse("baz").expect("Could not parse scope"));
}

#[test]
fn test_invalid_parsing() {
    let reg = my_scopes(true);
    assert!(reg.parse("not_a_scope").is_err());
    assert!(reg.parse("foobar").is_err());
    assert!(reg.parse("").is_err());

    match reg.parse("") {
        Ok(_) => panic!("Parsing an empty string should return an error"),
        Err(ScopeParseError(name)) => assert_eq!(name, ""),
    }
}

#[test]
fn test_simple_policy() {
    let reg = my_scopes(true);
    let single_scope = FOO.into_policy();

    assert!(single_scope.verify(&reg, &[FOO]));
    assert!(!single_scope.verify(&reg, &[FOO_BAR]));

    let accept_all = Policy::AllowAll;

    assert!(accept_all.verify(&reg, &Vec::<&ScopeId>::new()));

    let reject_all = accept_all.not();

    assert!(!reject_all.verify(&reg, &Vec::<&ScopeId>::new()));
    assert!(!reject_all.verify(&reg, &[FOO, FOO_BAR, BAZ, BAR]));
}

fn foobar_or_bar_and_baz() -> Policy {
    FOO_BAR.into_policy().or(BAR.into_policy().and(BAZ.into_policy()))
}

#[test]
fn test_complex_policy() {
    let reg = my_scopes(true);
    let policy = foobar_or_bar_and_baz();

    assert!(policy.verify(&reg, &[FOO_BAR]));
    assert!(policy.verify(&reg, &[BAR, BAZ]));
    assert!(policy.verify(&reg, &[BAR, FOO_BAR, BAZ]));
    assert!(!policy.verify(&reg, &[BAR]));
    assert!(!policy.verify(&reg, &[BAZ]));

    // "hierarchy" enabled: Foo includes FooBar.
    assert!(policy.verify(&reg, &[FOO]));

    let flat = my_scopes(false);
    assert!(!policy.verify(&flat, &[FOO]));

    let not_baz = BAZ.into_policy().not();

    assert!(not_baz.verify(&reg, &Vec::<&ScopeId>::new()));
    assert!(not_baz.verify(&reg, &[FOO]));
    assert!(!not_baz.verify(&reg, &[BAZ]));
}

#[test]
fn test_hierarchy() {
    let reg = my_scopes(true);

    assert!(reg.includes(FOO, FOO));
    assert!(reg.includes(FOO, FOO_BAR));
    assert!(!reg.includes(FOO, BAR));
    assert!(!reg.includes(FOO, BAZ));

    assert!(!reg.includes(FOO_BAR, FOO));
    assert!(reg.includes(FOO_BAR, FOO_BAR));
    assert!(!reg.includes(FOO_BAR, BAR));
    assert!(!reg.includes(FOO_BAR, BAZ));

    assert!(!reg.includes(BAR, FOO));
    assert!(!reg.includes(BAR, FOO_BAR));
    assert!(reg.includes(BAR, BAR));
    assert!(!reg.includes(BAR, BAZ));

    assert!(!reg.includes(BAZ, FOO));
    assert!(!reg.includes(BAZ, FOO_BAR));
    assert!(!reg.includes(BAZ, BAR));
    assert!(reg.includes(BAZ, BAZ));
}

#[test]
fn scenario_policy_over_four_scopes() {
    // FooBar OR (Bar AND Baz), with and without the hierarchy.
    let policy = foobar_or_bar_and_baz();
    let reg = my_scopes(true);
    assert_eq!(
        policy,
        Policy::OneOf(vec![
            Policy::Scope(FOO_BAR),
            Policy::AllOf(vec![Policy::Scope(BAR), Policy::Scope(BAZ)]),
        ])
    );
    assert!(policy.verify(&reg, &[FOO_BAR]));
    assert!(policy.verify(&reg, &[BAR, BAZ]));
    assert!(!policy.verify(&reg, &[BAR]));
    assert!(!policy.verify(&reg, &[BAZ]));
    assert!(policy.verify(&reg, &[FOO]));
    assert!(!policy.verify(&my_scopes(false), &[FOO]));
}

#[test]
fn full_names_and_lookup() {
    let reg = my_scopes(true);
    assert_eq!(reg.len(), 4);
    assert_eq!(reg.full_name(FOO_BAR), "foo.bar");
    assert_eq!(reg.name(FOO_BAR), "foo.bar");
    assert_eq!(reg.lookup_by_name("bar"), Some(BAR));
    assert_eq!(reg.lookup_by_name("foo.baz"), None);
    assert_eq!(reg.lookup_by_id(BAZ).labels, labels(&["baz"]));
    assert!(reg.hierarchy_enabled());
    assert!(!my_scopes(false).hierarchy_enabled());
}
