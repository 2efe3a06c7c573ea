use scopes_rs::builder::PolicyBuilder;
use scopes_rs::policy::{IntoPolicy, Policy};
use scopes_rs::scope::ScopeId;

const FOO: ScopeId = 0;
const BAR: ScopeId = 1;

#[test]
fn test_default_policy() {
    let policy = PolicyBuilder::new().build();

    assert_eq!(Policy::DenyAll, policy);
}

#[test]
fn test_default_builder() {
    assert_eq!(PolicyBuilder::default(), PolicyBuilder::new())
}

#[test]
fn test_syntactic_sugar() {
    // Constructors: "foo" and "bar"
    let scopes = vec![FOO, BAR];

    assert_eq!(PolicyBuilder::all_of(scopes.clone()), PolicyBuilder::new().require_all(scopes.clone()));
    assert_eq!(PolicyBuilder::one_of(scopes.clone()), PolicyBuilder::new().require_any(scopes.clone()));

    let policy = FOO.into_policy();

    assert_eq!(PolicyBuilder::not(policy.clone()), PolicyBuilder::from_policy(policy.not()));

    let builder = PolicyBuilder::from_policy(FOO);

    assert_eq!(builder.clone().and(BAR), builder.clone().require_all(vec![BAR]));

    assert_eq!(builder.clone().or(BAR), PolicyBuilder::from_policy(FOO.into_policy().or(BAR.into_policy())));

    let scope = FOO;

    assert_eq!(PolicyBuilder::new().require(scope), PolicyBuilder::from_policy(scope));
}

#[test]
fn builder_test_complex_policy() {
    let (admin, user, muted, bar, baz, foo): (ScopeId, ScopeId, ScopeId, ScopeId, ScopeId, ScopeId) = (0, 1, 2, 3, 4, 5);

    let expected = Policy::OneOf(vec![
        Policy::Scope(admin),
        Policy::AllOf(vec![Policy::Scope(user), Policy::Scope(muted).not()]),
        Policy::AllOf(vec![
            Policy::OneOf(vec![Policy::Scope(bar), Policy::Scope(baz)]),
            Policy::Scope(foo),
        ]),
    ]);

    let policy = PolicyBuilder::new()
        .require(admin)
        .or(PolicyBuilder::not(muted).and(user))
        .or(PolicyBuilder::new().require(foo).and(PolicyBuilder::one_of(vec![bar, baz])))
        .build();

    assert_eq!(expected, policy);
}

#[test]
fn scenario_builder_defaults() {
    assert_eq!(PolicyBuilder::new().build(), Policy::DenyAll);
    assert_eq!(PolicyBuilder::new().require(FOO).build(), Policy::Scope(FOO));
    assert_eq!(Policy::builder().build(), Policy::DenyAll);
}

#[test]
fn require_on_existing_policy() {
    let built = PolicyBuilder::new().require(FOO).require(BAR).build();
    assert_eq!(built, Policy::AllOf(vec![Policy::Scope(FOO), Policy::Scope(BAR)]));
    let any = PolicyBuilder::from_policy(FOO).require_any(vec![BAR]).build();
    assert_eq!(any, Policy::AllOf(vec![Policy::Scope(FOO), Policy::OneOf(vec![Policy::Scope(BAR)])]));
    assert_eq!(PolicyBuilder::new().or(BAR).build(), Policy::Scope(BAR));
    assert_eq!(PolicyBuilder::from_policy(PolicyBuilder::new()).build(), Policy::DenyAll);
}
