use scopes_rs::graph::InclusionGraph;
use scopes_rs::hierarchy::{Hierarchized, RegisteredScope};
use scopes_rs::registry::Registry;
use scopes_rs::scope::{ScopeDescriptor, ScopeId, starts_with_labels};

const FOO: ScopeId = 0;
const FOO_READONLY: ScopeId = 1;
const FOO_BAR: ScopeId = 2;
const FOO_BAR_READONLY: ScopeId = 3;
const READONLY: ScopeId = 4;
const BAR: ScopeId = 5;
const BAR_READONLY: ScopeId = 6;
const ALL: [ScopeId; 7] = [FOO, FOO_READONLY, FOO_BAR, FOO_BAR_READONLY, READONLY, BAR, BAR_READONLY];

fn labels(parts: &[&str]) -> Vec<String> {
    parts.iter().map(|p| p.to_string()).collect()
}

fn my_scopes() -> Registry {
    let descriptors = vec![
        ScopeDescriptor::new(labels(&["foo"])),
        ScopeDescriptor::new(labels(&["foo", "readonly"])).including(FOO_BAR_READONLY),
        ScopeDescriptor::new(labels(&["foo", "bar"])),
        ScopeDescriptor::new(labels(&["foo", "bar", "readonly"])),
        ScopeDescriptor::new(labels(&["readonly"])).including(FOO_READONLY).including(BAR_READONLY),
        ScopeDescriptor::new(labels(&["bar"])),
        ScopeDescriptor::new(labels(&["bar", "readonly"])),
    ];
    Registry::build(descriptors, ".".to_string(), String::new(), true).expect("distinct names")
}

#[test]
fn test_manual_include() {
    let reg = my_scopes();
    assert!(reg.includes(READONLY, FOO_READONLY));
    assert!(reg.includes(READONLY, BAR_READONLY));

    // FooReadonly includes FooBarReadonly so Readonly should also include it
    assert!(reg.includes(READONLY, FOO_BAR_READONLY));
}

#[test]
fn test_self_inclusion() {
    let reg = my_scopes();
    let foo = RegisteredScope::new(&reg, FOO);
    assert!(foo.includes(&foo));
    assert!(foo.included_in(&foo));
}

#[test]
fn test_label_include() {
    let reg = my_scopes();
    assert!(reg.includes(FOO, FOO_BAR));
    assert!(reg.includes(FOO, FOO_READONLY));
    assert!(reg.includes(FOO, FOO_BAR_READONLY));

    assert!(reg.includes(BAR, BAR_READONLY));
    assert!(!reg.includes(BAR, FOO_BAR));
}

fn expected_includes(a: ScopeId, b: ScopeId) -> bool {
    if a == b {
        return true;
    }
    match a {
        FOO => matches!(b, FOO_BAR | FOO_READONLY | FOO_BAR_READONLY),
        FOO_READONLY => matches!(b, FOO_BAR_READONLY),
        FOO_BAR => matches!(b, FOO_BAR_READONLY),
        FOO_BAR_READONLY => false,
        READONLY => matches!(b, BAR_READONLY | FOO_READONLY | FOO_BAR_READONLY),
        BAR => matches!(b, BAR_READONLY),
        BAR_READONLY => false,
        _ => unreachable!(),
    }
}

#[test]
fn test_reference_hierarchy() {
    let reg = my_scopes();
    for a in ALL {
        for b in ALL {
            assert_eq!(reg.includes(a, b), expected_includes(a, b));
            let (sa, sb) = (RegisteredScope::new(&reg, a), RegisteredScope::new(&reg, b));
            assert_eq!(sa.includes(&sb), expected_includes(a, b));
            assert_eq!(sa.included_in(&sb), expected_includes(b, a));
        }
    }
}

#[test]
fn scenario_transitive_manual_include() {
    // Readonly names FooReadonly, which names FooBarReadonly: no direct edge to it.
    let reg = my_scopes();
    assert!(!reg.graph().get_included_in(READONLY).is_empty());
    assert!(reg.includes(READONLY, FOO_BAR_READONLY));
    assert!(reg.included_in(FOO_BAR_READONLY, READONLY));
    assert!(!reg.includes(FOO_BAR_READONLY, READONLY));
}

#[test]
fn label_then_explicit_chain_is_transitive() {
    // Foo includes FooReadonly by labels; FooReadonly names FooBarReadonly explicitly.
    let descriptors = vec![
        ScopeDescriptor::new(labels(&["foo"])),
        ScopeDescriptor::new(labels(&["foo", "x"])).including(2),
        ScopeDescriptor::new(labels(&["zed"])),
    ];
    let reg = Registry::build(descriptors, ".".to_string(), String::new(), true).expect("distinct names");
    assert!(reg.includes(0, 2));
    assert!(!reg.includes(2, 0));
}

#[test]
fn cycle_of_explicit_inclusions_terminates() {
    let descriptors = vec![
        ScopeDescriptor::new(labels(&["a"])).including(1),
        ScopeDescriptor::new(labels(&["b"])).including(0),
        ScopeDescriptor::new(labels(&["c"])),
    ];
    let reg = Registry::build(descriptors, ".".to_string(), String::new(), true).expect("distinct names");
    let mut from_a = reg.graph().get_included_in(0);
    from_a.sort();
    assert_eq!(from_a, vec![0, 1]);
    let mut from_b = reg.graph().get_included_in(1);
    from_b.sort();
    assert_eq!(from_b, vec![0, 1]);
    assert!(reg.graph().get_included_in(2).is_empty());
    assert!(reg.includes(0, 1) && reg.includes(1, 0));
    assert!(!reg.includes(0, 2));
}

fn new_scope(parts: &[&str]) -> ScopeDescriptor {
    ScopeDescriptor::new(labels(parts))
}

// `a` is included in `b` when `b`'s labels are a prefix of `a`'s.
fn is_included(a: &ScopeDescriptor, b: &ScopeDescriptor) -> bool {
    starts_with_labels(&a.labels, &b.labels)
}

#[test]
fn hierarchy_test_self_inclusion() {
    let scope_single_label = new_scope(&["scope"]);
    let scope_multiple_labels = new_scope(&["scope", "foo", "bar"]);

    assert!(is_included(&scope_single_label, &scope_single_label));
    assert!(is_included(&scope_multiple_labels, &scope_multiple_labels));
}

#[test]
fn hierarchy_test_inclusion_simple() {
    let scope_foo = new_scope(&["foo"]);
    let scope_foo_bar = new_scope(&["foo", "bar"]);

    assert!(is_included(&scope_foo_bar, &scope_foo));
    assert!(!is_included(&scope_foo, &scope_foo_bar));
}

#[test]
fn hierarchy_test_inclusion_transitive() {
    let scope_foo = new_scope(&["foo"]);
    let scope_foo_bar = new_scope(&["foo", "bar"]);
    let scope_foo_bar_baz = new_scope(&["foo", "bar", "baz"]);

    assert!(is_included(&scope_foo_bar, &scope_foo));
    assert!(is_included(&scope_foo_bar_baz, &scope_foo_bar));
    assert!(is_included(&scope_foo_bar_baz, &scope_foo))
}

#[test]
fn hierarchy_test_non_inclusion_label_prefix() {
    let scope_foo = new_scope(&["foo"]);
    let scope_foobar = new_scope(&["foobar"]);

    assert!(!is_included(&scope_foobar, &scope_foo))
}

#[test]
fn hierarchy_test_non_inclusion() {
    let scope_foo_bar = new_scope(&["foo", "bar"]);
    let scope_bar = new_scope(&["bar"]);
    let scope_foo_bar_baz = new_scope(&["foo", "bar", "baz"]);
    let scope_foo_baz_baz = new_scope(&["foo", "baz", "baz"]);

    assert!(is_included(&scope_foo_bar_baz, &scope_foo_bar));
    assert!(!is_included(&scope_foo_baz_baz, &scope_foo_bar));
    assert!(!is_included(&scope_foo_bar, &scope_bar));
    assert!(!is_included(&scope_bar, &scope_foo_bar));
}

// Whether scope `a` is reachable from scope `b` in `g`.
fn graph_includes(g: &InclusionGraph, a: ScopeId, b: ScopeId) -> bool {
    g.get_included_in(b).contains(&a)
}

#[test]
fn tests_test_inclusion_simple() {
    let g = InclusionGraph::from_scopes(&vec![new_scope(&["foo"]), new_scope(&["foo", "bar"])]);

    assert!(graph_includes(&g, 1, 0));
    assert!(!graph_includes(&g, 0, 1));
}

#[test]
fn tests_test_inclusion_transitive() {
    let (foo, foo_bar, foo_bar_baz, baz) = (0, 1, 2, 3);
    let g = InclusionGraph::from_scopes(&vec![
        new_scope(&["foo"]),
        new_scope(&["foo", "bar"]),
        new_scope(&["foo", "bar", "baz"]),
        new_scope(&["baz"]).including(foo_bar),
    ]);

    // Check label inclusion
    assert!(graph_includes(&g, foo_bar, foo));
    assert!(graph_includes(&g, foo_bar_baz, foo_bar));
    assert!(graph_includes(&g, foo_bar_baz, foo));

    // Check inclusion with the explicit list
    assert!(graph_includes(&g, foo_bar, baz));
    assert!(graph_includes(&g, foo_bar_baz, baz));
    assert!(!graph_includes(&g, foo, baz));
}

#[test]
fn tests_test_non_inclusion_label_prefix() {
    let g = InclusionGraph::from_scopes(&vec![new_scope(&["foo"]), new_scope(&["foobar"])]);

    assert!(!graph_includes(&g, 1, 0))
}

#[test]
fn tests_test_non_inclusion() {
    let (foo_bar, bar, foo_bar_baz, foo_baz_baz) = (0, 1, 2, 3);
    let g = InclusionGraph::from_scopes(&vec![
        new_scope(&["foo", "bar"]),
        new_scope(&["bar"]),
        new_scope(&["foo", "bar", "baz"]),
        new_scope(&["foo", "baz", "baz"]),
    ]);

    assert!(graph_includes(&g, foo_bar_baz, foo_bar));
    assert!(!graph_includes(&g, foo_baz_baz, foo_bar));
    assert!(!graph_includes(&g, foo_bar, bar));
    assert!(!graph_includes(&g, bar, foo_bar));
}

#[test]
fn graph_nodes_and_neighbors() {
    let g = InclusionGraph::from_scopes(&vec![new_scope(&["foo"]), new_scope(&["foo", "bar"]), new_scope(&["baz"])]);
    assert!(g.has_neighbors(0));
    assert!(!g.has_neighbors(1));
    assert!(!g.has_neighbors(2));
    assert!(!g.has_neighbors(7));
    assert_eq!(g.nodes(), vec![0]);

    let mut g = InclusionGraph::new(2);
    assert!(g.get_included_in(0).is_empty());
    g.add(&vec![new_scope(&["x"]), new_scope(&["x", "y"])], 0);
    assert_eq!(g.get_included_in(0), vec![1]);
}
