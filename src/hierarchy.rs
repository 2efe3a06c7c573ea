//! The inclusion relation as a method of scope values.

use vstd::prelude::*;
use crate::registry::Registry;
use crate::scope::ScopeId;

verus! {

/// A relation by which a scope includes itself and, transitively, finer scopes.
pub trait Hierarchized: Sized {
    /// Whether `self` includes `other`.
    spec fn includes_spec(&self, other: &Self) -> bool;

    /// Whether `self` includes `other`.
    fn includes(&self, other: &Self) -> (r: bool)
        ensures
            r == self.includes_spec(other),
    ;

    /// Whether `self` is included in `other`, that is whether `other` includes `self`.
    fn included_in(&self, other: &Self) -> (r: bool)
        ensures
            r == other.includes_spec(self),
    {
        other.includes(self)
    }
}

/// A scope together with the registry it belongs to.
pub struct RegisteredScope<'a> {
    registry: &'a Registry,
    id: ScopeId,
}

impl<'a> RegisteredScope<'a> {
    #[verifier::type_invariant]
    spec fn inv(&self) -> bool {
        self.registry.wf()
    }

    /// The registry of the scope.
    pub closed spec fn registry_spec(&self) -> Registry {
        *self.registry
    }

    /// The scope.
    pub closed spec fn id_spec(&self) -> ScopeId {
        self.id
    }

    /// Scope `id` of `registry`.
    pub fn new(registry: &'a Registry, id: ScopeId) -> (r: RegisteredScope<'a>)
        requires
            registry.wf(),
        ensures
            r.registry_spec() == *registry,
            r.id_spec() == id,
    {
        RegisteredScope { registry, id }
    }

    /// The scope.
    pub fn id(&self) -> (r: ScopeId)
        ensures
            r == self.id_spec(),
    {
        self.id
    }
}

impl<'a> Hierarchized for RegisteredScope<'a> {
    /// Inclusion as `self`'s registry defines it.
    open spec fn includes_spec(&self, other: &Self) -> bool {
        self.registry_spec().includes_spec(self.id_spec(), other.id_spec())
    }

    fn includes(&self, other: &Self) -> (r: bool) {
        proof {
            use_type_invariant(self);
        }
        self.registry.includes(self.id, other.id)
    }
}

} // verus!
