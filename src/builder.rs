//! Step-by-step construction of a policy.

use vstd::prelude::*;
use crate::policy::{IntoPolicy, Policy, conjunction, disjunction, into_policies, negation, policies_of};
use crate::scope::ScopeId;

verus! {

/// `out` is what adding the requirement `p` to the policy built so far gives: `p` itself
/// when nothing was built, else the conjunction of both.
pub open spec fn and_into(current: Option<Policy>, p: Policy, out: Policy) -> bool {
    match current {
        Some(c) => conjunction(c, p, out),
        None => out == p,
    }
}

/// `out` is what adding the alternative `p` to the policy built so far gives: `p` itself
/// when nothing was built, else the disjunction of both.
pub open spec fn or_into(current: Option<Policy>, p: Policy, out: Policy) -> bool {
    match current {
        Some(c) => disjunction(c, p, out),
        None => out == p,
    }
}

/// Builds a policy by adding requirements and alternatives one at a time.
///
/// A builder that received nothing builds `DenyAll`.
#[derive(Debug, Clone, PartialEq, Eq)]
pub struct PolicyBuilder {
    policy: Option<Policy>,
}

impl PolicyBuilder {
    /// The policy built so far, if any.
    pub closed spec fn current(&self) -> Option<Policy> {
        self.policy
    }

    /// The policy `build` returns: the one built so far, or `DenyAll`.
    pub open spec fn built(&self) -> Policy {
        match self.current() {
            Some(p) => p,
            None => Policy::DenyAll,
        }
    }

    /// A builder that has received nothing.
    pub fn new() -> (r: PolicyBuilder)
        ensures
            r.current() is None,
    {
        PolicyBuilder { policy: None }
    }

    /// A builder that starts from `policy`.
    pub fn from_policy<P: IntoPolicy>(policy: P) -> (r: PolicyBuilder)
        ensures
            r.current() == Some(policy.policy_spec()),
    {
        PolicyBuilder { policy: Some(policy.into_policy()) }
    }

    /// The policy built so far, or `DenyAll` when nothing was added.
    pub fn build(self) -> (r: Policy)
        ensures
            r == self.built(),
    {
        match self.policy {
            Some(p) => p,
            None => Policy::DenyAll,
        }
    }

    /// A builder that starts from the negation of `policy`.
    pub fn not<P: IntoPolicy>(policy: P) -> (r: PolicyBuilder)
        ensures
            r.current() == Some(negation(policy.policy_spec())),
    {
        PolicyBuilder { policy: Some(policy.into_policy().not()) }
    }

    /// A builder that requires one of `policies`; the same as `new().require_any(policies)`.
    pub fn one_of<P: IntoPolicy>(policies: Vec<P>) -> (r: PolicyBuilder)
        ensures
            r.current() matches Some(p) && p is OneOf && p->OneOf_0@ == policies_of(policies@),
    {
        PolicyBuilder::new().require_any(policies)
    }

    /// A builder that requires all of `policies`; the same as `new().require_all(policies)`.
    pub fn all_of<P: IntoPolicy>(policies: Vec<P>) -> (r: PolicyBuilder)
        ensures
            r.current() matches Some(p) && p is AllOf && p->AllOf_0@ == policies_of(policies@),
    {
        PolicyBuilder::new().require_all(policies)
    }

    /// Adds the requirement that `scope` be presented.
    pub fn require(self, scope: ScopeId) -> (r: PolicyBuilder)
        ensures
            r.current() matches Some(p) && and_into(self.current(), Policy::Scope(scope), p),
    {
        let policy = match self.policy {
            Some(p) => p.and(Policy::Scope(scope)),
            None => Policy::Scope(scope),
        };
        PolicyBuilder { policy: Some(policy) }
    }

    /// Adds the requirement that all of `policies` hold, as one list of requirements.
    pub fn require_all<P: IntoPolicy>(self, policies: Vec<P>) -> (r: PolicyBuilder)
        ensures
            r.current() matches Some(p) && exists|all: Policy|
                all is AllOf && all->AllOf_0@ == policies_of(policies@) && #[trigger] and_into(self.current(), all, p),
    {
        let all = Policy::AllOf(into_policies(policies));
        let ghost added = all;
        let policy = match self.policy {
            Some(p) => p.and(all),
            None => all,
        };
        assert(and_into(self.current(), added, policy));
        PolicyBuilder { policy: Some(policy) }
    }

    /// Adds the requirement that one of `policies` hold.
    pub fn require_any<P: IntoPolicy>(self, policies: Vec<P>) -> (r: PolicyBuilder)
        ensures
            r.current() matches Some(p) && exists|any: Policy|
                any is OneOf && any->OneOf_0@ == policies_of(policies@) && #[trigger] and_into(self.current(), any, p),
            self.current() is None ==> (r.current() matches Some(p) && p is OneOf && p->OneOf_0@ == policies_of(policies@)),
    {
        let any = Policy::OneOf(into_policies(policies));
        let ghost added = any;
        let policy = match self.policy {
            Some(p) => p.and(any),
            None => any,
        };
        assert(and_into(self.current(), added, policy));
        PolicyBuilder { policy: Some(policy) }
    }

    /// Adds the requirement that `other` hold; the same as `require_all` with `other` alone.
    pub fn and<P: IntoPolicy>(self, other: P) -> (r: PolicyBuilder)
        ensures
            r.current() matches Some(p) && exists|all: Policy|
                all is AllOf && all->AllOf_0@ == seq![other.policy_spec()] && #[trigger] and_into(self.current(), all, p),
    {
        let ghost item = other.policy_spec();
        let r = self.require_all(vec![other]);
        assert(policies_of(seq![other]) == seq![item]);
        r
    }

    /// Adds `other` as an alternative to what was built so far.
    pub fn or<P: IntoPolicy>(self, other: P) -> (r: PolicyBuilder)
        ensures
            r.current() matches Some(p) && or_into(self.current(), other.policy_spec(), p),
    {
        let other = other.into_policy();
        let policy = match self.policy {
            Some(p) => p.or(other),
            None => other,
        };
        PolicyBuilder { policy: Some(policy) }
    }
}

impl Default for PolicyBuilder {
    /// A builder that has received nothing.
    fn default() -> (r: PolicyBuilder)
        ensures
            r.current() is None,
    {
        PolicyBuilder::new()
    }
}

impl IntoPolicy for PolicyBuilder {
    open spec fn policy_spec(self) -> Policy {
        self.built()
    }

    fn into_policy(self) -> (r: Policy) {
        self.build()
    }
}

impl Policy {
    /// A builder that has received nothing; the same as `PolicyBuilder::new()`.
    pub fn builder() -> (r: PolicyBuilder)
        ensures
            r.current() is None,
    {
        PolicyBuilder::new()
    }
}

} // verus!
