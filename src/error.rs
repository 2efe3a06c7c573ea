//! Errors of the crate.

use vstd::prelude::*;
use vstd::string::*;

verus! {

/// No scope of the registry has the given full name; holds the name that was looked up.
#[derive(Debug)]
pub struct ScopeParseError(pub String);

/// Two scopes of one registry render to the same full name.
#[derive(Debug)]
pub struct DuplicateScopeNameError {
    /// The full name both scopes render to.
    pub name: String,
    /// The earlier of the two scopes.
    pub id_a: usize,
    /// The later of the two scopes.
    pub id_b: usize,
}

impl ScopeParseError {
    /// A message for people: `no such scope: '<name>'`.
    pub fn message(&self) -> (r: String)
        ensures
            r@ == "no such scope: '"@ + self.0@ + "'"@,
    {
        let mut m = String::from_str("no such scope: '");
        m.append(self.0.as_str());
        m.append("'");
        m
    }
}

impl DuplicateScopeNameError {
    /// A message for people: `conflicting scope name '<name>'`.
    pub fn message(&self) -> (r: String)
        ensures
            r@ == "conflicting scope name '"@ + self.name@ + "'"@,
    {
        let mut m = String::from_str("conflicting scope name '");
        m.append(self.name.as_str());
        m.append("'");
        m
    }
}

} // verus!
