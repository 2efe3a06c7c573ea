//! The registry of the scopes of one scope type: their full names and their inclusion graph.

use vstd::prelude::*;
use crate::error::{DuplicateScopeNameError, ScopeParseError};
use crate::graph::InclusionGraph;
use crate::scope::{ScopeDescriptor, ScopeId, direct_edge, is_label_prefix, join, labels_view};

verus! {

/// The full names that `ds` render to: `prefix`, then the labels joined by `separator`.
pub open spec fn full_names_of(ds: Seq<ScopeDescriptor>, separator: Seq<char>, prefix: Seq<char>) -> Seq<Seq<char>> {
    Seq::new(ds.len(), |i: int| prefix + join(labels_view(ds[i].labels@), separator))
}

/// All names are pairwise distinct.
pub open spec fn all_distinct(names: Seq<Seq<char>>) -> bool {
    forall|i: int, j: int| 0 <= i < j < names.len() ==> names[i] != names[j]
}

/// The immutable table of the scopes of one scope type.
pub struct Registry {
    descriptors: Vec<ScopeDescriptor>,
    separator: String,
    prefix: String,
    hierarchy: bool,
    names: Vec<String>,
    graph: InclusionGraph,
}

impl Registry {
    /// The scope descriptors, in registration order.
    pub closed spec fn scopes(&self) -> Seq<ScopeDescriptor> {
        self.descriptors@
    }

    /// The separator placed between labels.
    pub closed spec fn separator_view(&self) -> Seq<char> {
        self.separator@
    }

    /// The string put before every full name.
    pub closed spec fn prefix_view(&self) -> Seq<char> {
        self.prefix@
    }

    /// Whether policies of this registry let a scope stand for the scopes it includes.
    pub closed spec fn hierarchy_spec(&self) -> bool {
        self.hierarchy
    }

    /// The direct inclusions between the scopes.
    pub closed spec fn inclusion(&self) -> InclusionGraph {
        self.graph
    }

    /// The full name of scope `id`: the prefix, then the labels joined by the separator.
    pub open spec fn full_name_spec(&self, id: int) -> Seq<char> {
        self.full_names()[id]
    }

    /// The full names of all scopes, in registration order.
    pub open spec fn full_names(&self) -> Seq<Seq<char>> {
        full_names_of(self.scopes(), self.separator_view(), self.prefix_view())
    }

    /// The stored full names are those the descriptors render to.
    pub closed spec fn tables_agree(&self) -> bool {
        &&& self.names@.len() == self.descriptors@.len()
        &&& forall|i: int| 0 <= i < self.names@.len() ==> #[trigger] self.names@[i]@ == self.full_name_spec(i)
    }

    /// The registry's invariant: full names are unique and the graph holds exactly the
    /// direct inclusions of its scopes.
    pub open spec fn wf(&self) -> bool {
        &&& self.tables_agree()
        &&& all_distinct(self.full_names())
        &&& self.inclusion().wf()
        &&& self.inclusion().size() == self.scopes().len()
        &&& forall|a: ScopeId, b: ScopeId| #[trigger] self.inclusion().edge(a, b) <==> direct_edge(self.scopes(), a, b)
    }

    /// `a` includes `b`: they are the same scope, or a chain of direct inclusions leads from `a` to `b`.
    pub open spec fn includes_spec(&self, a: ScopeId, b: ScopeId) -> bool {
        a == b || self.inclusion().reaches(a, b)
    }

    /// Builds the registry of `descriptors`; fails on the first full name that repeats an earlier one.
    pub fn build(descriptors: Vec<ScopeDescriptor>, separator: String, prefix: String, hierarchy: bool)
        -> (r: Result<Registry, DuplicateScopeNameError>)
        ensures
            match r {
                Ok(reg) => {
                    &&& reg.wf()
                    &&& reg.scopes() == descriptors@
                    &&& reg.separator_view() == separator@
                    &&& reg.prefix_view() == prefix@
                    &&& reg.hierarchy_spec() == hierarchy
                },
                Err(e) => {
                    let names = full_names_of(descriptors@, separator@, prefix@);
                    &&& e.id_a < e.id_b < descriptors@.len()
                    &&& names[e.id_a as int] == names[e.id_b as int]
                    &&& e.name@ == names[e.id_b as int]
                    &&& all_distinct(names.subrange(0, e.id_b as int))
                    &&& forall|i: int| 0 <= i < e.id_a ==> #[trigger] names[i] != names[e.id_b as int]
                },
            },
            r is Ok <==> all_distinct(full_names_of(descriptors@, separator@, prefix@)),
    {
        let ghost spec_names = full_names_of(descriptors@, separator@, prefix@);
        let n = descriptors.len();
        assert(spec_names.len() == n);
        let mut names: Vec<String> = Vec::new();
        let mut i: usize = 0;
        while i < n
            invariant
                n == descriptors@.len(),
                spec_names == full_names_of(descriptors@, separator@, prefix@),
                spec_names.len() == n,
                i <= n,
                names@.len() == i,
                forall|k: int| 0 <= k < i ==> #[trigger] names@[k]@ == spec_names[k],
            decreases n - i,
        {
            names.push(descriptors[i].full_name(separator.as_str(), prefix.as_str()));
            i = i + 1;
        }
        let mut j: usize = 0;
        while j < n
            invariant
                n == descriptors@.len(),
                spec_names == full_names_of(descriptors@, separator@, prefix@),
                spec_names.len() == n,
                names@.len() == n,
                j <= n,
                forall|k: int| 0 <= k < n ==> #[trigger] names@[k]@ == spec_names[k],
                all_distinct(spec_names.subrange(0, j as int)),
            decreases n - j,
        {
            let mut i: usize = 0;
            while i < j
                invariant
                    n == descriptors@.len(),
                    spec_names == full_names_of(descriptors@, separator@, prefix@),
                    spec_names.len() == n,
                    names@.len() == n,
                    i <= j < n,
                    forall|k: int| 0 <= k < n ==> #[trigger] names@[k]@ == spec_names[k],
                    forall|k: int| 0 <= k < i ==> spec_names[k] != spec_names[j as int],
                    all_distinct(spec_names.subrange(0, j as int)),
                decreases j - i,
            {
                if names[i] == names[j] {
                    let e = DuplicateScopeNameError { name: names[j].clone(), id_a: i, id_b: j };
                    proof {
                        assert(!all_distinct(spec_names)) by {
                            assert(spec_names[i as int] == spec_names[j as int]);
                        }
                        assert forall|a: int, b: int| 0 <= a < b < j implies
                            spec_names.subrange(0, j as int)[a] != spec_names.subrange(0, j as int)[b] by {}
                    }
                    return Err(e);
                }
                i = i + 1;
            }
            proof {
                assert forall|a: int, b: int| 0 <= a < b < j + 1 implies
                    #[trigger] spec_names.subrange(0, j + 1)[a] != #[trigger] spec_names.subrange(0, j + 1)[b] by {
                    if b < j {
                        assert(spec_names.subrange(0, j as int)[a] != spec_names.subrange(0, j as int)[b]);
                    }
                }
            }
            j = j + 1;
        }
        assert(spec_names.subrange(0, n as int) == spec_names);
        let graph = InclusionGraph::from_scopes(&descriptors);
        let reg = Registry { descriptors, separator, prefix, hierarchy, names, graph };
        assert(reg.full_names() == spec_names);
        Ok(reg)
    }

    /// Number of scopes.
    pub fn len(&self) -> (r: usize)
        ensures
            r == self.scopes().len(),
    {
        self.descriptors.len()
    }

    /// Whether policies of this registry let a scope stand for the scopes it includes.
    pub fn hierarchy_enabled(&self) -> (r: bool)
        ensures
            r == self.hierarchy_spec(),
    {
        self.hierarchy
    }

    /// The descriptor of scope `id`.
    pub fn lookup_by_id(&self, id: ScopeId) -> (r: &ScopeDescriptor)
        requires
            id < self.scopes().len(),
        ensures
            *r == self.scopes()[id as int],
    {
        &self.descriptors[id]
    }

    /// The inclusion graph between the scopes.
    pub fn graph(&self) -> (r: &InclusionGraph)
        ensures
            *r == self.inclusion(),
    {
        &self.graph
    }

    /// The labels of scope `id` joined by the separator, without the prefix.
    pub fn name(&self, id: ScopeId) -> (r: String)
        requires
            id < self.scopes().len(),
        ensures
            r@ == join(labels_view(self.scopes()[id as int].labels@), self.separator_view()),
    {
        self.descriptors[id].name(self.separator.as_str())
    }

    /// The full name of scope `id`.
    pub fn full_name(&self, id: ScopeId) -> (r: String)
        requires
            self.wf(),
            id < self.scopes().len(),
        ensures
            r@ == self.full_name_spec(id as int),
    {
        self.names[id].clone()
    }

    /// The scope whose full name is `name`, if any.
    pub fn lookup_by_name(&self, name: &str) -> (r: Option<ScopeId>)
        requires
            self.wf(),
        ensures
            match r {
                Some(id) => id < self.scopes().len() && self.full_name_spec(id as int) == name@,
                None => forall|i: int| 0 <= i < self.scopes().len() ==> #[trigger] self.full_name_spec(i) != name@,
            },
    {
        let target = String::from_str(name);
        let mut i: usize = 0;
        while i < self.names.len()
            invariant
                self.wf(),
                target@ == name@,
                i <= self.names@.len(),
                forall|k: int| 0 <= k < i ==> #[trigger] self.full_name_spec(k) != name@,
            decreases self.names@.len() - i,
        {
            if self.names[i] == target {
                return Some(i);
            }
            i = i + 1;
        }
        None
    }

    /// The scope whose full name is `name`; fails with that name when there is none.
    pub fn parse(&self, name: &str) -> (r: Result<ScopeId, ScopeParseError>)
        requires
            self.wf(),
        ensures
            match r {
                Ok(id) => id < self.scopes().len() && self.full_name_spec(id as int) == name@,
                Err(e) => e.0@ == name@
                    && forall|i: int| 0 <= i < self.scopes().len() ==> #[trigger] self.full_name_spec(i) != name@,
            },
    {
        match self.lookup_by_name(name) {
            Some(id) => Ok(id),
            None => Err(ScopeParseError(String::from_str(name))),
        }
    }

    /// Whether scope `a` includes scope `b`: they are the same, or `b` is reachable from `a`.
    pub fn includes(&self, a: ScopeId, b: ScopeId) -> (r: bool)
        requires
            self.wf(),
        ensures
            r == self.includes_spec(a, b),
    {
        if a == b {
            return true;
        }
        let reached = self.graph.get_included_in(a);
        let mut i: usize = 0;
        while i < reached.len()
            invariant
                i <= reached@.len(),
                forall|k: int| 0 <= k < i ==> reached@[k] != b,
                forall|c: ScopeId| #[trigger] reached@.contains(c) <==> self.graph.reaches(a, c),
            decreases reached@.len() - i,
        {
            if reached[i] == b {
                assert(reached@.contains(b));
                return true;
            }
            i = i + 1;
        }
        assert(!reached@.contains(b));
        false
    }

    /// Whether scope `a` is included in scope `b`, that is whether `b` includes `a`.
    pub fn included_in(&self, a: ScopeId, b: ScopeId) -> (r: bool)
        requires
            self.wf(),
        ensures
            r == self.includes_spec(b, a),
    {
        self.includes(b, a)
    }
}

/// Every scope includes itself.
pub proof fn lemma_includes_reflexive(reg: &Registry, s: ScopeId)
    ensures
        reg.includes_spec(s, s),
{
}

/// Inclusion is transitive, whatever mix of label and explicit inclusions each step uses.
pub proof fn lemma_includes_transitive(reg: &Registry, a: ScopeId, b: ScopeId, c: ScopeId)
    requires
        reg.wf(),
        reg.includes_spec(a, b),
        reg.includes_spec(b, c),
    ensures
        reg.includes_spec(a, c),
{
    if a != b && b != c {
        reg.inclusion().lemma_reaches_transitive(a, b, c);
    }
}

/// A scope includes every other scope whose labels extend its own labels.
pub proof fn lemma_label_prefix_includes(reg: &Registry, a: ScopeId, b: ScopeId)
    requires
        reg.wf(),
        a < reg.scopes().len(),
        b < reg.scopes().len(),
        is_label_prefix(labels_view(reg.scopes()[a as int].labels@), labels_view(reg.scopes()[b as int].labels@)),
    ensures
        reg.includes_spec(a, b),
{
    if a != b {
        assert(reg.inclusion().edge(a, b));
        reg.inclusion().lemma_edge_reaches(a, b);
    }
}

/// A scope includes every scope that it names explicitly.
pub proof fn lemma_explicit_includes(reg: &Registry, a: ScopeId, b: ScopeId)
    requires
        reg.wf(),
        a < reg.scopes().len(),
        b < reg.scopes().len(),
        reg.scopes()[a as int].explicit_includes@.contains(b),
    ensures
        reg.includes_spec(a, b),
{
    assert(reg.inclusion().edge(a, b));
    reg.inclusion().lemma_edge_reaches(a, b);
}

/// No scope of the registry names another explicitly.
pub open spec fn no_explicit_includes(reg: &Registry) -> bool {
    forall|i: int| 0 <= i < reg.scopes().len() ==> (#[trigger] reg.scopes()[i]).explicit_includes@.len() == 0
}

proof fn lemma_label_prefix_transitive(a: Seq<Seq<char>>, b: Seq<Seq<char>>, c: Seq<Seq<char>>)
    requires
        is_label_prefix(a, b),
        is_label_prefix(b, c),
    ensures
        is_label_prefix(a, c),
{
    assert(c.subrange(0, b.len() as int).subrange(0, a.len() as int) == c.subrange(0, a.len() as int));
}

proof fn lemma_label_path(reg: &Registry, p: Seq<ScopeId>, i: int)
    requires
        reg.wf(),
        no_explicit_includes(reg),
        reg.inclusion().is_path(p),
        1 <= i < p.len(),
    ensures
        p[i] < reg.scopes().len(),
        is_label_prefix(labels_view(reg.scopes()[p[0] as int].labels@), labels_view(reg.scopes()[p[i] as int].labels@)),
    decreases i,
{
    let j = i - 1;
    assert(reg.inclusion().edge(p[j], p[j + 1]));
    assert(direct_edge(reg.scopes(), p[j], p[j + 1]));
    assert(reg.scopes()[p[j] as int].explicit_includes@.len() == 0);
    if i > 1 {
        lemma_label_path(reg, p, j);
        lemma_label_prefix_transitive(
            labels_view(reg.scopes()[p[0] as int].labels@),
            labels_view(reg.scopes()[p[j] as int].labels@),
            labels_view(reg.scopes()[p[i] as int].labels@),
        );
    }
}

/// Where no scope names another explicitly, a scope includes exactly itself and the scopes
/// whose labels extend its own: `["foo"]` includes `["foo", "bar"]` but not `["foobar"]`,
/// and `["foo", "bar"]` does not include `["foo"]`.
pub proof fn lemma_includes_by_labels(reg: &Registry, a: ScopeId, b: ScopeId)
    requires
        reg.wf(),
        no_explicit_includes(reg),
        a < reg.scopes().len(),
        b < reg.scopes().len(),
    ensures
        reg.includes_spec(a, b) <==> (a == b || is_label_prefix(
            labels_view(reg.scopes()[a as int].labels@),
            labels_view(reg.scopes()[b as int].labels@),
        )),
{
    if is_label_prefix(labels_view(reg.scopes()[a as int].labels@), labels_view(reg.scopes()[b as int].labels@)) {
        lemma_label_prefix_includes(reg, a, b);
    }
    if a != b && reg.includes_spec(a, b) {
        let p = choose|p: Seq<ScopeId>| reg.inclusion().is_path(p) && p[0] == a && p.last() == b;
        lemma_label_path(reg, p, p.len() - 1);
    }
}

} // verus!
