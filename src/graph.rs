//! The inclusion graph between the scopes of a registry, and its transitive closure.

use vstd::prelude::*;
use vstd::set_lib::*;
use crate::scope::{ScopeDescriptor, ScopeId, direct_edge, label_edge, starts_with_labels};

verus! {

/// Directed graph whose edge `a -> b` means that scope `a` directly includes scope `b`.
pub struct InclusionGraph {
    neighbors: Vec<Vec<ScopeId>>,
}

/// The set of positions of `flags` that hold `true`.
pub open spec fn marked(flags: Seq<bool>) -> Set<int> {
    Set::new(|i: int| 0 <= i < flags.len() && flags[i])
}

proof fn lemma_marked_bound(flags: Seq<bool>)
    ensures
        marked(flags).finite(),
        marked(flags).len() <= flags.len(),
{
    lemma_int_range(0, flags.len() as int);
    lemma_len_subset(marked(flags), set_int_range(0, flags.len() as int));
}

/// A walk that follows one edge more still is a walk.
proof fn lemma_path_push(g: &InclusionGraph, p: Seq<ScopeId>, c: ScopeId)
    requires
        g.is_path(p),
        g.edge(p.last(), c),
    ensures
        g.is_path(p.push(c)),
{
    let q = p.push(c);
    assert forall|i: int| 0 <= i < q.len() - 1 implies #[trigger] g.edge(q[i], q[i + 1]) by {
        if i < p.len() - 1 {
            assert(q[i] == p[i] && q[i + 1] == p[i + 1]);
        }
    }
}

/// Every scope on a walk from `start` lies in a set that holds the successors of `start`
/// and is closed under edges.
proof fn lemma_path_stays_in(g: &InclusionGraph, p: Seq<ScopeId>, s: Set<ScopeId>, i: int)
    requires
        g.is_path(p),
        1 <= i < p.len(),
        forall|w: ScopeId| #[trigger] g.edge(p[0], w) ==> s.contains(w),
        forall|v: ScopeId, w: ScopeId| s.contains(v) && #[trigger] g.edge(v, w) ==> s.contains(w),
    ensures
        s.contains(p[i]),
    decreases i,
{
    let j = i - 1;
    assert(g.edge(p[j], p[j + 1]));
    if i > 1 {
        lemma_path_stays_in(g, p, s, i - 1);
    }
}

proof fn lemma_push_contains<A>(s: Seq<A>, e: A, c: A)
    ensures
        s.push(e).contains(c) <==> (s.contains(c) || c == e),
{
    if s.contains(c) {
        let i = choose|i: int| 0 <= i < s.len() && s[i] == c;
        assert(s.push(e)[i] == c);
    }
    if c == e {
        assert(s.push(e)[s.len() as int] == e);
    }
}

impl InclusionGraph {
    /// Number of scopes (nodes) of the graph.
    pub closed spec fn size(&self) -> nat {
        self.neighbors@.len()
    }

    /// The direct successors of `a`.
    pub closed spec fn successors(&self, a: ScopeId) -> Seq<ScopeId> {
        self.neighbors@[a as int]@
    }

    /// There is an edge `a -> b`.
    pub open spec fn edge(&self, a: ScopeId, b: ScopeId) -> bool {
        a < self.size() && self.successors(a).contains(b)
    }

    /// Some edge leaves `a`.
    pub open spec fn has_out_edge(&self, a: ScopeId) -> bool {
        exists|b: ScopeId| #[trigger] self.edge(a, b)
    }

    /// Every edge ends at a node of the graph.
    pub open spec fn wf(&self) -> bool {
        forall|a: ScopeId, k: int|
            a < self.size() && 0 <= k < self.successors(a).len() ==> #[trigger] self.successors(a)[k] < self.size()
    }

    /// `p` is a walk of at least one edge.
    pub open spec fn is_path(&self, p: Seq<ScopeId>) -> bool {
        &&& p.len() >= 2
        &&& forall|i: int| 0 <= i < p.len() - 1 ==> #[trigger] self.edge(p[i], p[i + 1])
    }

    /// `b` can be reached from `a` by following one edge or more.
    pub open spec fn reaches(&self, a: ScopeId, b: ScopeId) -> bool {
        exists|p: Seq<ScopeId>| #[trigger] self.is_path(p) && p[0] == a && p.last() == b
    }

    /// An edge is a walk of one step.
    pub proof fn lemma_edge_reaches(&self, a: ScopeId, b: ScopeId)
        requires
            self.edge(a, b),
        ensures
            self.reaches(a, b),
    {
        let p = seq![a, b];
        assert(self.edge(p[0], p[1]));
        assert(self.is_path(p));
    }

    /// Following one more edge from a reached scope reaches its successor.
    pub proof fn lemma_reaches_step(&self, a: ScopeId, b: ScopeId, c: ScopeId)
        requires
            self.reaches(a, b),
            self.edge(b, c),
        ensures
            self.reaches(a, c),
    {
        let p = choose|p: Seq<ScopeId>| self.is_path(p) && p[0] == a && p.last() == b;
        lemma_path_push(self, p, c);
        assert(self.is_path(p.push(c)) && p.push(c)[0] == a && p.push(c).last() == c);
    }

    /// Reachability is transitive.
    pub proof fn lemma_reaches_transitive(&self, a: ScopeId, b: ScopeId, c: ScopeId)
        requires
            self.reaches(a, b),
            self.reaches(b, c),
        ensures
            self.reaches(a, c),
    {
        let p = choose|p: Seq<ScopeId>| self.is_path(p) && p[0] == a && p.last() == b;
        let r = choose|r: Seq<ScopeId>| self.is_path(r) && r[0] == b && r.last() == c;
        let q = p + r.subrange(1, r.len() as int);
        assert forall|i: int| 0 <= i < q.len() - 1 implies #[trigger] self.edge(q[i], q[i + 1]) by {
            if i < p.len() - 1 {
                assert(q[i] == p[i] && q[i + 1] == p[i + 1]);
            } else if i == p.len() - 1 {
                assert(q[i] == r[0] && q[i + 1] == r[1]);
            } else {
                let j = i - p.len() + 1;
                assert(q[i] == r[j] && q[i + 1] == r[j + 1]);
            }
        }
        assert(self.is_path(q) && q[0] == a && q.last() == c);
    }

    /// A set that holds the successors of `start` and is closed under edges holds every
    /// scope reachable from `start`.
    pub proof fn lemma_closed_holds_reachable(&self, start: ScopeId, s: Set<ScopeId>)
        requires
            forall|w: ScopeId| #[trigger] self.edge(start, w) ==> s.contains(w),
            forall|v: ScopeId, w: ScopeId| s.contains(v) && #[trigger] self.edge(v, w) ==> s.contains(w),
        ensures
            forall|b: ScopeId| #[trigger] self.reaches(start, b) ==> s.contains(b),
    {
        assert forall|b: ScopeId| #[trigger] self.reaches(start, b) implies s.contains(b) by {
            let p = choose|p: Seq<ScopeId>| self.is_path(p) && p[0] == start && p.last() == b;
            lemma_path_stays_in(self, p, s, p.len() - 1);
        }
    }

    /// Marks the unmarked successors of `v` and pushes them onto `stack`.
    fn expand(&self, v: ScopeId, visited: &mut Vec<bool>, stack: &mut Vec<ScopeId>)
        requires
            self.wf(),
            v < self.size(),
            old(visited)@.len() == self.size(),
        ensures
            final(visited)@.len() == self.size(),
            forall|w: ScopeId| w < self.size() ==>
                #[trigger] final(visited)@[w as int] == (old(visited)@[w as int] || self.edge(v, w)),
            final(stack)@.len() >= old(stack)@.len(),
            final(stack)@.subrange(0, old(stack)@.len() as int) == old(stack)@,
            forall|k: int| old(stack)@.len() <= k < final(stack)@.len() ==> {
                let w = #[trigger] final(stack)@[k];
                w < self.size() && !old(visited)@[w as int] && final(visited)@[w as int]
            },
            forall|k1: int, k2: int| old(stack)@.len() <= k1 < k2 < final(stack)@.len()
                ==> #[trigger] final(stack)@[k1] != #[trigger] final(stack)@[k2],
            forall|w: ScopeId| w < self.size() && !old(visited)@[w as int] && #[trigger] final(visited)@[w as int]
                ==> final(stack)@.contains(w),
            final(stack)@.len() > old(stack)@.len() ==> marked(old(visited)@).len() < marked(final(visited)@).len(),
            final(stack)@.len() == old(stack)@.len() ==> final(visited)@ == old(visited)@,
    {
        let succ = &self.neighbors[v];
        let mut k: usize = 0;
        while k < succ.len()
            invariant
                self.wf(),
                v < self.size(),
                succ@ == self.successors(v),
                k <= succ@.len(),
                visited@.len() == self.size(),
                forall|w: ScopeId| w < self.size() ==>
                    #[trigger] visited@[w as int] == (old(visited)@[w as int] || succ@.subrange(0, k as int).contains(w)),
                stack@.len() >= old(stack)@.len(),
                stack@.subrange(0, old(stack)@.len() as int) == old(stack)@,
                forall|j: int| old(stack)@.len() <= j < stack@.len() ==> {
                    let w = #[trigger] stack@[j];
                    w < self.size() && !old(visited)@[w as int] && visited@[w as int]
                },
                forall|k1: int, k2: int| old(stack)@.len() <= k1 < k2 < stack@.len()
                    ==> #[trigger] stack@[k1] != #[trigger] stack@[k2],
                forall|w: ScopeId| w < self.size() && !old(visited)@[w as int] && #[trigger] visited@[w as int]
                    ==> stack@.contains(w),
                stack@.len() > old(stack)@.len() ==> marked(old(visited)@).len() < marked(visited@).len(),
                stack@.len() == old(stack)@.len() ==> visited@ == old(visited)@,
            decreases succ@.len() - k,
        {
            let w = succ[k];
            assert(w < self.size());
            let ghost seen = succ@.subrange(0, k as int);
            assert(succ@.subrange(0, k + 1) == seen.push(w));
            let ghost vis0 = visited@;
            if !visited[w] {
                let ghost before = visited@;
                let ghost stack_before = stack@;
                visited.set(w, true);
                stack.push(w);
                proof {
                    assert(marked(visited@) == marked(before).insert(w as int));
                    lemma_marked_bound(before);
                    assert(!marked(before).contains(w as int));
                    assert forall|k1: int, k2: int| old(stack)@.len() <= k1 < k2 < stack@.len()
                        implies #[trigger] stack@[k1] != #[trigger] stack@[k2] by {
                        if k2 == stack@.len() - 1 {
                            assert(stack@[k1] == stack_before[k1]);
                            assert(before[stack@[k1] as int]);
                        } else {
                            assert(stack@[k1] == stack_before[k1] && stack@[k2] == stack_before[k2]);
                        }
                    }
                    assert forall|j: int| old(stack)@.len() <= j < stack@.len() implies {
                        let u = #[trigger] stack@[j];
                        u < self.size() && !old(visited)@[u as int] && visited@[u as int]
                    } by {
                        if j < stack@.len() - 1 {
                            assert(stack@[j] == stack_before[j]);
                        }
                    }
                    assert forall|u: ScopeId| u < self.size() && !old(visited)@[u as int] && #[trigger] visited@[u as int]
                        implies stack@.contains(u) by {
                        if u == w {
                            assert(stack@[stack@.len() - 1] == w);
                        } else {
                            let i = choose|i: int| 0 <= i < stack_before.len() && stack_before[i] == u;
                            assert(stack@[i] == u);
                        }
                    }
                    if stack_before.len() > old(stack)@.len() {
                        assert(marked(old(visited)@).len() < marked(before).len());
                    } else {
                        assert(before == old(visited)@);
                    }
                    assert(stack@.subrange(0, old(stack)@.len() as int) == stack_before.subrange(0, old(stack)@.len() as int));
                }
            }
            assert forall|x: ScopeId| x < self.size() implies #[trigger] visited@[x as int] == (old(visited)@[x as int]
                || succ@.subrange(0, k + 1).contains(x)) by {
                assert(vis0[x as int] == (old(visited)@[x as int] || seen.contains(x)));
                lemma_push_contains(seen, w, x);
            }
            k = k + 1;
        }
        assert(succ@.subrange(0, k as int) == succ@);
    }

    /// Every scope reachable from `start` by one edge or more, each once.
    ///
    /// `start` itself is in the result only when a cycle leads back to it.
    pub fn get_included_in(&self, start: ScopeId) -> (r: Vec<ScopeId>)
        requires
            self.wf(),
        ensures
            forall|b: ScopeId| #[trigger] r@.contains(b) <==> self.reaches(start, b),
            r@.no_duplicates(),
    {
        let n = self.neighbors.len();
        let mut result: Vec<ScopeId> = Vec::new();
        if start >= n {
            proof {
                assert forall|b: ScopeId| !self.reaches(start, b) by {
                    if self.reaches(start, b) {
                        let p = choose|p: Seq<ScopeId>| self.is_path(p) && p[0] == start && p.last() == b;
                        let i: int = 0;
                        assert(self.edge(p[i], p[i + 1]));
                    }
                }
            }
            return result;
        }
        let mut visited: Vec<bool> = Vec::new();
        let mut i: usize = 0;
        while i < n
            invariant
                i <= n,
                visited@.len() == i,
                forall|w: int| 0 <= w < i ==> !(#[trigger] visited@[w]),
            decreases n - i,
        {
            visited.push(false);
            i = i + 1;
        }
        let mut stack: Vec<ScopeId> = Vec::new();
        self.expand(start, &mut visited, &mut stack);
        proof {
            assert forall|w: int| 0 <= w < n && #[trigger] visited@[w] implies self.reaches(start, w as ScopeId) by {
                self.lemma_edge_reaches(start, w as ScopeId);
            }
            assert(stack@.subrange(0, 0) == Seq::<ScopeId>::empty());
            assert forall|u: ScopeId| !(#[trigger] result@.contains(u)) by {}
        }
        while stack.len() > 0
            invariant
                self.wf(),
                start < n,
                n == self.size(),
                visited@.len() == n,
                forall|w: int| 0 <= w < n && #[trigger] visited@[w] ==> self.reaches(start, w as ScopeId),
                forall|k: int| 0 <= k < stack@.len() ==> #[trigger] stack@[k] < n && visited@[stack@[k] as int],
                stack@.no_duplicates(),
                forall|w: ScopeId| #[trigger] self.edge(start, w) ==> visited@[w as int],
                forall|u: ScopeId, w: ScopeId|
                    u < n && visited@[u as int] && !stack@.contains(u) && #[trigger] self.edge(u, w) ==> visited@[w as int],
                forall|u: ScopeId| #[trigger] result@.contains(u) <==> (u < n && visited@[u as int] && !stack@.contains(u)),
                result@.no_duplicates(),
            decreases n - marked(visited@).len(), stack@.len(),
        {
            proof { lemma_marked_bound(visited@); }
            let ghost visited_before = visited@;
            let ghost stack_before = stack@;
            let ghost result_before = result@;
            let v = stack.pop().unwrap();
            let ghost popped = stack@;
            assert(stack_before == popped.push(v));
            proof {
                assert forall|u: ScopeId| stack_before.contains(u) <==> (popped.contains(u) || u == v) by {
                    if popped.contains(u) {
                        let i = choose|i: int| 0 <= i < popped.len() && popped[i] == u;
                        assert(stack_before[i] == u);
                    }
                    if u == v {
                        assert(stack_before[popped.len() as int] == v);
                    }
                }
                assert(!popped.contains(v)) by {
                    if popped.contains(v) {
                        let i = choose|i: int| 0 <= i < popped.len() && popped[i] == v;
                        assert(stack_before[i] == stack_before[popped.len() as int]);
                    }
                }
            }
            result.push(v);
            proof {
                assert forall|u: ScopeId| result@.contains(u) <==> (result_before.contains(u) || u == v) by {
                    if result_before.contains(u) {
                        let i = choose|i: int| 0 <= i < result_before.len() && result_before[i] == u;
                        assert(result@[i] == u);
                    }
                    if u == v {
                        assert(result@[result_before.len() as int] == v);
                    }
                }
                assert(v < n && visited@[v as int]) by {
                    assert(stack_before[stack_before.len() - 1] == v);
                }
                assert(!result_before.contains(v));
            }
            self.expand(v, &mut visited, &mut stack);
            proof {
                lemma_marked_bound(visited@);
                let old_len = popped.len();
                assert forall|k: int| 0 <= k < stack@.len() implies #[trigger] stack@[k] < n && visited@[stack@[k] as int] by {
                    if k < old_len {
                        assert(stack@[k] == stack@.subrange(0, old_len as int)[k]);
                    }
                }
                assert forall|u: ScopeId| stack@.contains(u) <==> (popped.contains(u) || (u < n && !visited_before[u as int] && visited@[u as int])) by {
                    if stack@.contains(u) {
                        let i = choose|i: int| 0 <= i < stack@.len() && stack@[i] == u;
                        if i < old_len {
                            assert(stack@.subrange(0, old_len as int)[i] == u);
                        }
                    }
                    if popped.contains(u) {
                        let i = choose|i: int| 0 <= i < popped.len() && popped[i] == u;
                        assert(stack@.subrange(0, old_len as int)[i] == u);
                    }
                }
                assert forall|k1: int, k2: int| 0 <= k1 < k2 < stack@.len() implies stack@[k1] != stack@[k2] by {
                    if k2 < old_len {
                        assert(stack@[k1] == popped[k1] && stack@[k2] == popped[k2]);
                    } else if k1 < old_len {
                        assert(stack@[k1] == popped[k1]);
                        assert(stack_before[k1] == popped[k1]);
                    }
                }
                assert forall|w: int| 0 <= w < n && #[trigger] visited@[w] implies self.reaches(start, w as ScopeId) by {
                    if !visited_before[w] {
                        self.lemma_reaches_step(start, v, w as ScopeId);
                    }
                }
                assert forall|u: ScopeId| #[trigger] result@.contains(u) <==> (u < n && visited@[u as int] && !stack@.contains(u)) by {
                    assert(result@.contains(u) <==> (result_before.contains(u) || u == v));
                    assert(result_before.contains(u) <==> (u < n && visited_before[u as int] && !stack_before.contains(u)));
                    assert(stack_before.contains(u) <==> (popped.contains(u) || u == v));
                    assert(stack@.contains(u) <==> (popped.contains(u) || (u < n && !visited_before[u as int] && visited@[u as int])));
                    if u < n {
                        assert(visited_before[u as int] ==> visited@[u as int]);
                    }
                }
                assert forall|u: ScopeId, w: ScopeId|
                    u < n && visited@[u as int] && !stack@.contains(u) && #[trigger] self.edge(u, w) implies visited@[w as int] by {
                    assert(w < n);
                    if u != v {
                        assert(visited_before[u as int]);
                        assert(!stack_before.contains(u));
                    }
                }
            }
        }
        proof {
            let s = Set::new(|u: ScopeId| u < n && visited@[u as int]);
            assert forall|u: ScopeId| !(#[trigger] stack@.contains(u)) by {}
            assert forall|w: ScopeId| #[trigger] self.edge(start, w) implies s.contains(w) by {
                assert(w < n);
            }
            assert forall|u: ScopeId, w: ScopeId| s.contains(u) && #[trigger] self.edge(u, w) implies s.contains(w) by {
                assert(w < n);
            }
            self.lemma_closed_holds_reachable(start, s);
        }
        result
    }

    /// Whether some edge leaves `a`.
    pub fn has_neighbors(&self, a: ScopeId) -> (r: bool)
        ensures
            r == self.has_out_edge(a),
    {
        if a < self.neighbors.len() && self.neighbors[a].len() > 0 {
            assert(self.edge(a, self.successors(a)[0]));
            true
        } else {
            assert forall|b: ScopeId| !self.edge(a, b) by {
                if a < self.size() && self.successors(a).contains(b) {
                    let i = choose|i: int| 0 <= i < self.successors(a).len() && self.successors(a)[i] == b;
                }
            }
            false
        }
    }

    /// The scopes that some edge leaves, in increasing order.
    pub fn nodes(&self) -> (r: Vec<ScopeId>)
        ensures
            forall|a: ScopeId| #[trigger] r@.contains(a) <==> self.has_out_edge(a),
            forall|i: int, j: int| 0 <= i < j < r@.len() ==> r@[i] < r@[j],
    {
        let mut out: Vec<ScopeId> = Vec::new();
        let mut a: usize = 0;
        while a < self.neighbors.len()
            invariant
                a <= self.size(),
                forall|x: ScopeId| #[trigger] out@.contains(x) <==> (x < a && self.has_out_edge(x)),
                forall|i: int, j: int| 0 <= i < j < out@.len() ==> out@[i] < out@[j],
                forall|i: int| 0 <= i < out@.len() ==> out@[i] < a,
            decreases self.size() - a,
        {
            let ghost before = out@;
            if self.has_neighbors(a) {
                out.push(a);
            }
            proof {
                assert forall|x: ScopeId| #[trigger] out@.contains(x) <==> (x < a + 1 && self.has_out_edge(x)) by {
                    if self.has_out_edge(a) {
                        lemma_push_contains(before, a, x);
                    }
                }
            }
            a = a + 1;
        }
        proof {
            assert forall|x: ScopeId| #[trigger] out@.contains(x) <==> self.has_out_edge(x) by {
                if self.has_out_edge(x) {
                    assert(x < self.size());
                }
            }
        }
        out
    }

    /// A graph of `n` scopes and no edge.
    pub fn new(n: usize) -> (g: InclusionGraph)
        ensures
            g.wf(),
            g.size() == n,
            forall|a: ScopeId| a < n ==> (#[trigger] g.successors(a)).len() == 0,
    {
        let mut neighbors: Vec<Vec<ScopeId>> = Vec::new();
        let mut i: usize = 0;
        while i < n
            invariant
                i <= n,
                neighbors@.len() == i,
                forall|a: int| 0 <= a < i ==> (#[trigger] neighbors@[a])@.len() == 0,
            decreases n - i,
        {
            neighbors.push(Vec::new());
            i = i + 1;
        }
        InclusionGraph { neighbors }
    }

    fn push_edge(&mut self, a: ScopeId, b: ScopeId)
        requires
            old(self).wf(),
            a < old(self).size(),
            b < old(self).size(),
        ensures
            final(self).wf(),
            final(self).size() == old(self).size(),
            forall|x: ScopeId| x != a && x < old(self).size() ==> #[trigger] final(self).successors(x) == old(self).successors(x),
            forall|x: ScopeId, c: ScopeId|
                #[trigger] final(self).edge(x, c) <==> (old(self).edge(x, c) || (x == a && c == b)),
    {
        let ghost before = self.neighbors@;
        self.neighbors[a].push(b);
        assert(self.neighbors@ == before.update(a as int, self.neighbors@[a as int]));
        assert(self.neighbors@[a as int]@ == before[a as int]@.push(b));
        assert forall|x: ScopeId, k: int|
            x < self.size() && 0 <= k < self.successors(x).len() implies #[trigger] self.successors(x)[k] < self.size() by {
            if x != a {
                assert(self.successors(x)[k] == old(self).successors(x)[k]);
            } else if k < old(self).successors(a).len() {
                assert(self.successors(x)[k] == old(self).successors(x)[k]);
            }
        }
        assert forall|x: ScopeId, c: ScopeId|
            #[trigger] self.edge(x, c) <==> (old(self).edge(x, c) || (x == a && c == b)) by {
            if x == a {
                lemma_push_contains(old(self).successors(a), b, c);
            }
        }
    }

    /// Adds the edges out of scope `a` that `ds` implies: to every other scope whose labels
    /// extend `a`'s, and to every scope that `a` names explicitly.
    pub fn add(&mut self, ds: &Vec<ScopeDescriptor>, a: ScopeId)
        requires
            old(self).wf(),
            old(self).size() == ds@.len(),
            a < ds@.len(),
        ensures
            final(self).wf(),
            final(self).size() == old(self).size(),
            forall|x: ScopeId, b: ScopeId| x != a ==> #[trigger] final(self).edge(x, b) == old(self).edge(x, b),
            forall|b: ScopeId| #[trigger] final(self).edge(a, b) <==> (old(self).edge(a, b) || direct_edge(ds@, a, b)),
    {
        let n = ds.len();
        let mut b: usize = 0;
        while b < n
            invariant
                n == ds@.len(),
                a < n,
                b <= n,
                self.wf(),
                self.size() == n,
                forall|x: ScopeId, c: ScopeId| x != a ==> #[trigger] self.edge(x, c) == old(self).edge(x, c),
                forall|c: ScopeId| #[trigger] self.edge(a, c) <==> (old(self).edge(a, c) || (c < b && label_edge(ds@, a, c))),
            decreases n - b,
        {
            if b != a && starts_with_labels(&ds[b].labels, &ds[a].labels) {
                self.push_edge(a, b);
            }
            b = b + 1;
        }
        let explicit = &ds[a].explicit_includes;
        let mut k: usize = 0;
        while k < explicit.len()
            invariant
                n == ds@.len(),
                a < n,
                k <= explicit@.len(),
                explicit@ == ds@[a as int].explicit_includes@,
                self.wf(),
                self.size() == n,
                forall|x: ScopeId, c: ScopeId| x != a ==> #[trigger] self.edge(x, c) == old(self).edge(x, c),
                forall|c: ScopeId| #[trigger] self.edge(a, c) <==> (old(self).edge(a, c) || label_edge(ds@, a, c)
                    || (c < n && explicit@.subrange(0, k as int).contains(c))),
            decreases explicit@.len() - k,
        {
            let e = explicit[k];
            let ghost seen = explicit@.subrange(0, k as int);
            assert(explicit@.subrange(0, k + 1) == seen.push(e));
            let ghost prev = *self;
            if e < n {
                self.push_edge(a, e);
            }
            assert forall|c: ScopeId| #[trigger] self.edge(a, c) <==> (old(self).edge(a, c) || label_edge(ds@, a, c)
                || (c < n && explicit@.subrange(0, k + 1).contains(c))) by {
                assert(prev.edge(a, c) <==> (old(self).edge(a, c) || label_edge(ds@, a, c) || (c < n && seen.contains(c))));
                lemma_push_contains(seen, e, c);
            }
            k = k + 1;
        }
        assert(explicit@.subrange(0, k as int) == explicit@);
    }

    /// The graph of the direct inclusions between the scopes `ds`.
    pub fn from_scopes(ds: &Vec<ScopeDescriptor>) -> (g: InclusionGraph)
        ensures
            g.wf(),
            g.size() == ds@.len(),
            forall|a: ScopeId, b: ScopeId| #[trigger] g.edge(a, b) <==> direct_edge(ds@, a, b),
    {
        let mut g = InclusionGraph::new(ds.len());
        let mut a: usize = 0;
        while a < ds.len()
            invariant
                a <= ds@.len(),
                g.wf(),
                g.size() == ds@.len(),
                forall|x: ScopeId, b: ScopeId| #[trigger] g.edge(x, b) <==> (x < a && direct_edge(ds@, x, b)),
            decreases ds@.len() - a,
        {
            g.add(ds, a);
            a = a + 1;
        }
        g
    }
}

} // verus!
