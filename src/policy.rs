//! Access policies: boolean expressions over scopes, reduced as they are combined, and
//! checked against the scopes a caller presents.

use vstd::prelude::*;
use crate::registry::Registry;
use crate::scope::{AsScopeRef, ScopeId, scopes_of};

verus! {

/// A boolean access requirement over the scopes of one registry.
#[derive(Debug, PartialEq, Eq)]
pub enum Policy {
    /// The scope must be presented.
    Scope(ScopeId),
    /// At least one of the policies must hold.
    OneOf(Vec<Policy>),
    /// Every one of the policies must hold.
    AllOf(Vec<Policy>),
    /// The policy must not hold.
    Not(Box<Policy>),
    /// Holds for every set of scopes.
    AllowAll,
    /// Holds for no set of scopes.
    DenyAll,
}

/// `a` and `b` are the same tree: same variants, same scopes, same children in the same order.
pub open spec fn same_policy(a: Policy, b: Policy) -> bool
    decreases a,
{
    match a {
        Policy::Scope(x) => b == Policy::Scope(x),
        Policy::OneOf(ps) => {
            proof {
                assert(decreases_to!(a => a->OneOf_0));
                assert(decreases_to!(a->OneOf_0 => a->OneOf_0@));
            }
            b is OneOf && same_policies(ps@, b->OneOf_0@)
        },
        Policy::AllOf(ps) => {
            proof {
                assert(decreases_to!(a => a->AllOf_0));
                assert(decreases_to!(a->AllOf_0 => a->AllOf_0@));
            }
            b is AllOf && same_policies(ps@, b->AllOf_0@)
        },
        Policy::Not(p) => b is Not && same_policy(*p, *b->Not_0),
        Policy::AllowAll => b is AllowAll,
        Policy::DenyAll => b is DenyAll,
    }
}

/// `xs` and `ys` have the same length and pairwise the same trees.
pub open spec fn same_policies(xs: Seq<Policy>, ys: Seq<Policy>) -> bool
    decreases xs,
{
    if xs.len() == 0 {
        ys.len() == 0
    } else {
        &&& ys.len() == xs.len()
        &&& same_policies(xs.subrange(0, xs.len() - 1), ys.subrange(0, ys.len() - 1))
        &&& same_policy(xs[xs.len() - 1], ys[ys.len() - 1])
    }
}

impl Clone for Policy {
    /// A copy of the whole tree.
    fn clone(&self) -> (r: Policy)
        ensures
            same_policy(*self, r),
        decreases self, 1nat,
    {
        match self {
            Policy::Scope(s) => Policy::Scope(*s),
            Policy::OneOf(ps) => Policy::OneOf(clone_all(self, ps)),
            Policy::AllOf(ps) => Policy::AllOf(clone_all(self, ps)),
            Policy::Not(p) => Policy::Not(Box::new((**p).clone())),
            Policy::AllowAll => Policy::AllowAll,
            Policy::DenyAll => Policy::DenyAll,
        }
    }
}

/// Copies of the children `ps` of `parent`.
fn clone_all(parent: &Policy, ps: &Vec<Policy>) -> (r: Vec<Policy>)
    requires
        *parent == Policy::OneOf(*ps) || *parent == Policy::AllOf(*ps),
    ensures
        same_policies(ps@, r@),
    decreases parent, 0nat,
{
    let mut out: Vec<Policy> = Vec::new();
    let mut i: usize = 0;
    while i < ps.len()
        invariant
            *parent == Policy::OneOf(*ps) || *parent == Policy::AllOf(*ps),
            i <= ps@.len(),
            out@.len() == i,
            same_policies(ps@.subrange(0, i as int), out@),
        decreases ps@.len() - i,
    {
        proof {
            if *parent == Policy::OneOf(*ps) {
                assert(decreases_to!(*parent => parent->OneOf_0));
            } else {
                assert(decreases_to!(*parent => parent->AllOf_0));
            }
            assert(decreases_to!(*ps => ps@));
            assert(decreases_to!(ps@ => ps@[i as int]));
        }
        let c = ps[i].clone();
        let ghost before = out@;
        out.push(c);
        assert(ps@.subrange(0, i + 1).subrange(0, i as int) == ps@.subrange(0, i as int));
        assert(out@.subrange(0, i as int) == before);
        i = i + 1;
    }
    assert(ps@.subrange(0, i as int) == ps@);
    out
}

/// A value that can be turned into a policy: a scope, a policy, or a builder.
pub trait IntoPolicy: Sized {
    /// The policy this value stands for.
    spec fn policy_spec(self) -> Policy;

    /// Turns this value into a policy.
    fn into_policy(self) -> (r: Policy)
        ensures
            r == self.policy_spec(),
    ;
}

impl IntoPolicy for Policy {
    open spec fn policy_spec(self) -> Policy {
        self
    }

    fn into_policy(self) -> (r: Policy) {
        self
    }
}

impl IntoPolicy for ScopeId {
    open spec fn policy_spec(self) -> Policy {
        Policy::Scope(self)
    }

    fn into_policy(self) -> (r: Policy) {
        Policy::Scope(self)
    }
}

/// The policies that the values of `s` stand for.
pub open spec fn policies_of<P: IntoPolicy>(s: Seq<P>) -> Seq<Policy> {
    s.map_values(|p: P| p.policy_spec())
}

/// Turns every value of `items` into a policy, keeping their order.
pub fn into_policies<P: IntoPolicy>(items: Vec<P>) -> (r: Vec<Policy>)
    ensures
        r@ == policies_of(items@),
{
    let ghost all = items@;
    let mut rest = items;
    let mut out: Vec<Policy> = Vec::new();
    while rest.len() > 0
        invariant
            rest@.len() <= all.len(),
            rest@ == all.subrange(0, rest@.len() as int),
            out@ == policies_of(all.subrange(rest@.len() as int, all.len() as int)),
        decreases rest@.len(),
    {
        let item = rest.pop().unwrap();
        let p = item.into_policy();
        out.insert(0, p);
        assert(rest@ == all.subrange(0, rest@.len() as int));
        assert(out@ =~= policies_of(all.subrange(rest@.len() as int, all.len() as int)));
    }
    assert(all.subrange(0, all.len() as int) == all);
    out
}

/// Presenting `held` satisfies a requirement of `required`: they are equal, or the registry
/// has its hierarchy enabled and `held` includes `required`.
pub open spec fn grants(reg: &Registry, held: ScopeId, required: ScopeId) -> bool {
    held == required || (reg.hierarchy_spec() && reg.includes_spec(held, required))
}

/// Some scope of `presented` satisfies a requirement of `required`.
pub open spec fn satisfied(reg: &Registry, presented: Seq<ScopeId>, required: ScopeId) -> bool {
    exists|k: int| 0 <= k < presented.len() && #[trigger] grants(reg, presented[k], required)
}

/// At least one policy of `ps` holds for `presented`.
pub open spec fn any_allows(ps: Seq<Policy>, reg: &Registry, presented: Seq<ScopeId>) -> bool
    decreases ps,
{
    if ps.len() == 0 {
        false
    } else {
        any_allows(ps.subrange(0, ps.len() - 1), reg, presented) || ps[ps.len() - 1].allows(reg, presented)
    }
}

/// Every policy of `ps` holds for `presented`.
pub open spec fn all_allow(ps: Seq<Policy>, reg: &Registry, presented: Seq<ScopeId>) -> bool
    decreases ps,
{
    if ps.len() == 0 {
        true
    } else {
        all_allow(ps.subrange(0, ps.len() - 1), reg, presented) && ps[ps.len() - 1].allows(reg, presented)
    }
}

impl Policy {
    /// Whether the policy holds for the scopes `presented`.
    pub open spec fn allows(&self, reg: &Registry, presented: Seq<ScopeId>) -> bool
        decreases self,
    {
        match self {
            Policy::Scope(required) => satisfied(reg, presented, *required),
            Policy::OneOf(ps) => {
                proof {
                    assert(decreases_to!(*self => self->OneOf_0));
                    assert(decreases_to!(self->OneOf_0 => self->OneOf_0@));
                }
                any_allows(ps@, reg, presented)
            },
            Policy::AllOf(ps) => {
                proof {
                    assert(decreases_to!(*self => self->AllOf_0));
                    assert(decreases_to!(self->AllOf_0 => self->AllOf_0@));
                }
                all_allow(ps@, reg, presented)
            },
            Policy::Not(p) => !p.allows(reg, presented),
            Policy::AllowAll => true,
            Policy::DenyAll => false,
        }
    }

    /// Whether the policy holds for the scopes `scopes` presents.
    pub fn verify<T: AsScopeRef<ScopeId>>(&self, reg: &Registry, scopes: &[T]) -> (ok: bool)
        requires
            reg.wf(),
        ensures
            ok == self.allows(reg, scopes_of(scopes@)),
        decreases self,
    {
        match self {
            Policy::Scope(required) => is_satisfied(reg, scopes, *required),
            Policy::Not(p) => !p.verify(reg, scopes),
            Policy::OneOf(ps) => {
                let mut i: usize = 0;
                while i < ps.len()
                    invariant
                        *self == Policy::OneOf(*ps),
                        reg.wf(),
                        i <= ps@.len(),
                        !any_allows(ps@.subrange(0, i as int), reg, scopes_of(scopes@)),
                    decreases ps@.len() - i,
                {
                    proof {
                        assert(decreases_to!(*self => self->OneOf_0));
                        assert(decreases_to!(*ps => ps@));
                        assert(decreases_to!(ps@ => ps@[i as int]));
                    }
                    assert(ps@.subrange(0, i + 1).subrange(0, i as int) == ps@.subrange(0, i as int));
                    if ps[i].verify(reg, scopes) {
                        proof { lemma_any_allows_witness(ps@, reg, scopes_of(scopes@), i as int); }
                        return true;
                    }
                    i = i + 1;
                }
                assert(ps@.subrange(0, i as int) == ps@);
                false
            },
            Policy::AllOf(ps) => {
                let mut i: usize = 0;
                while i < ps.len()
                    invariant
                        *self == Policy::AllOf(*ps),
                        reg.wf(),
                        i <= ps@.len(),
                        all_allow(ps@.subrange(0, i as int), reg, scopes_of(scopes@)),
                    decreases ps@.len() - i,
                {
                    proof {
                        assert(decreases_to!(*self => self->AllOf_0));
                        assert(decreases_to!(*ps => ps@));
                        assert(decreases_to!(ps@ => ps@[i as int]));
                    }
                    assert(ps@.subrange(0, i + 1).subrange(0, i as int) == ps@.subrange(0, i as int));
                    if !ps[i].verify(reg, scopes) {
                        proof { lemma_all_allow_witness(ps@, reg, scopes_of(scopes@), i as int); }
                        return false;
                    }
                    i = i + 1;
                }
                assert(ps@.subrange(0, i as int) == ps@);
                true
            },
            Policy::AllowAll => true,
            Policy::DenyAll => false,
        }
    }
}

/// The policy that `and` makes of `l` and `r`: lists of requirements are merged, `DenyAll`
/// absorbs, a policy joins an existing list, and two other policies form a new list.
pub open spec fn conjunction(l: Policy, r: Policy, out: Policy) -> bool {
    if l is AllOf && r is AllOf {
        out is AllOf && out->AllOf_0@ == l->AllOf_0@ + r->AllOf_0@
    } else if l is DenyAll || r is DenyAll {
        out is DenyAll
    } else if l is AllOf {
        out is AllOf && out->AllOf_0@ == l->AllOf_0@.push(r)
    } else if r is AllOf {
        out is AllOf && out->AllOf_0@ == r->AllOf_0@.push(l)
    } else {
        out is AllOf && out->AllOf_0@ == seq![l, r]
    }
}

/// The policy that `or` makes of `l` and `r`: alternatives are merged, `AllowAll` absorbs,
/// a policy joins an existing list, and two other policies form a new list.
pub open spec fn disjunction(l: Policy, r: Policy, out: Policy) -> bool {
    if l is OneOf && r is OneOf {
        out is OneOf && out->OneOf_0@ == l->OneOf_0@ + r->OneOf_0@
    } else if l is AllowAll || r is AllowAll {
        out is AllowAll
    } else if l is OneOf {
        out is OneOf && out->OneOf_0@ == l->OneOf_0@.push(r)
    } else if r is OneOf {
        out is OneOf && out->OneOf_0@ == r->OneOf_0@.push(l)
    } else {
        out is OneOf && out->OneOf_0@ == seq![l, r]
    }
}

/// The policy that `not` makes of `p`: constants swap, a negation is removed, anything
/// else is wrapped.
pub open spec fn negation(p: Policy) -> Policy {
    match p {
        Policy::AllowAll => Policy::DenyAll,
        Policy::DenyAll => Policy::AllowAll,
        Policy::Not(inner) => *inner,
        _ => Policy::Not(Box::new(p)),
    }
}

/// `any_allows` holds of a sequence as soon as one of its policies holds.
pub proof fn lemma_any_allows_witness(ps: Seq<Policy>, reg: &Registry, presented: Seq<ScopeId>, i: int)
    requires
        0 <= i < ps.len(),
        ps[i].allows(reg, presented),
    ensures
        any_allows(ps, reg, presented),
    decreases ps.len(),
{
    if i < ps.len() - 1 {
        let front = ps.subrange(0, ps.len() - 1);
        assert(front[i] == ps[i]);
        lemma_any_allows_witness(front, reg, presented, i);
    }
}

/// `all_allow` fails of a sequence as soon as one of its policies fails.
pub proof fn lemma_all_allow_witness(ps: Seq<Policy>, reg: &Registry, presented: Seq<ScopeId>, i: int)
    requires
        0 <= i < ps.len(),
        !ps[i].allows(reg, presented),
    ensures
        !all_allow(ps, reg, presented),
    decreases ps.len(),
{
    if i < ps.len() - 1 {
        let front = ps.subrange(0, ps.len() - 1);
        assert(front[i] == ps[i]);
        lemma_all_allow_witness(front, reg, presented, i);
    }
}

impl Policy {
    /// Both policies must hold; see `conjunction` for the shape of the result.
    pub fn and<P: IntoPolicy>(self, rhs: P) -> (r: Policy)
        ensures
            conjunction(self, rhs.policy_spec(), r),
    {
        match (self, rhs.into_policy()) {
            (Policy::AllOf(mut left), Policy::AllOf(mut right)) => {
                left.append(&mut right);
                Policy::AllOf(left)
            },
            (Policy::DenyAll, _) | (_, Policy::DenyAll) => Policy::DenyAll,
            (Policy::AllOf(mut policies), other) | (other, Policy::AllOf(mut policies)) => {
                policies.push(other);
                Policy::AllOf(policies)
            },
            (left, right) => Policy::AllOf(vec![left, right]),
        }
    }

    /// Either policy must hold; see `disjunction` for the shape of the result.
    pub fn or<P: IntoPolicy>(self, rhs: P) -> (r: Policy)
        ensures
            disjunction(self, rhs.policy_spec(), r),
    {
        match (self, rhs.into_policy()) {
            (Policy::OneOf(mut left), Policy::OneOf(mut right)) => {
                left.append(&mut right);
                Policy::OneOf(left)
            },
            (Policy::AllowAll, _) | (_, Policy::AllowAll) => Policy::AllowAll,
            (Policy::OneOf(mut policies), other) | (other, Policy::OneOf(mut policies)) => {
                policies.push(other);
                Policy::OneOf(policies)
            },
            (left, right) => Policy::OneOf(vec![left, right]),
        }
    }

    /// The policy must not hold; see `negation` for the shape of the result.
    pub fn not(self) -> (r: Policy)
        ensures
            r == negation(self),
    {
        match self {
            Policy::AllowAll => Policy::DenyAll,
            Policy::DenyAll => Policy::AllowAll,
            Policy::Not(policy) => *policy,
            p => Policy::Not(Box::new(p)),
        }
    }
}

/// A list of alternatives holds exactly when one of its policies holds; an empty one never holds.
pub proof fn lemma_any_allows_exists(ps: Seq<Policy>, reg: &Registry, presented: Seq<ScopeId>)
    ensures
        any_allows(ps, reg, presented) <==> exists|i: int| 0 <= i < ps.len() && #[trigger] ps[i].allows(reg, presented),
    decreases ps.len(),
{
    if exists|i: int| 0 <= i < ps.len() && #[trigger] ps[i].allows(reg, presented) {
        let i = choose|i: int| 0 <= i < ps.len() && #[trigger] ps[i].allows(reg, presented);
        lemma_any_allows_witness(ps, reg, presented, i);
    }
    if ps.len() > 0 && any_allows(ps, reg, presented) {
        let front = ps.subrange(0, ps.len() - 1);
        lemma_any_allows_exists(front, reg, presented);
        if any_allows(front, reg, presented) {
            let j = choose|j: int| 0 <= j < front.len() && #[trigger] front[j].allows(reg, presented);
            assert(ps[j] == front[j]);
        } else {
            assert(ps[ps.len() - 1].allows(reg, presented));
        }
    }
}

/// A list of requirements holds exactly when each of its policies holds; an empty one always holds.
pub proof fn lemma_all_allow_forall(ps: Seq<Policy>, reg: &Registry, presented: Seq<ScopeId>)
    ensures
        all_allow(ps, reg, presented) <==> forall|i: int| 0 <= i < ps.len() ==> #[trigger] ps[i].allows(reg, presented),
    decreases ps.len(),
{
    if !(forall|i: int| 0 <= i < ps.len() ==> #[trigger] ps[i].allows(reg, presented)) {
        let i = choose|i: int| 0 <= i < ps.len() && !(#[trigger] ps[i].allows(reg, presented));
        lemma_all_allow_witness(ps, reg, presented, i);
    }
    if ps.len() > 0 && !all_allow(ps, reg, presented) {
        let front = ps.subrange(0, ps.len() - 1);
        lemma_all_allow_forall(front, reg, presented);
        if !all_allow(front, reg, presented) {
            let j = choose|j: int| 0 <= j < front.len() && !(#[trigger] front[j].allows(reg, presented));
            assert(ps[j] == front[j]);
        } else {
            assert(!ps[ps.len() - 1].allows(reg, presented));
        }
    }
}

/// Whether some scope of `scopes` satisfies a requirement of `required`.
fn is_satisfied<T: AsScopeRef<ScopeId>>(reg: &Registry, scopes: &[T], required: ScopeId) -> (r: bool)
    requires
        reg.wf(),
    ensures
        r == satisfied(reg, scopes_of(scopes@), required),
{
    let hierarchy = reg.hierarchy_enabled();
    let mut k: usize = 0;
    while k < scopes.len()
        invariant
            reg.wf(),
            hierarchy == reg.hierarchy_spec(),
            k <= scopes@.len(),
            forall|j: int| 0 <= j < k ==> !(#[trigger] grants(reg, scopes_of(scopes@)[j], required)),
        decreases scopes@.len() - k,
    {
        let held = *scopes[k].as_scope_ref();
        assert(held == scopes_of(scopes@)[k as int]);
        if held == required || (hierarchy && reg.includes(held, required)) {
            assert(grants(reg, scopes_of(scopes@)[k as int], required));
            return true;
        }
        k = k + 1;
    }
    false
}

/// `DenyAll` absorbs conjunction: `DenyAll and x`, and `x and DenyAll`, are `DenyAll` for every `x`.
pub proof fn lemma_deny_all_absorbs(x: Policy, left: Policy, right: Policy)
    requires
        conjunction(Policy::DenyAll, x, left),
        conjunction(x, Policy::DenyAll, right),
    ensures
        left == Policy::DenyAll,
        right == Policy::DenyAll,
{
}

/// `AllowAll` absorbs disjunction: `AllowAll or x`, and `x or AllowAll`, are `AllowAll` for every `x`.
pub proof fn lemma_allow_all_absorbs(x: Policy, left: Policy, right: Policy)
    requires
        disjunction(Policy::AllowAll, x, left),
        disjunction(x, Policy::AllowAll, right),
    ensures
        left == Policy::AllowAll,
        right == Policy::AllowAll,
{
}

/// Negating `Not(p)` gives back `p`, for every `p`.
pub proof fn lemma_double_negation(p: Policy)
    ensures
        negation(Policy::Not(Box::new(p))) == p,
{
}

/// Negation flips the meaning of a policy.
pub proof fn lemma_negation_flips(p: Policy, reg: &Registry, presented: Seq<ScopeId>)
    ensures
        negation(p).allows(reg, presented) == !p.allows(reg, presented),
{
}

/// Negating twice keeps the meaning of every policy.
pub proof fn lemma_double_negation_keeps_meaning(p: Policy, reg: &Registry, presented: Seq<ScopeId>)
    ensures
        negation(negation(p)).allows(reg, presented) == p.allows(reg, presented),
{
    lemma_negation_flips(p, reg, presented);
    lemma_negation_flips(negation(p), reg, presented);
}

/// Three policies that are neither lists of requirements nor `DenyAll`, combined by two
/// conjunctions in either association, give one flat list of exactly those three.
pub proof fn lemma_conjunction_flattens(
    a: Policy,
    b: Policy,
    c: Policy,
    ab: Policy,
    ab_c: Policy,
    bc: Policy,
    a_bc: Policy,
)
    requires
        !(a is AllOf) && !(a is DenyAll),
        !(b is AllOf) && !(b is DenyAll),
        !(c is AllOf) && !(c is DenyAll),
        conjunction(a, b, ab),
        conjunction(ab, c, ab_c),
        conjunction(b, c, bc),
        conjunction(a, bc, a_bc),
    ensures
        ab_c is AllOf && ab_c->AllOf_0@ == seq![a, b, c],
        a_bc is AllOf && a_bc->AllOf_0@ == seq![b, c, a],
{
    assert(seq![a, b].push(c) == seq![a, b, c]);
    assert(seq![b, c].push(a) == seq![b, c, a]);
}

proof fn lemma_all_allow_push(ps: Seq<Policy>, p: Policy, reg: &Registry, presented: Seq<ScopeId>)
    ensures
        all_allow(ps.push(p), reg, presented) == (all_allow(ps, reg, presented) && p.allows(reg, presented)),
{
    assert(ps.push(p).subrange(0, ps.len() as int) == ps);
}

proof fn lemma_any_allows_push(ps: Seq<Policy>, p: Policy, reg: &Registry, presented: Seq<ScopeId>)
    ensures
        any_allows(ps.push(p), reg, presented) == (any_allows(ps, reg, presented) || p.allows(reg, presented)),
{
    assert(ps.push(p).subrange(0, ps.len() as int) == ps);
}

proof fn lemma_all_allow_concat(xs: Seq<Policy>, ys: Seq<Policy>, reg: &Registry, presented: Seq<ScopeId>)
    ensures
        all_allow(xs + ys, reg, presented) == (all_allow(xs, reg, presented) && all_allow(ys, reg, presented)),
    decreases ys.len(),
{
    if ys.len() == 0 {
        assert(xs + ys == xs);
    } else {
        let front = ys.subrange(0, ys.len() - 1);
        let last = ys[ys.len() - 1];
        assert(ys == front.push(last));
        assert(xs + ys == (xs + front).push(last));
        lemma_all_allow_concat(xs, front, reg, presented);
        lemma_all_allow_push(xs + front, last, reg, presented);
        lemma_all_allow_push(front, last, reg, presented);
    }
}

proof fn lemma_any_allows_concat(xs: Seq<Policy>, ys: Seq<Policy>, reg: &Registry, presented: Seq<ScopeId>)
    ensures
        any_allows(xs + ys, reg, presented) == (any_allows(xs, reg, presented) || any_allows(ys, reg, presented)),
    decreases ys.len(),
{
    if ys.len() == 0 {
        assert(xs + ys == xs);
    } else {
        let front = ys.subrange(0, ys.len() - 1);
        let last = ys[ys.len() - 1];
        assert(ys == front.push(last));
        assert(xs + ys == (xs + front).push(last));
        lemma_any_allows_concat(xs, front, reg, presented);
        lemma_any_allows_push(xs + front, last, reg, presented);
        lemma_any_allows_push(front, last, reg, presented);
    }
}

/// The result of a conjunction holds exactly when both operands hold.
pub proof fn lemma_conjunction_meaning(l: Policy, r: Policy, out: Policy, reg: &Registry, presented: Seq<ScopeId>)
    requires
        conjunction(l, r, out),
    ensures
        out.allows(reg, presented) == (l.allows(reg, presented) && r.allows(reg, presented)),
{
    if l is AllOf && r is AllOf {
        lemma_all_allow_concat(l->AllOf_0@, r->AllOf_0@, reg, presented);
    } else if l is DenyAll || r is DenyAll {
    } else if l is AllOf {
        lemma_all_allow_push(l->AllOf_0@, r, reg, presented);
    } else if r is AllOf {
        lemma_all_allow_push(r->AllOf_0@, l, reg, presented);
    } else {
        assert(seq![l, r] == seq![l].push(r));
        assert(seq![l] == Seq::<Policy>::empty().push(l));
        lemma_all_allow_push(seq![l], r, reg, presented);
        lemma_all_allow_push(Seq::<Policy>::empty(), l, reg, presented);
    }
}

/// The result of a disjunction holds exactly when either operand holds.
pub proof fn lemma_disjunction_meaning(l: Policy, r: Policy, out: Policy, reg: &Registry, presented: Seq<ScopeId>)
    requires
        disjunction(l, r, out),
    ensures
        out.allows(reg, presented) == (l.allows(reg, presented) || r.allows(reg, presented)),
{
    if l is OneOf && r is OneOf {
        lemma_any_allows_concat(l->OneOf_0@, r->OneOf_0@, reg, presented);
    } else if l is AllowAll || r is AllowAll {
    } else if l is OneOf {
        lemma_any_allows_push(l->OneOf_0@, r, reg, presented);
    } else if r is OneOf {
        lemma_any_allows_push(r->OneOf_0@, l, reg, presented);
    } else {
        assert(seq![l, r] == seq![l].push(r));
        assert(seq![l] == Seq::<Policy>::empty().push(l));
        lemma_any_allows_push(seq![l], r, reg, presented);
        lemma_any_allows_push(Seq::<Policy>::empty(), l, reg, presented);
    }
}

} // verus!
