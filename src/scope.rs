//! Scope descriptors and the label-path relation between them.

use vstd::prelude::*;
use vstd::string::*;

verus! {

/// The identifier of a scope: its position in the list a registry was built from.
pub type ScopeId = usize;

/// Cheap conversion of a value, or a reference to it, into a reference to a scope.
pub trait AsScopeRef<S> {
    /// The scope this value stands for.
    spec fn scope_of(&self) -> S;

    /// A reference to the scope this value stands for.
    fn as_scope_ref(&self) -> (r: &S)
        ensures
            *r == self.scope_of(),
    ;
}

impl<S> AsScopeRef<S> for S {
    open spec fn scope_of(&self) -> S {
        *self
    }

    fn as_scope_ref(&self) -> (r: &S) {
        self
    }
}

impl<'a, S> AsScopeRef<S> for &'a S {
    open spec fn scope_of(&self) -> S {
        **self
    }

    fn as_scope_ref(&self) -> (r: &S) {
        *self
    }
}

impl<'a, 'b, S> AsScopeRef<S> for &'a &'b S {
    open spec fn scope_of(&self) -> S {
        ***self
    }

    fn as_scope_ref(&self) -> (r: &S) {
        **self
    }
}

/// The scopes that the values of `s` stand for.
pub open spec fn scopes_of<S, T: AsScopeRef<S>>(s: Seq<T>) -> Seq<S> {
    s.map_values(|t: T| t.scope_of())
}

/// The label path of a scope, as sequences of characters.
pub open spec fn labels_view(labels: Seq<String>) -> Seq<Seq<char>> {
    labels.map_values(|l: String| l@)
}

/// `a` is an element-wise prefix of `b` (equal paths included).
pub open spec fn is_label_prefix(a: Seq<Seq<char>>, b: Seq<Seq<char>>) -> bool {
    a.len() <= b.len() && b.subrange(0, a.len() as int) == a
}

/// Whether the label path `a` is a prefix of the label path `b`.
///
/// Labels are compared whole: `["foo"]` is a prefix of `["foo", "bar"]` but not of `["foobar"]`.
pub fn starts_with_labels(a: &Vec<String>, b: &Vec<String>) -> (r: bool)
    ensures
        r == is_label_prefix(labels_view(b@), labels_view(a@)),
{
    if b.len() > a.len() {
        return false;
    }
    let mut i: usize = 0;
    while i < b.len()
        invariant
            b.len() <= a.len(),
            i <= b.len(),
            forall|k: int| 0 <= k < i ==> a@[k]@ == b@[k]@,
        decreases b.len() - i,
    {
        if a[i] != b[i] {
            assert(labels_view(a@).subrange(0, b.len() as int)[i as int] != labels_view(b@)[i as int]);
            return false;
        }
        i = i + 1;
    }
    assert(labels_view(a@).subrange(0, b.len() as int) =~= labels_view(b@));
    true
}

/// `sep` occurs in `s` at position `i`.
pub open spec fn occurs_at(s: Seq<char>, sep: Seq<char>, i: int) -> bool {
    0 <= i && i + sep.len() <= s.len() && s.subrange(i, i + sep.len() as int) == sep
}

/// The first position at or after `from` where `sep` occurs in `s`, or -1 when there is none.
pub open spec fn first_occurrence(s: Seq<char>, sep: Seq<char>, from: int) -> int
    decreases s.len() - from,
{
    if from < 0 || from >= s.len() || from + sep.len() > s.len() {
        -1
    } else if occurs_at(s, sep, from) {
        from
    } else {
        first_occurrence(s, sep, from + 1)
    }
}

/// The pieces of `s` between the occurrences of `sep`, from left to right; with an empty
/// separator, `s` is one piece.
pub open spec fn split_on(s: Seq<char>, sep: Seq<char>) -> Seq<Seq<char>>
    decreases s.len(),
{
    let k = first_occurrence(s, sep, 0);
    if sep.len() == 0 || k < 0 {
        seq![s]
    } else {
        proof {
            lemma_first_occurrence_bounds(s, sep, 0);
        }
        seq![s.subrange(0, k)] + split_on(s.subrange(k + sep.len() as int, s.len() as int), sep)
    }
}

/// The first occurrence found from `from`, if any, lies at or after `from` and is an occurrence.
pub proof fn lemma_first_occurrence_bounds(s: Seq<char>, sep: Seq<char>, from: int)
    ensures
        first_occurrence(s, sep, from) == -1 || (from <= first_occurrence(s, sep, from)
            && occurs_at(s, sep, first_occurrence(s, sep, from))),
    decreases s.len() - from,
{
    if !(from < 0 || from >= s.len() || from + sep.len() > s.len()) && !occurs_at(s, sep, from) {
        lemma_first_occurrence_bounds(s, sep, from + 1);
    }
}

/// The labels that an explicit scope name stands for: its pieces between separators.
pub fn split_labels(name: &str, separator: &str) -> (r: Vec<String>)
    ensures
        labels_view(r@) == split_on(name@, separator@),
{
    let n = name.unicode_len();
    let m = separator.unicode_len();
    let sep = String::from_str(separator);
    let mut labels: Vec<String> = Vec::new();
    if m == 0 {
        labels.push(String::from_str(name));
        assert(labels_view(labels@) == seq![name@]);
        return labels;
    }
    let mut start: usize = 0;
    let mut i: usize = 0;
    assert(name@.subrange(0, n as int) == name@);
    assert(labels_view(labels@) + split_on(name@, separator@) == split_on(name@, separator@));
    while m <= n && i <= n - m
        invariant
            n == name@.len(),
            m == separator@.len(),
            m > 0,
            sep@ == separator@,
            start <= i <= n,
            split_on(name@, separator@) == labels_view(labels@) + split_on(name@.subrange(start as int, n as int), separator@),
            first_occurrence(name@.subrange(start as int, n as int), separator@, 0)
                == first_occurrence(name@.subrange(start as int, n as int), separator@, i - start),
        decreases n - i,
    {
        let ghost rest = name@.subrange(start as int, n as int);
        let window = String::from_str(name.substring_char(i, i + m));
        assert(rest.subrange(i - start, i - start + m) == name@.subrange(i as int, i + m));
        if window == sep {
            let label = String::from_str(name.substring_char(start, i));
            let ghost before = labels@;
            labels.push(label);
            proof {
                assert(occurs_at(rest, separator@, i - start));
                assert(first_occurrence(rest, separator@, 0) == i - start);
                assert(rest.subrange(0, i - start) == name@.subrange(start as int, i as int));
                assert(rest.subrange(i - start + m, rest.len() as int) == name@.subrange(i + m, n as int));
                assert(labels_view(labels@) == labels_view(before) + seq![label@]);
                assert(split_on(rest, separator@) == seq![rest.subrange(0, i - start)]
                    + split_on(rest.subrange(i - start + m, rest.len() as int), separator@));
            }
            start = i + m;
            i = i + m;
        } else {
            proof {
                assert(!occurs_at(rest, separator@, i - start));
            }
            i = i + 1;
        }
    }
    let ghost rest = name@.subrange(start as int, n as int);
    let label = String::from_str(name.substring_char(start, n));
    let ghost before = labels@;
    labels.push(label);
    proof {
        assert(first_occurrence(rest, separator@, i - start) == -1);
        assert(split_on(rest, separator@) == seq![rest]);
        assert(labels_view(labels@) == labels_view(before) + seq![label@]);
    }
    labels
}

/// The labels joined by `sep`.
pub open spec fn join(labels: Seq<Seq<char>>, sep: Seq<char>) -> Seq<char>
    decreases labels.len(),
{
    if labels.len() == 0 {
        Seq::empty()
    } else if labels.len() == 1 {
        labels[0]
    } else {
        join(labels.drop_last(), sep) + sep + labels.last()
    }
}

/// The labels joined by `sep`.
pub fn join_labels(labels: &Vec<String>, sep: &str) -> (r: String)
    ensures
        r@ == join(labels_view(labels@), sep@),
{
    let mut out = String::new();
    let mut i: usize = 0;
    while i < labels.len()
        invariant
            i <= labels@.len(),
            out@ == join(labels_view(labels@).subrange(0, i as int), sep@),
        decreases labels@.len() - i,
    {
        let ghost done = labels_view(labels@).subrange(0, i as int);
        assert(labels_view(labels@).subrange(0, i + 1).drop_last() == done);
        if i > 0 {
            out.append(sep);
        }
        out.append(labels[i].as_str());
        i = i + 1;
    }
    assert(labels_view(labels@).subrange(0, i as int) == labels_view(labels@));
    out
}

/// One scope of a registry: its label path and the scopes it declares as included.
#[derive(Debug, Clone, PartialEq, Eq)]
pub struct ScopeDescriptor {
    /// The structural path of the scope, e.g. `["profile", "readonly"]`.
    pub labels: Vec<String>,
    /// Scopes that this one includes regardless of their labels.
    pub explicit_includes: Vec<ScopeId>,
}

impl ScopeDescriptor {
    /// A descriptor with the given labels and no explicit inclusion.
    pub fn new(labels: Vec<String>) -> (r: ScopeDescriptor)
        ensures
            r.labels == labels,
            r.explicit_includes@ == Seq::<ScopeId>::empty(),
    {
        ScopeDescriptor { labels, explicit_includes: Vec::new() }
    }

    /// A descriptor whose labels are the pieces of `name` between occurrences of `separator`,
    /// with no explicit inclusion.
    pub fn from_name(name: &str, separator: &str) -> (r: ScopeDescriptor)
        ensures
            labels_view(r.labels@) == split_on(name@, separator@),
            r.explicit_includes@ == Seq::<ScopeId>::empty(),
    {
        ScopeDescriptor::new(split_labels(name, separator))
    }

    /// The labels joined by `separator`.
    pub fn name(&self, separator: &str) -> (r: String)
        ensures
            r@ == join(labels_view(self.labels@), separator@),
    {
        join_labels(&self.labels, separator)
    }

    /// `prefix`, then the labels joined by `separator`.
    pub fn full_name(&self, separator: &str, prefix: &str) -> (r: String)
        ensures
            r@ == prefix@ + join(labels_view(self.labels@), separator@),
    {
        let joined = join_labels(&self.labels, separator);
        String::from_str(prefix).concat(joined.as_str())
    }

    /// Declares that this scope includes `other`; an id outside the registry adds no inclusion.
    pub fn including(self, other: ScopeId) -> (r: ScopeDescriptor)
        ensures
            r.labels == self.labels,
            r.explicit_includes@ == self.explicit_includes@.push(other),
    {
        let mut explicit_includes = self.explicit_includes;
        explicit_includes.push(other);
        ScopeDescriptor { labels: self.labels, explicit_includes }
    }
}

/// The labels of scope `a` are a prefix of those of another scope `b` among `ds`.
pub open spec fn label_edge(ds: Seq<ScopeDescriptor>, a: ScopeId, b: ScopeId) -> bool {
    &&& a < ds.len()
    &&& b < ds.len()
    &&& a != b
    &&& is_label_prefix(labels_view(ds[a as int].labels@), labels_view(ds[b as int].labels@))
}

/// There is a direct inclusion edge from scope `a` to scope `b` among `ds`:
/// `a`'s labels are a prefix of `b`'s (and `a` is not `b`), or `a` names `b` explicitly.
pub open spec fn direct_edge(ds: Seq<ScopeDescriptor>, a: ScopeId, b: ScopeId) -> bool {
    &&& a < ds.len()
    &&& b < ds.len()
    &&& (label_edge(ds, a, b) || ds[a as int].explicit_includes@.contains(b))
}

} // verus!
