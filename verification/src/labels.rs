use vstd::prelude::*;
use vstd::std_specs::cmp::PartialEqSpec;
use std::rc::Rc;

verus! {

/// The position of the first element of `labels` that `target` equals under
/// the label type's equality, or `None` when no element does.
///
/// Every label-keyed lookup of the library resolves labels through this one
/// definition, so all of them agree on first-match semantics.
pub open spec fn spec_get_index<L: PartialEq>(labels: Seq<L>, target: L) -> Option<int>
    decreases labels.len(),
{
    if labels.len() == 0 {
        None
    } else if target.eq_spec(&labels[0]) {
        Some(0int)
    } else {
        match spec_get_index(labels.skip(1), target) {
            Some(i) => Some(i + 1),
            None => None,
        }
    }
}

/// `labels` holds a known label: some element equals `target`.
pub open spec fn has_label<L: PartialEq>(labels: Seq<L>, target: L) -> bool {
    spec_get_index(labels, target) is Some
}

/// What `spec_get_index` returns: a position within bounds whose element is
/// the first match, or `None` exactly when no element matches.
pub proof fn lemma_get_index_props<L: PartialEq>(labels: Seq<L>, target: L)
    ensures
        match spec_get_index(labels, target) {
            Some(i) => {
                &&& 0 <= i < labels.len()
                &&& target.eq_spec(&labels[i])
                &&& forall|j: int| 0 <= j < i ==> !(#[trigger] target.eq_spec(&labels[j]))
            },
            None => forall|j: int|
                0 <= j < labels.len() ==> !(#[trigger] target.eq_spec(&labels[j])),
        },
    decreases labels.len(),
{
    if labels.len() == 0 {
    } else if target.eq_spec(&labels[0]) {
    } else {
        lemma_get_index_props(labels.skip(1), target);
        assert forall|j: int| 1 <= j < labels.len() implies labels[j] == labels.skip(1)[j - 1] by {}
    }
}

/// A label is found exactly when `target` equals some element.
pub proof fn lemma_has_label_iff_member<L: PartialEq>(labels: Seq<L>, target: L)
    ensures
        has_label(labels, target) <==> exists|i: int|
            0 <= i < labels.len() && #[trigger] target.eq_spec(&labels[i]),
{
    lemma_get_index_props(labels, target);
}

/// No two labels of the sequence are equal, and each equals itself: the
/// uniqueness invariant a graph's label sequence is expected to satisfy.
pub open spec fn distinct_labels<L: PartialEq>(labels: Seq<L>) -> bool {
    forall|i: int, j: int|
        0 <= i < labels.len() && 0 <= j < labels.len() ==> ((#[trigger] labels[i].eq_spec(
            &labels[j],
        )) <==> i == j)
}

/// With distinct labels, every label resolves to its own position.
pub proof fn lemma_distinct_resolves_self<L: PartialEq>(labels: Seq<L>, i: int)
    requires
        distinct_labels(labels),
        0 <= i < labels.len(),
    ensures
        spec_get_index(labels, labels[i]) == Some(i),
{
    lemma_get_index_props(labels, labels[i]);
    match spec_get_index(labels, labels[i]) {
        Some(k) => {
            assert(labels[i].eq_spec(&labels[k]));
        },
        None => {
            assert(!labels[i].eq_spec(&labels[i]));
        },
    }
}

/// Linear scan for `label` in `labels`; the position of the first match.
pub fn get_index<L: PartialEq>(labels: &Vec<L>, label: &L) -> (r: Option<usize>)
    requires
        L::obeys_eq_spec(),
    ensures
        match r {
            Some(i) => spec_get_index(labels@, *label) == Some(i as int),
            None => spec_get_index(labels@, *label) is None,
        },
{
    let n = labels.len();
    let mut i: usize = 0;
    while i < n
        invariant
            L::obeys_eq_spec(),
            n == labels@.len(),
            i <= n,
            forall|j: int| 0 <= j < i ==> !(#[trigger] label.eq_spec(&labels@[j])),
        decreases n - i,
    {
        if label == &labels[i] {
            proof {
                lemma_get_index_props(labels@, *label);
            }
            return Some(i);
        }
        i += 1;
    }
    proof {
        lemma_get_index_props(labels@, *label);
    }
    None
}

/// Relies on `std::rc::Rc::clone`: the returned handle shares the same value.
#[verifier::external_body]
pub(crate) fn rc_clone<T>(rc: &Rc<T>) -> (r: Rc<T>)
    ensures
        r == *rc,
{
    Rc::clone(rc)
}

/// Relies on `std::rc::Rc::as_ref`: borrows the shared value.
#[verifier::external_body]
pub(crate) fn rc_as_ref<T>(rc: &Rc<T>) -> (r: &T)
    ensures
        *r == **rc,
{
    rc.as_ref()
}

} // verus!
