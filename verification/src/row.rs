use vstd::prelude::*;
use vstd::std_specs::cmp::PartialEqSpec;
use std::rc::Rc;
use crate::errors::GraphError;
use crate::labels::{get_index, has_label, rc_as_ref, spec_get_index};

verus! {

/// One node's outgoing-edge vector: one optional edge value per target label,
/// in label-sequence order, sharing the owning graph's label sequence.
pub struct GraphRow<L, T> {
    /// The label sequence shared with the owning graph.
    pub labels: Rc<Vec<L>>,
    row: Vec<Option<T>>,
}

impl<L, T> GraphRow<L, T> {
    /// The shared label sequence, as a mathematical sequence.
    pub closed spec fn spec_labels(&self) -> Seq<L> {
        self.labels@
    }

    /// The edge slots, as a mathematical sequence.
    pub closed spec fn slots(&self) -> Seq<Option<T>> {
        self.row@
    }

    /// Well-formed: exactly one slot per label.
    pub open spec fn wf(&self) -> bool {
        self.slots().len() == self.spec_labels().len()
    }

    /// Allocate a row of `labels.len()` empty slots sharing `labels`.
    pub fn new_empty(labels: Rc<Vec<L>>) -> (r: Self)
        ensures
            r.wf(),
            r.spec_labels() == labels@,
            forall|i: int| 0 <= i < r.slots().len() ==> r.slots()[i] is None,
    {
        let len = rc_as_ref(&labels).len();
        Self { labels, row: none_vec(len) }
    }

    /// Replace the whole row at once; all-or-nothing. Succeeds exactly when
    /// `values` has one entry per label; on failure the row is unchanged.
    pub fn set(&mut self, values: Vec<Option<T>>) -> (r: Result<(), GraphError>)
        ensures
            match r {
                Ok(()) => {
                    &&& values@.len() == old(self).spec_labels().len()
                    &&& final(self).spec_labels() == old(self).spec_labels()
                    &&& final(self).slots() == values@
                    &&& final(self).wf()
                },
                Err(e) => {
                    &&& e == GraphError::InvalidVecSizeError
                    &&& values@.len() != old(self).spec_labels().len()
                    &&& *final(self) == *old(self)
                },
            },
    {
        if rc_as_ref(&self.labels).len() != values.len() {
            return Err(GraphError::InvalidVecSizeError);
        }

        self.row = values;

        Ok(())
    }

    /// The slot at an already-resolved position.
    pub fn slot_at(&self, i: usize) -> (r: &Option<T>)
        requires
            i < self.slots().len(),
        ensures
            *r == self.slots()[i as int],
    {
        &self.row[i]
    }

    /// The number of slots, which equals the number of labels.
    pub fn len(&self) -> (r: usize)
        ensures
            r == self.spec_labels().len(),
    {
        rc_as_ref(&self.labels).len()
    }
}

impl<L, T> GraphRow<L, T> where L: PartialEq {
    /// Safe slot lookup: `None` when the label is unknown, otherwise the slot
    /// at the label's position.
    pub fn get(&self, label: &L) -> (r: Option<&Option<T>>)
        requires
            L::obeys_eq_spec(),
            self.wf(),
        ensures
            match r {
                Some(slot) => {
                    &&& has_label(self.spec_labels(), *label)
                    &&& *slot == self.slots()[spec_get_index(self.spec_labels(), *label)->Some_0]
                },
                None => !has_label(self.spec_labels(), *label),
            },
    {
        proof {
            crate::labels::lemma_get_index_props(self.labels@, *label);
        }
        let index = get_index(rc_as_ref(&self.labels), label)?;
        self.row.get(index)
    }

    /// Fail-fast slot lookup, for callers that have already validated the
    /// label; demands a known label where `get` reports absence.
    pub fn index(&self, label: L) -> (r: &Option<T>)
        requires
            L::obeys_eq_spec(),
            self.wf(),
            has_label(self.spec_labels(), label),
        ensures
            *r == self.slots()[spec_get_index(self.spec_labels(), label)->Some_0],
    {
        proof {
            crate::labels::lemma_get_index_props(self.labels@, label);
        }
        let index = get_index(rc_as_ref(&self.labels), &label).unwrap();
        &self.row[index]
    }

    /// Fail-fast slot replacement, for callers that have already validated
    /// the label: stores `value` at the label's position.
    pub fn set_at(&mut self, label: L, value: Option<T>)
        requires
            L::obeys_eq_spec(),
            old(self).wf(),
            has_label(old(self).spec_labels(), label),
        ensures
            final(self).spec_labels() == old(self).spec_labels(),
            final(self).slots() == old(self).slots().update(
                spec_get_index(old(self).spec_labels(), label)->Some_0,
                value,
            ),
            final(self).wf(),
    {
        proof {
            crate::labels::lemma_get_index_props(self.labels@, label);
        }
        let index = get_index(rc_as_ref(&self.labels), &label).unwrap();
        self.row[index] = value;
    }
}

/// Round trip: after a successful bulk `set` with `values` (so the slots
/// equal `values`), the slot that `get` reports for the label at any position
/// `i` is exactly `values[i]`: with distinct labels every label resolves to
/// its own position, so reading each label back reproduces the input vector
/// in order.
pub proof fn lemma_set_get_round_trip<L: PartialEq, T>(
    row: GraphRow<L, T>,
    values: Seq<Option<T>>,
    i: int,
)
    requires
        row.wf(),
        crate::labels::distinct_labels(row.spec_labels()),
        row.slots() == values,
        0 <= i < row.spec_labels().len(),
    ensures
        spec_get_index(row.spec_labels(), row.spec_labels()[i]) == Some(i),
        row.slots()[spec_get_index(row.spec_labels(), row.spec_labels()[i])->Some_0] == values[i],
{
    crate::labels::lemma_distinct_resolves_self(row.spec_labels(), i);
}

/// A vector of `len` empty slots.
pub fn none_vec<T>(len: usize) -> (r: Vec<Option<T>>)
    ensures
        r@.len() == len,
        forall|i: int| 0 <= i < len ==> r@[i] is None,
{
    let mut res: Vec<Option<T>> = Vec::new();

    while res.len() < len
        invariant
            res@.len() <= len,
            forall|i: int| 0 <= i < res@.len() ==> res@[i] is None,
        decreases len - res@.len(),
    {
        res.push(None);
    }

    res
}

} // verus!
