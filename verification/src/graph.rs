use vstd::prelude::*;
use vstd::std_specs::cmp::PartialEqSpec;
use std::rc::Rc;
use crate::errors::GraphError;
use crate::labels::{get_index, has_label, lemma_get_index_props, rc_as_ref, rc_clone,
    spec_get_index};
use crate::row::GraphRow;

verus! {

/// The labels, in label-sequence order, whose slot in `slots` holds an edge.
///
/// This is the defining statement for `get_connected_nodes`: exactly the
/// labels whose position carries a `Some` slot, kept in sequence order.
pub open spec fn connected_prefix<L, T>(labels: Seq<L>, slots: Seq<Option<T>>, n: int) -> Seq<L>
    decreases n,
{
    if n <= 0 {
        Seq::empty()
    } else if slots[n - 1] is Some {
        connected_prefix(labels, slots, n - 1).push(labels[n - 1])
    } else {
        connected_prefix(labels, slots, n - 1)
    }
}

/// The connected labels over the whole label sequence.
pub open spec fn connected_labels<L, T>(labels: Seq<L>, slots: Seq<Option<T>>) -> Seq<L> {
    connected_prefix(labels, slots, labels.len() as int)
}

/// The connected-nodes sequence holds a position's label exactly when that
/// position's slot holds an edge: every such label appears, and everything
/// that appears comes from such a position. The order is fixed by
/// `connected_prefix` itself: positions are taken low to high.
pub proof fn lemma_connected_prefix_members<L, T>(labels: Seq<L>, slots: Seq<Option<T>>, n: int)
    requires
        0 <= n <= labels.len(),
        n <= slots.len(),
    ensures
        forall|j: int|
            0 <= j < n && (#[trigger] slots[j]) is Some ==> connected_prefix(
                labels,
                slots,
                n,
            ).contains(labels[j]),
        forall|x: L|
            #[trigger] connected_prefix(labels, slots, n).contains(x) ==> exists|j: int|
                0 <= j < n && (#[trigger] slots[j]) is Some && labels[j] == x,
    decreases n,
{
    if n > 0 {
        lemma_connected_prefix_members(labels, slots, n - 1);
        let shorter = connected_prefix(labels, slots, n - 1);
        let longer = connected_prefix(labels, slots, n);
        assert forall|j: int|
            0 <= j < n && (#[trigger] slots[j]) is Some implies longer.contains(labels[j]) by {
            if j == n - 1 {
                assert(longer[longer.len() - 1] == labels[j]);
            } else {
                assert(shorter.contains(labels[j]));
                let k = choose|k: int| 0 <= k < shorter.len() && shorter[k] == labels[j];
                assert(longer[k] == labels[j]);
            }
        }
        assert forall|x: L| #[trigger] longer.contains(x) implies exists|j: int|
            0 <= j < n && (#[trigger] slots[j]) is Some && labels[j] == x by {
            let k = choose|k: int| 0 <= k < longer.len() && longer[k] == x;
            if slots[n - 1] is Some && k == longer.len() - 1 {
                assert(slots[n - 1] is Some && labels[n - 1] == x);
            } else {
                assert(shorter[k] == x);
                assert(shorter.contains(x));
            }
        }
    }
}

/// A dense labeled adjacency matrix: one row of optional edge values per
/// label, every row sharing the one label sequence fixed at construction.
pub struct Graph<L, T> {
    labels: Rc<Vec<L>>,
    grid: Vec<GraphRow<L, T>>,
}

impl<L, T> Graph<L, T> {
    /// The label sequence, as a mathematical sequence.
    pub closed spec fn spec_labels(&self) -> Seq<L> {
        self.labels@
    }

    /// The rows, as a mathematical sequence; row `i` belongs to label `i`.
    pub closed spec fn rows(&self) -> Seq<GraphRow<L, T>> {
        self.grid@
    }

    /// The edge slot from node `i` to node `j`.
    pub open spec fn edge_at(&self, i: int, j: int) -> Option<T> {
        self.rows()[i].slots()[j]
    }

    /// Well-formed: one row per label, and every row shares the graph's
    /// label sequence with one slot per label.
    pub open spec fn wf(&self) -> bool {
        &&& self.rows().len() == self.spec_labels().len()
        &&& forall|i: int| 0 <= i < self.rows().len() ==> (#[trigger] self.rows()[i]).wf()
        &&& forall|i: int|
            0 <= i < self.rows().len() ==> (#[trigger] self.rows()[i]).spec_labels()
                == self.spec_labels()
    }

    /// A read-only view of the label sequence.
    pub fn labels_vec(&self) -> (r: &Vec<L>)
        ensures
            r@ == self.spec_labels(),
    {
        rc_as_ref(&self.labels)
    }

    /// The row at an already-resolved position.
    pub fn row_at(&self, i: usize) -> (r: &GraphRow<L, T>)
        requires
            i < self.rows().len(),
        ensures
            *r == self.rows()[i as int],
    {
        &self.grid[i]
    }

    /// Build a graph over `labels` with one empty row per label.
    pub fn new_empty(labels: Vec<L>) -> (g: Self)
        ensures
            g.wf(),
            g.spec_labels() == labels@,
            forall|i: int, j: int|
                0 <= i < labels@.len() && 0 <= j < labels@.len() ==> g.edge_at(i, j) is None,
    {
        let labels: Rc<Vec<L>> = Rc::new(labels);
        let mut grid: Vec<GraphRow<L, T>> = Vec::new();

        let n = rc_as_ref(&labels).len();
        let mut k: usize = 0;
        while k < n
            invariant
                n == labels@.len(),
                k <= n,
                grid@.len() == k,
                forall|i: int| 0 <= i < k ==> (#[trigger] grid@[i]).wf(),
                forall|i: int| 0 <= i < k ==> (#[trigger] grid@[i]).spec_labels() == labels@,
                forall|i: int, j: int|
                    0 <= i < k && 0 <= j < grid@[i].slots().len() ==> (#[trigger] grid@[i].slots()[j]) is None,
            decreases n - k,
        {
            grid.push(GraphRow::new_empty(rc_clone(&labels)));
            k += 1;
        }

        Self { labels, grid }
    }
}

impl<L, T> Graph<L, T> where L: PartialEq {
    /// Safe row lookup: `None` when the label is unknown, otherwise the row
    /// at the label's position.
    pub fn get(&self, label: &L) -> (r: Option<&GraphRow<L, T>>)
        requires
            L::obeys_eq_spec(),
            self.wf(),
        ensures
            match r {
                Some(row) => {
                    &&& has_label(self.spec_labels(), *label)
                    &&& *row == self.rows()[spec_get_index(self.spec_labels(), *label)->Some_0]
                },
                None => !has_label(self.spec_labels(), *label),
            },
    {
        proof {
            lemma_get_index_props(self.labels@, *label);
        }
        let index = get_index(rc_as_ref(&self.labels), label)?;
        self.grid.get(index)
    }

    /// Fail-fast row lookup, for callers that have already validated the
    /// label; demands a known label where `get` reports absence.
    pub fn index(&self, label: L) -> (r: &GraphRow<L, T>)
        requires
            L::obeys_eq_spec(),
            self.wf(),
            has_label(self.spec_labels(), label),
        ensures
            *r == self.rows()[spec_get_index(self.spec_labels(), label)->Some_0],
    {
        proof {
            lemma_get_index_props(self.labels@, label);
        }
        let index = get_index(rc_as_ref(&self.labels), &label).unwrap();
        &self.grid[index]
    }

    /// Fail-fast bulk row replacement: replaces the row of a known label,
    /// all-or-nothing, rejecting a vector of the wrong length.
    pub fn set_row(&mut self, label: L, values: Vec<Option<T>>) -> (r: Result<(), GraphError>)
        requires
            L::obeys_eq_spec(),
            old(self).wf(),
            has_label(old(self).spec_labels(), label),
        ensures
            final(self).spec_labels() == old(self).spec_labels(),
            final(self).wf(),
            ({
                let i = spec_get_index(old(self).spec_labels(), label)->Some_0;
                match r {
                    Ok(()) => {
                        &&& values@.len() == old(self).spec_labels().len()
                        &&& final(self).rows()[i].slots() == values@
                        &&& forall|k: int|
                            0 <= k < old(self).rows().len() && k != i ==> final(self).rows()[k]
                                == old(self).rows()[k]
                    },
                    Err(e) => {
                        &&& e == GraphError::InvalidVecSizeError
                        &&& values@.len() != old(self).spec_labels().len()
                        &&& final(self).rows() == old(self).rows()
                    },
                }
            }),
    {
        proof {
            lemma_get_index_props(self.labels@, label);
        }
        let index = get_index(rc_as_ref(&self.labels), &label).unwrap();
        let r = self.grid[index].set(values);
        proof {
            if r is Err {
                assert(self.grid@ =~= old(self).grid@);
            }
        }
        r
    }

    /// Fail-fast edge update: stores `value` in the slot from `from` to `to`,
    /// both of which must be known labels.
    pub fn set_edge(&mut self, from: L, to: L, value: Option<T>)
        requires
            L::obeys_eq_spec(),
            old(self).wf(),
            has_label(old(self).spec_labels(), from),
            has_label(old(self).spec_labels(), to),
        ensures
            final(self).spec_labels() == old(self).spec_labels(),
            final(self).wf(),
            ({
                let i = spec_get_index(old(self).spec_labels(), from)->Some_0;
                let j = spec_get_index(old(self).spec_labels(), to)->Some_0;
                &&& final(self).rows()[i].slots() == old(self).rows()[i].slots().update(j, value)
                &&& forall|k: int|
                    0 <= k < old(self).rows().len() && k != i ==> final(self).rows()[k]
                        == old(self).rows()[k]
            }),
    {
        proof {
            lemma_get_index_props(self.labels@, from);
        }
        let index = get_index(rc_as_ref(&self.labels), &from).unwrap();
        self.grid[index].set_at(to, value);
    }

    /// Every label whose slot in the row of `label` holds an edge, in
    /// label-sequence order; demands that `label` itself is known.
    pub fn get_connected_nodes(&self, label: L) -> (r: Vec<&L>)
        requires
            L::obeys_eq_spec(),
            self.wf(),
            has_label(self.spec_labels(), label),
        ensures
            ({
                let i = spec_get_index(self.spec_labels(), label)->Some_0;
                r@.map_values(|l: &L| *l) == connected_labels(
                    self.spec_labels(),
                    self.rows()[i].slots(),
                )
            }),
    {
        let mut result: Vec<&L> = Vec::new();

        let row: &GraphRow<L, T> = self.index(label);
        let ghost i = spec_get_index(self.spec_labels(), label)->Some_0;
        proof {
            lemma_get_index_props(self.labels@, label);
        }

        let labels_ref: &Vec<L> = rc_as_ref(&self.labels);
        let n = labels_ref.len();
        let mut j: usize = 0;
        while j < n
            invariant
                n == self.spec_labels().len(),
                labels_ref@ == self.spec_labels(),
                j <= n,
                self.wf(),
                0 <= i < self.rows().len(),
                *row == self.rows()[i],
                row.slots().len() == n,
                result@.map_values(|l: &L| *l) == connected_prefix(
                    self.spec_labels(),
                    self.rows()[i].slots(),
                    j as int,
                ),
            decreases n - j,
        {
            if row.slot_at(j).is_some() {
                result.push(&labels_ref[j]);
            }
            proof {
                assert(result@.map_values(|l: &L| *l) =~= connected_prefix(
                    self.spec_labels(),
                    self.rows()[i].slots(),
                    j + 1,
                ));
            }
            j += 1;
        }

        result
    }
}

} // verus!
