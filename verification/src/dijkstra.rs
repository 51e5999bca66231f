use vstd::prelude::*;
use vstd::std_specs::cmp::PartialEqSpec;
use crate::errors::GraphError;
use crate::graph::Graph;
use crate::labels::{get_index, lemma_get_index_props, spec_get_index};

verus! {

/// `p` is a walk through the adjacency matrix: a non-empty sequence of node
/// positions in which every consecutive pair is joined by an edge.
pub open spec fn is_index_path<L, T>(g: &Graph<L, T>, p: Seq<int>) -> bool {
    &&& p.len() >= 1
    &&& forall|k: int| 0 <= k < p.len() ==> 0 <= #[trigger] p[k] < g.spec_labels().len()
    &&& forall|k: int| 0 <= k < p.len() - 1 ==> (#[trigger] g.edge_at(p[k], p[k + 1])) is Some
}

/// `p` is a walk that starts at position `si` and ends at position `ei`.
pub open spec fn is_index_path_between<L, T>(g: &Graph<L, T>, p: Seq<int>, si: int, ei: int) -> bool {
    &&& is_index_path(g, p)
    &&& p[0] == si
    &&& p[p.len() - 1] == ei
}

/// Some walk joins position `si` to position `ei`.
pub open spec fn reachable<L, T>(g: &Graph<L, T>, si: int, ei: int) -> bool {
    exists|p: Seq<int>| is_index_path_between(g, p, si, ei)
}

/// A sequence of node positions, as mathematical integers.
pub open spec fn upath(p: Seq<usize>) -> Seq<int> {
    p.map_values(|x: usize| x as int)
}

/// Addition of tentative distances, saturating at the largest weight the
/// algorithm can store; mirrors `u64::saturating_add`.
pub open spec fn sat_add(a: int, b: int) -> int {
    if a + b > u64::MAX as int {
        u64::MAX as int
    } else {
        a + b
    }
}

/// The weight of the edge from position `a` to position `b`.
pub open spec fn edge_weight<L>(g: &Graph<L, u64>, a: int, b: int) -> int {
    g.edge_at(a, b)->Some_0 as int
}

/// The saturating weight of a walk: its edge weights added up left to right
/// with `sat_add`. On walks whose plain sum stays within `u64` this equals
/// the plain sum.
pub open spec fn sat_path_weight<L>(g: &Graph<L, u64>, p: Seq<int>) -> int
    decreases p.len(),
{
    if p.len() <= 1 {
        0
    } else {
        sat_add(
            sat_path_weight(g, p.drop_last()),
            edge_weight(g, p[p.len() - 2], p[p.len() - 1]),
        )
    }
}

/// The plain weight of a walk: its edge weights added up without saturation.
pub open spec fn path_weight<L>(g: &Graph<L, u64>, p: Seq<int>) -> int
    decreases p.len(),
{
    if p.len() <= 1 {
        0
    } else {
        path_weight(g, p.drop_last()) + edge_weight(g, p[p.len() - 2], p[p.len() - 1])
    }
}

/// Plain walk weights are sums of non-negative edge weights.
pub proof fn lemma_path_weight_nonneg<L>(g: &Graph<L, u64>, p: Seq<int>)
    ensures
        0 <= path_weight(g, p),
    decreases p.len(),
{
    if p.len() > 1 {
        lemma_path_weight_nonneg(g, p.drop_last());
    }
}

/// On a walk whose plain weight fits in the weight type, the saturating
/// weight is the plain weight, so the shortest-path contract compares plain
/// sums of edge weights there.
pub proof fn lemma_sat_weight_is_plain_weight<L>(g: &Graph<L, u64>, p: Seq<int>)
    requires
        path_weight(g, p) <= u64::MAX as int,
    ensures
        sat_path_weight(g, p) == path_weight(g, p),
    decreases p.len(),
{
    if p.len() > 1 {
        lemma_path_weight_nonneg(g, p.drop_last());
        lemma_sat_weight_is_plain_weight(g, p.drop_last());
    }
}

proof fn lemma_sat_weight_range<L>(g: &Graph<L, u64>, p: Seq<int>)
    ensures
        0 <= sat_path_weight(g, p) <= u64::MAX as int,
    decreases p.len(),
{
    if p.len() > 1 {
        lemma_sat_weight_range(g, p.drop_last());
    }
}

proof fn lemma_sat_weight_take<L>(g: &Graph<L, u64>, p: Seq<int>, m: int)
    requires
        1 <= m <= p.len(),
    ensures
        sat_path_weight(g, p.take(m)) <= sat_path_weight(g, p),
    decreases p.len() - m,
{
    if m == p.len() {
        assert(p.take(m) =~= p);
    } else {
        lemma_sat_weight_take(g, p, m + 1);
        assert(p.take(m + 1).drop_last() =~= p.take(m));
        lemma_sat_weight_range(g, p.take(m));
        assert(sat_path_weight(g, p.take(m)) <= sat_path_weight(g, p.take(m + 1)));
    }
}

proof fn lemma_take_is_path<L, T>(g: &Graph<L, T>, q: Seq<int>, m: int)
    requires
        is_index_path(g, q),
        1 <= m <= q.len(),
    ensures
        is_index_path(g, q.take(m)),
{
    let t = q.take(m);
    assert forall|k: int| 0 <= k < t.len() - 1 implies (#[trigger] g.edge_at(t[k], t[k + 1]))
        is Some by {
        assert(g.edge_at(q[k], q[k + 1]) is Some);
    }
}

/// The first position along `q`, after `lo`, that is not yet visited.
proof fn first_unvisited_index(visited: Seq<bool>, q: Seq<int>, lo: int) -> (m: int)
    requires
        forall|k: int| 0 <= k < q.len() ==> 0 <= #[trigger] q[k] < visited.len(),
        0 <= lo < q.len(),
        visited[q[lo]],
        !visited[q[q.len() - 1]],
    ensures
        lo < m < q.len(),
        !visited[q[m]],
        forall|t: int| lo <= t < m ==> visited[q[t]],
    decreases q.len() - lo,
{
    assert(lo < q.len() - 1);
    if !visited[q[lo + 1]] {
        lo + 1
    } else {
        first_unvisited_index(visited, q, lo + 1)
    }
}

/// The distance of position `j`, as a mathematical integer.
pub open spec fn dist_val(dist: Seq<Option<u64>>, j: int) -> int {
    dist[j]->Some_0 as int
}

/// Every edge from a visited node to an unvisited one has been relaxed: the
/// head holds a tentative distance no worse than the tail's distance plus
/// the edge.
pub open spec fn edges_relaxed<L>(
    g: &Graph<L, u64>,
    dist: Seq<Option<u64>>,
    visited: Seq<bool>,
) -> bool {
    forall|v: int, j: int|
        #![trigger visited[v], g.edge_at(v, j)]
        0 <= v < visited.len() && 0 <= j < visited.len() && visited[v] && !visited[j]
            && g.edge_at(v, j) is Some ==> dist[j] is Some && dist_val(dist, j) <= sat_add(
            dist_val(dist, v),
            edge_weight(g, v, j),
        )
}

/// Every visited node is settled: its tentative distance is a lower bound on
/// the saturating weight of every walk that reaches it from the start.
pub open spec fn settled<L>(
    g: &Graph<L, u64>,
    dist: Seq<Option<u64>>,
    visited: Seq<bool>,
    si: int,
) -> bool {
    forall|v: int, q: Seq<int>|
        #![trigger visited[v], is_index_path_between(g, q, si, v)]
        0 <= v < visited.len() && visited[v] && is_index_path_between(g, q, si, v) ==> dist[v]
            is Some && dist_val(dist, v) <= sat_path_weight(g, q)
}

/// The selected node of least tentative distance among the unvisited is
/// itself settled: its distance bounds the weight of every walk from the
/// start, by cutting such a walk at its first unvisited position.
proof fn lemma_selected_min_is_settled<L>(
    g: &Graph<L, u64>,
    dist: Seq<Option<u64>>,
    visited: Seq<bool>,
    si: int,
    u: int,
    q: Seq<int>,
)
    requires
        visited.len() == g.spec_labels().len(),
        dist.len() == visited.len(),
        0 <= si < dist.len(),
        0 <= u < dist.len(),
        dist[si] == Some(0u64),
        edges_relaxed(g, dist, visited),
        settled(g, dist, visited, si),
        forall|k: int|
            0 <= k < dist.len() && !visited[k] && (#[trigger] dist[k]) is Some ==> dist_val(
                dist,
                u,
            ) <= dist_val(dist, k),
        !visited[u],
        dist[u] is Some,
        u != si ==> visited[si],
        is_index_path_between(g, q, si, u),
    ensures
        dist_val(dist, u) <= sat_path_weight(g, q),
{
    if u == si {
        lemma_sat_weight_range(g, q);
    } else {
        let m = first_unvisited_index(visited, q, 0);
        let prev = q[m - 1];
        lemma_take_is_path(g, q, m);
        assert(q.take(m)[0] == q[0]);
        assert(q.take(m)[m - 1] == prev);
        assert(is_index_path_between(g, q.take(m), si, prev));
        assert(dist[prev] is Some && dist_val(dist, prev) <= sat_path_weight(g, q.take(m)));
        assert(0 <= m - 1 < q.len() - 1);
        assert(g.edge_at(q[m - 1], q[m - 1 + 1]) is Some);
        assert(!visited[q[m]]);
        assert(dist[q[m]] is Some && dist_val(dist, q[m]) <= sat_add(
            dist_val(dist, prev),
            edge_weight(g, prev, q[m]),
        ));
        assert(q.take(m + 1).drop_last() =~= q.take(m));
        assert(q.take(m + 1)[m - 1] == prev && q.take(m + 1)[m] == q[m]);
        assert(sat_path_weight(g, q.take(m + 1)) == sat_add(
            sat_path_weight(g, q.take(m)),
            edge_weight(g, prev, q[m]),
        ));
        lemma_sat_weight_range(g, q.take(m));
        lemma_sat_weight_take(g, q, m + 1);
        assert(dist_val(dist, u) <= dist_val(dist, q[m]));
    }
}

/// How many entries of `s` are set.
pub open spec fn num_true(s: Seq<bool>) -> int
    decreases s.len(),
{
    if s.len() == 0 {
        0
    } else {
        num_true(s.drop_last()) + if s.last() {
            1int
        } else {
            0int
        }
    }
}

proof fn lemma_num_true_bound(s: Seq<bool>)
    ensures
        0 <= num_true(s) <= s.len(),
    decreases s.len(),
{
    if s.len() > 0 {
        lemma_num_true_bound(s.drop_last());
    }
}

proof fn lemma_num_true_update(s: Seq<bool>, i: int)
    requires
        0 <= i < s.len(),
        !s[i],
    ensures
        num_true(s.update(i, true)) == num_true(s) + 1,
    decreases s.len(),
{
    let t = s.update(i, true);
    if i == s.len() - 1 {
        assert(t.drop_last() =~= s.drop_last());
    } else {
        assert(t.drop_last() =~= s.drop_last().update(i, true));
        lemma_num_true_update(s.drop_last(), i);
    }
}

/// Every position on a walk whose start is inside a set of nodes that is
/// closed under outgoing edges stays inside that set.
proof fn lemma_path_stays_inside<L, T>(g: &Graph<L, T>, visited: Seq<bool>, p: Seq<int>, k: int)
    requires
        visited.len() == g.spec_labels().len(),
        is_index_path(g, p),
        0 <= p[0] < visited.len() && visited[p[0]],
        forall|u: int, j: int|
            #![trigger visited[u], g.edge_at(u, j)]
            0 <= u < visited.len() && 0 <= j < visited.len() && visited[u] && g.edge_at(u, j)
                is Some ==> visited[j],
        0 <= k < p.len(),
    ensures
        visited[p[k]],
    decreases k,
{
    if k > 0 {
        lemma_path_stays_inside(g, visited, p, k - 1);
        assert(0 <= k - 1 < p.len() - 1);
        assert(g.edge_at(p[k - 1], p[k - 1 + 1]) is Some);
        assert(visited[p[k]]);
    }
}

/// If the nodes seen so far include the start, exclude the end, and are
/// closed under outgoing edges, the end is not reachable from the start.
proof fn lemma_closed_set_unreachable<L, T>(g: &Graph<L, T>, visited: Seq<bool>, si: int, ei: int)
    requires
        visited.len() == g.spec_labels().len(),
        0 <= si < visited.len(),
        0 <= ei < visited.len(),
        visited[si],
        !visited[ei],
        forall|u: int, j: int|
            #![trigger visited[u], g.edge_at(u, j)]
            0 <= u < visited.len() && 0 <= j < visited.len() && visited[u] && g.edge_at(u, j)
                is Some ==> visited[j],
    ensures
        !reachable(g, si, ei),
{
    if reachable(g, si, ei) {
        let p = choose|p: Seq<int>| is_index_path_between(g, p, si, ei);
        lemma_path_stays_inside(g, visited, p, p.len() - 1);
    }
}

/// When both endpoints are known and resolve to the same position, every
/// result that meets the shortest-path contract is the one-label path
/// holding that position's label, whatever edges the graph has.
pub proof fn lemma_same_endpoints_single_path<'a, L: PartialEq>(
    g: &'a Graph<L, u64>,
    start: &'a L,
    end: &'a L,
    r: Result<Vec<&'a L>, GraphError>,
)
    requires
        g.wf(),
        spec_get_index(g.spec_labels(), *start) is Some,
        spec_get_index(g.spec_labels(), *start) == spec_get_index(g.spec_labels(), *end),
        call_ensures(Graph::<L, u64>::dijkstra_shortest_path, (g, start, end), r),
    ensures
        r is Ok,
        r->Ok_0@.len() == 1,
        *r->Ok_0@[0] == g.spec_labels()[spec_get_index(g.spec_labels(), *start)->Some_0],
{
    let si = spec_get_index(g.spec_labels(), *start)->Some_0;
    crate::labels::lemma_get_index_props(g.spec_labels(), *start);
    assert(is_index_path_between(g, seq![si], si, si));
}

/// When both endpoints are known but no walk joins them, every result that
/// meets the shortest-path contract is `NoPathError`.
pub proof fn lemma_unreachable_end_no_path_error<'a, L: PartialEq>(
    g: &'a Graph<L, u64>,
    start: &'a L,
    end: &'a L,
    r: Result<Vec<&'a L>, GraphError>,
)
    requires
        g.wf(),
        spec_get_index(g.spec_labels(), *start) is Some,
        spec_get_index(g.spec_labels(), *end) is Some,
        !reachable(
            g,
            spec_get_index(g.spec_labels(), *start)->Some_0,
            spec_get_index(g.spec_labels(), *end)->Some_0,
        ),
        call_ensures(Graph::<L, u64>::dijkstra_shortest_path, (g, start, end), r),
    ensures
        r is Err,
        r->Err_0 == GraphError::NoPathError,
{
}

/// A copy of a sequence of positions.
fn copy_path(p: &Vec<usize>) -> (r: Vec<usize>)
    ensures
        r@ == p@,
{
    let mut r: Vec<usize> = Vec::new();
    let mut k: usize = 0;
    while k < p.len()
        invariant
            k <= p@.len(),
            r@ == p@.take(k as int),
        decreases p@.len() - k,
    {
        r.push(p[k]);
        proof {
            assert(r@ =~= p@.take(k + 1));
        }
        k += 1;
    }
    proof {
        assert(p@.take(p@.len() as int) =~= p@);
    }
    r
}

impl<L, T> Graph<L, T> where L: PartialEq {
    /// The labels at the given positions, in order.
    fn labels_of_path(&self, p: &Vec<usize>) -> (r: Vec<&L>)
        requires
            forall|k: int| 0 <= k < p@.len() ==> #[trigger] p@[k] < self.spec_labels().len(),
        ensures
            r@.len() == p@.len(),
            forall|k: int| 0 <= k < p@.len() ==> *#[trigger] r@[k] == self.spec_labels()[p@[k] as int],
    {
        let labels_ref = self.labels_vec();
        let mut r: Vec<&L> = Vec::new();
        let mut k: usize = 0;
        while k < p.len()
            invariant
                k <= p@.len(),
                r@.len() == k,
                labels_ref@ == self.spec_labels(),
                forall|t: int| 0 <= t < p@.len() ==> #[trigger] p@[t] < self.spec_labels().len(),
                forall|t: int| 0 <= t < k ==> *#[trigger] r@[t] == self.spec_labels()[p@[t] as int],
            decreases p@.len() - k,
        {
            r.push(&labels_ref[p[k]]);
            k += 1;
        }
        r
    }
}

impl<L> Graph<L, u64> where L: PartialEq {
    /// Dijkstra's algorithm over the adjacency matrix, with edge values as
    /// non-negative weights: the unvisited node of least tentative distance
    /// (lowest position on a tie) is visited and its neighbours relaxed,
    /// until the end is selected or no unvisited node is within reach.
    ///
    /// Returns a path of labels from `start` to `end` whose saturating
    /// weight is least among all walks joining them (the plain sum of edge
    /// weights, wherever that sum fits in `u64`), `UnknownLabelError`
    /// exactly when an endpoint is not a label of the graph, and
    /// `NoPathError` exactly when both endpoints are known but no walk joins
    /// them. When `start` equals `end` the path is the single label `start`.
    #[verifier::loop_isolation(false)]
    pub fn dijkstra_shortest_path(&self, start: &L, end: &L) -> (r: Result<Vec<&L>, GraphError>)
        requires
            L::obeys_eq_spec(),
            self.wf(),
        ensures
            ({
                let si_o = spec_get_index(self.spec_labels(), *start);
                let ei_o = spec_get_index(self.spec_labels(), *end);
                match r {
                    Ok(p) => {
                        &&& si_o is Some
                        &&& ei_o is Some
                        &&& reachable(self, si_o->Some_0, ei_o->Some_0)
                        &&& p@.len() >= 1
                        &&& *p@[0] == self.spec_labels()[si_o->Some_0]
                        &&& *p@[p@.len() - 1] == self.spec_labels()[ei_o->Some_0]
                        &&& exists|ip: Seq<int>|
                            {
                                &&& #[trigger] is_index_path_between(
                                    self,
                                    ip,
                                    si_o->Some_0,
                                    ei_o->Some_0,
                                )
                                &&& ip.len() == p@.len()
                                &&& forall|k: int|
                                    0 <= k < ip.len() ==> *#[trigger] p@[k]
                                        == self.spec_labels()[ip[k]]
                                &&& forall|q: Seq<int>|
                                    #[trigger] is_index_path_between(
                                        self,
                                        q,
                                        si_o->Some_0,
                                        ei_o->Some_0,
                                    ) ==> sat_path_weight(self, ip) <= sat_path_weight(self, q)
                            }
                        &&& si_o == ei_o ==> p@.len() == 1
                    },
                    Err(e) => {
                        &&& (e == GraphError::UnknownLabelError <==> (si_o is None || ei_o
                            is None))
                        &&& e == GraphError::NoPathError ==> {
                            &&& si_o is Some
                            &&& ei_o is Some
                            &&& !reachable(self, si_o->Some_0, ei_o->Some_0)
                        }
                        &&& (e == GraphError::UnknownLabelError || e == GraphError::NoPathError)
                    },
                }
            }),
    {
        let labels_ref = self.labels_vec();
        let n = labels_ref.len();

        proof {
            lemma_get_index_props(self.spec_labels(), *start);
            lemma_get_index_props(self.spec_labels(), *end);
        }
        let si = match get_index(labels_ref, start) {
            Some(i) => i,
            None => {
                return Err(GraphError::UnknownLabelError);
            },
        };
        let ei = match get_index(labels_ref, end) {
            Some(i) => i,
            None => {
                return Err(GraphError::UnknownLabelError);
            },
        };

        if si == ei {
            let mut p: Vec<&L> = Vec::new();
            p.push(&labels_ref[si]);
            proof {
                assert(is_index_path_between(self, seq![si as int], si as int, si as int));
                assert forall|q: Seq<int>| #[trigger] is_index_path_between(
                    self,
                    q,
                    si as int,
                    si as int,
                ) implies sat_path_weight(self, seq![si as int]) <= sat_path_weight(self, q) by {
                    lemma_sat_weight_range(self, q);
                }
            }
            return Ok(p);
        }

        let mut dist: Vec<Option<u64>> = crate::row::none_vec(n);
        let mut paths: Vec<Option<Vec<usize>>> = crate::row::none_vec(n);
        let mut visited: Vec<bool> = Vec::new();
        while visited.len() < n
            invariant
                visited@.len() <= n,
                forall|j: int| 0 <= j < visited@.len() ==> !(#[trigger] visited@[j]),
            decreases n - visited@.len(),
        {
            visited.push(false);
        }

        dist[si] = Some(0);
        let mut start_path: Vec<usize> = Vec::new();
        start_path.push(si);
        proof {
            assert(is_index_path_between(self, upath(start_path@), si as int, si as int));
        }
        paths[si] = Some(start_path);
        proof {
            lemma_num_true_bound(visited@);
            assert(sat_path_weight(self, upath(start_path@)) == 0);
        }

        loop
            invariant
                dist@.len() == n,
                visited@.len() == n,
                paths@.len() == n,
                dist@[si as int] == Some(0u64),
                !visited@[ei as int],
                forall|j: int|
                    0 <= j < n ==> ((#[trigger] dist@[j]) is Some <==> paths@[j] is Some),
                forall|j: int|
                    0 <= j < n ==> match #[trigger] paths@[j] {
                        Some(p) => is_index_path_between(self, upath(p@), si as int, j),
                        None => true,
                    },
                forall|j: int| 0 <= j < n ==> ((#[trigger] visited@[j]) ==> dist@[j] is Some),
                forall|u: int, j: int|
                    #![trigger visited@[u], self.edge_at(u, j)]
                    0 <= u < n && 0 <= j < n && visited@[u] && self.edge_at(u, j) is Some
                        ==> dist@[j] is Some,
                forall|j: int|
                    0 <= j < n ==> match #[trigger] dist@[j] {
                        Some(d) => paths@[j] is Some && d as int == sat_path_weight(
                            self,
                            upath(paths@[j]->Some_0@),
                        ),
                        None => true,
                    },
                edges_relaxed(self, dist@, visited@),
                settled(self, dist@, visited@, si as int),
                forall|j: int| 0 <= j < n && (#[trigger] visited@[j]) ==> visited@[si as int],
                forall|j: int|
                    0 <= j < n && j != si && (#[trigger] dist@[j]) is Some ==> visited@[si as int],
                0 <= num_true(visited@) <= n,
            decreases n - num_true(visited@),
        {
            let mut best: Option<usize> = None;
            let mut j: usize = 0;
            while j < n
                invariant
                    j <= n,
                    match best {
                        Some(u) => {
                            &&& 0 <= u < n
                            &&& !visited@[u as int]
                            &&& dist@[u as int] is Some
                            &&& forall|k: int|
                                0 <= k < j && !visited@[k] && (#[trigger] dist@[k]) is Some
                                    ==> dist_val(dist@, u as int) <= dist_val(dist@, k)
                        },
                        None => forall|k: int|
                            0 <= k < j ==> (visited@[k] || (#[trigger] dist@[k]) is None),
                    },
                decreases n - j,
            {
                if !visited[j] && dist[j].is_some() {
                    best = match best {
                        None => Some(j),
                        Some(u) => {
                            if dist[j].unwrap() < dist[u].unwrap() {
                                Some(j)
                            } else {
                                Some(u)
                            }
                        },
                    };
                }
                j += 1;
            }

            let u = match best {
                None => {
                    proof {
                        lemma_closed_set_unreachable(self, visited@, si as int, ei as int);
                    }
                    return Err(GraphError::NoPathError);
                },
                Some(u) => u,
            };

            if u == ei {
                let p_idx: &Vec<usize> = paths[u].as_ref().unwrap();
                proof {
                    assert(is_index_path_between(self, upath(p_idx@), si as int, ei as int));
                    assert(visited@[si as int]);
                    assert forall|q: Seq<int>| #[trigger] is_index_path_between(
                        self,
                        q,
                        si as int,
                        ei as int,
                    ) implies sat_path_weight(self, upath(p_idx@)) <= sat_path_weight(
                        self,
                        q,
                    ) by {
                        lemma_selected_min_is_settled(
                            self,
                            dist@,
                            visited@,
                            si as int,
                            ei as int,
                            q,
                        );
                    }
                    assert forall|k: int| 0 <= k < p_idx@.len() implies #[trigger] p_idx@[k]
                        < self.spec_labels().len() by {
                        assert(upath(p_idx@)[k] == p_idx@[k] as int);
                    }
                }
                let result = self.labels_of_path(p_idx);
                proof {
                    assert forall|k: int| 0 <= k < upath(p_idx@).len() implies *#[trigger] result@[k]
                        == self.spec_labels()[upath(p_idx@)[k]] by {}
                }
                return Ok(result);
            }

            let du = dist[u].unwrap();
            let row_u = self.row_at(u);
            let mut j2: usize = 0;
            while j2 < n
                invariant
                    j2 <= n,
                    dist@.len() == n,
                    visited@.len() == n,
                    paths@.len() == n,
                    dist@[si as int] == Some(0u64),
                    dist@[u as int] == Some(du),
                    !visited@[u as int],
                    u != si ==> visited@[si as int],
                    forall|j: int|
                        0 <= j < n ==> ((#[trigger] dist@[j]) is Some <==> paths@[j] is Some),
                    forall|j: int|
                        0 <= j < n ==> match #[trigger] paths@[j] {
                            Some(p) => is_index_path_between(self, upath(p@), si as int, j),
                            None => true,
                        },
                    forall|j: int| 0 <= j < n ==> ((#[trigger] visited@[j]) ==> dist@[j] is Some),
                    forall|v: int, j: int|
                        #![trigger visited@[v], self.edge_at(v, j)]
                        0 <= v < n && 0 <= j < n && visited@[v] && self.edge_at(v, j) is Some
                            ==> dist@[j] is Some,
                    forall|j: int|
                        0 <= j < n ==> match #[trigger] dist@[j] {
                            Some(d) => paths@[j] is Some && d as int == sat_path_weight(
                                self,
                                upath(paths@[j]->Some_0@),
                            ),
                            None => true,
                        },
                    edges_relaxed(self, dist@, visited@),
                    settled(self, dist@, visited@, si as int),
                    forall|k: int|
                        0 <= k < n && !visited@[k] && (#[trigger] dist@[k]) is Some ==> du as int
                            <= dist_val(dist@, k),
                    forall|k: int|
                        0 <= k < j2 && !visited@[k] && (#[trigger] self.edge_at(u as int, k))
                            is Some ==> dist@[k] is Some && dist_val(dist@, k) <= sat_add(
                            du as int,
                            edge_weight(self, u as int, k),
                        ),
                decreases n - j2,
            {
                if !visited[j2] {
                    if let Some(w) = row_u.slot_at(j2) {
                        proof {
                            assert(edge_weight(self, u as int, j2 as int) == *w as int);
                        }
                        let nd = du.saturating_add(*w);
                        let better = match dist[j2] {
                            None => true,
                            Some(dj) => nd < dj,
                        };
                        if better {
                            let mut np = copy_path(paths[u].as_ref().unwrap());
                            np.push(j2);
                            proof {
                                let pu = paths@[u as int]->Some_0;
                                assert(upath(np@) =~= upath(pu@).push(j2 as int));
                                assert(upath(np@).drop_last() =~= upath(pu@));
                                assert(upath(pu@)[upath(pu@).len() - 1] == u as int);
                                assert(sat_path_weight(self, upath(np@)) == sat_add(
                                    sat_path_weight(self, upath(pu@)),
                                    *w as int,
                                ));
                                assert(nd as int == sat_path_weight(self, upath(np@)));
                            }
                            dist[j2] = Some(nd);
                            paths[j2] = Some(np);
                        }
                    }
                }
                j2 += 1;
            }

            proof {
                lemma_num_true_update(visited@, u as int);
                lemma_num_true_bound(visited@.update(u as int, true));
                let vis2 = visited@.update(u as int, true);
                assert forall|v: int, q: Seq<int>|
                    0 <= v < n && vis2[v] && #[trigger] is_index_path_between(
                        self,
                        q,
                        si as int,
                        v,
                    ) implies dist@[v] is Some && dist_val(dist@, v) <= sat_path_weight(
                    self,
                    q,
                ) by {
                    if v == u as int {
                        lemma_selected_min_is_settled(
                            self,
                            dist@,
                            visited@,
                            si as int,
                            u as int,
                            q,
                        );
                    } else {
                        assert(visited@[v]);
                    }
                }
                assert(settled(self, dist@, vis2, si as int));
                assert forall|v: int, j: int|
                    0 <= v < n && 0 <= j < n && vis2[v] && !vis2[j] && (#[trigger] self.edge_at(
                        v,
                        j,
                    )) is Some implies dist@[j] is Some && dist_val(dist@, j) <= sat_add(
                    dist_val(dist@, v),
                    edge_weight(self, v, j),
                ) by {
                    if v != u as int {
                        assert(visited@[v]);
                    }
                }
                assert(edges_relaxed(self, dist@, vis2));
            }
            visited[u] = true;
        }
    }
}

} // verus!
