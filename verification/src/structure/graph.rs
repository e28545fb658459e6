//! Graphs in several representations.
//!
//! Every representation has its strengths. The most common one is the
//! adjacency list. Whatever the representation, edges are added and removed
//! through the functions of [`Graph`].

use crate::structure::spanning::{lemma_connected_with_fewest_edges_is_tree, num_entries};
use crate::structure::undirected::{
    at_most_one_earlier, closed_at, has_cycle_spec, has_edge, is_connected_spec, is_doubled_edge,
    is_forest_order, is_path_to, is_undirected, is_walk, lemma_bounded_set_len, lemma_forest_order_no_cycle,
    is_tree_spec, lemma_count_to_filter, lemma_count_to_push, lemma_empty_is_undirected,
    lemma_full_set, lemma_has_edge_symmetric, lemma_loop_is_doubled, lemma_path_closes, lemma_range_set_len,
    lemma_reachable_self, lemma_reachable_step, lemma_walk_stays, reachable, targets_in_range, count_to,
};
use crate::traits::math::graph::{Edge, Graph, ProvideAdjacencies, ReadonlyGraph, Undirected};
use std::collections::HashSet;
use vstd::prelude::*;
use vstd::std_specs::cmp::PartialEqSpec;
use vstd::std_specs::convert::IntoSpec;

verus! {

/// Whether an edge does not lead from `from` to `to`.
pub open spec fn not_between<C>(from: usize, to: usize) -> spec_fn(Edge<C>) -> bool {
    |e: Edge<C>| !(e.from == from && e.to == to)
}

/// Whether an edge does not lead to `to`.
pub open spec fn not_to<C>(to: usize) -> spec_fn(Edge<C>) -> bool {
    |e: Edge<C>| e.to != to
}

/// Whether an edge is not equal to `edge`.
pub open spec fn not_equal<C: PartialEq>(edge: Edge<C>) -> spec_fn(Edge<C>) -> bool {
    |e: Edge<C>| !e.eq_spec(&edge)
}

/// Removes from `list` every edge that leads from `from` to `to`.
fn retain_not_between<C>(list: &mut Vec<Edge<C>>, from: usize, to: usize)
    ensures
        final(list)@ == old(list)@.filter(not_between(from, to)),
{
    let mut all: Vec<Edge<C>> = Vec::new();
    core::mem::swap(list, &mut all);
    let ghost before = all@;
    for e in it: all.into_iter()
        invariant
            it.seq() == before,
            list@ == before.take(it.index() as int).filter(not_between(from, to)),
    {
        proof {
            reveal(Seq::filter);
            let i = it.index() as int;
            assert(before.take(i + 1).drop_last() == before.take(i));
        }
        if !(e.from == from && e.to == to) {
            list.push(e);
        }
    }
    assert(before.take(before.len() as int) == before);
}

/// Removes from `list` every edge that leads to `to`.
fn retain_not_to<C>(list: &mut Vec<Edge<C>>, to: usize)
    ensures
        final(list)@ == old(list)@.filter(not_to(to)),
{
    let mut all: Vec<Edge<C>> = Vec::new();
    core::mem::swap(list, &mut all);
    let ghost before = all@;
    for e in it: all.into_iter()
        invariant
            it.seq() == before,
            list@ == before.take(it.index() as int).filter(not_to(to)),
    {
        proof {
            reveal(Seq::filter);
            let i = it.index() as int;
            assert(before.take(i + 1).drop_last() == before.take(i));
        }
        if e.to != to {
            list.push(e);
        }
    }
    assert(before.take(before.len() as int) == before);
}

/// Removes from `list` every edge that is equal to `edge`.
fn retain_not_equal<C: Eq>(list: &mut Vec<Edge<C>>, edge: &Edge<C>)
    ensures
        C::obeys_eq_spec() ==> final(list)@ == old(list)@.filter(not_equal(*edge)),
        forall|e: Edge<C>| final(list)@.contains(e) ==> old(list)@.contains(e),
{
    let mut all: Vec<Edge<C>> = Vec::new();
    core::mem::swap(list, &mut all);
    let ghost before = all@;
    for e in it: all.into_iter()
        invariant
            it.seq() == before,
            C::obeys_eq_spec() ==> list@ == before.take(it.index() as int).filter(not_equal(*edge)),
            forall|e: Edge<C>| list@.contains(e) ==> before.contains(e),
    {
        proof {
            reveal(Seq::filter);
            let i = it.index() as int;
            assert(before.take(i + 1).drop_last() == before.take(i));
            assert(before.contains(before[i]));
        }
        let ghost prior = list@;
        if e != *edge {
            list.push(e);
            proof {
                assert forall|x: Edge<C>| list@.contains(x) implies before.contains(x) by {
                    let k = choose|k: int| 0 <= k < list@.len() && list@[k] == x;
                    if k < prior.len() {
                        assert(prior.contains(x));
                    }
                }
            }
        }
    }
    assert(before.take(before.len() as int) == before);
}

/// A graph that holds its edges in one list.
#[derive(Debug, Clone)]
pub struct EdgeList<C> {
    size: usize,
    edges: Vec<Edge<C>>,
}

impl<C> ReadonlyGraph for EdgeList<C> {
    type Cost = C;

    open spec fn wf(&self) -> bool {
        true
    }

    closed spec fn size_spec(&self) -> nat {
        self.size as nat
    }

    fn size(&self) -> (n: usize) {
        self.size
    }
}

impl<C> Graph for EdgeList<C> {
    type Model = Seq<Edge<C>>;

    closed spec fn model(&self) -> Seq<Edge<C>> {
        self.edges@
    }

    open spec fn in_range(&self, from: usize, to: usize) -> bool {
        true
    }

    open spec fn model_add(m: Seq<Edge<C>>, edge: Edge<C>) -> Seq<Edge<C>> {
        m.push(edge)
    }

    open spec fn model_add_all(m: Seq<Edge<C>>, edges: Seq<Edge<C>>) -> Seq<Edge<C>> {
        m + edges
    }

    proof fn lemma_add_all(m: Seq<Edge<C>>, edges: Seq<Edge<C>>) {
        if edges.len() == 0 {
            assert(Self::model_add_all(m, edges) =~= m);
        } else {
            assert(Self::model_add_all(m, edges) =~= Self::model_add(
                Self::model_add_all(m, edges.drop_last()),
                edges.last(),
            ));
        }
    }

    fn of_size(n: usize) -> (graph: Self)
        ensures
            graph.model() == Seq::<Edge<C>>::empty(),
    {
        Self { size: n, edges: Vec::new() }
    }

    fn add_edge<E: Into<Edge<C>>>(&mut self, edge: E) {
        self.edges.push(edge.into());
        assert(self.model() == Self::model_add(old(self).model(), edge.into_spec()));
    }

    fn remove_edge(&mut self, from: usize, to: usize)
        ensures
            final(self).model() == old(self).model().filter(not_between(from, to)),
    {
        retain_not_between(&mut self.edges, from, to);
    }

    fn remove_edge_exact<E: Into<Edge<C>>>(&mut self, edge: E) where C: Eq
        ensures
            C::obeys_eq_spec() ==> final(self).model() == old(self).model().filter(
                not_equal(edge.into_spec()),
            ),
    {
        let edge = edge.into();
        retain_not_equal(&mut self.edges, &edge);
    }
}

impl<C> EdgeList<C> {
    /// Returns all edges, in the order in which they were added.
    pub fn edges(&self) -> (list: &[Edge<C>])
        ensures
            list@ == self.model(),
    {
        self.edges.as_slice()
    }
}

/// The lists of edges of an adjacency list after `edge` has been added: the
/// edge stands at the end of the list of the vertex that it leaves.
pub open spec fn adjacency_add<C>(m: Seq<Seq<Edge<C>>>, edge: Edge<C>) -> Seq<Seq<Edge<C>>> {
    m.update(edge.from as int, m[edge.from as int].push(edge))
}

/// The lists of edges of an adjacency list after the edges of a sequence have
/// been added in their order.
pub open spec fn adjacency_add_all<C>(m: Seq<Seq<Edge<C>>>, edges: Seq<Edge<C>>) -> Seq<Seq<Edge<C>>>
    decreases edges.len(),
{
    if edges.len() == 0 {
        m
    } else {
        adjacency_add(adjacency_add_all(m, edges.drop_last()), edges.last())
    }
}

/// A graph that holds, for every vertex, the list of the edges that leave it.
#[derive(Debug, Clone)]
pub struct AdjacencyList<C> {
    size: usize,
    adjacencies: Vec<Vec<Edge<C>>>,
}

impl<C> AdjacencyList<C> {
    /// For every vertex, the edges that leave it, in the order in which they
    /// were added.
    pub closed spec fn lists(&self) -> Seq<Seq<Edge<C>>> {
        Seq::new(self.adjacencies@.len(), |v: int| self.adjacencies@[v]@)
    }

    /// In a well-formed adjacency list every vertex has a list, which holds
    /// edges that leave that vertex.
    pub proof fn lemma_wf(&self)
        requires
            self.wf(),
        ensures
            self.lists().len() == self.size_spec(),
            forall|v: int, k: int|
                0 <= v < self.lists().len() && 0 <= k < self.lists()[v].len() ==> (
                #[trigger] self.lists()[v][k]).from == v,
    {
    }

    /// Makes the adjacency list of the edges of an edge list, which must
    /// leave vertices of the graph.
    pub fn from_edge_list(edge_list: EdgeList<C>) -> (graph: AdjacencyList<C>)
        requires
            forall|i: int|
                0 <= i < edge_list.model().len() ==> (#[trigger] edge_list.model()[i]).from
                    < edge_list.size_spec(),
        ensures
            graph.wf(),
            graph.size_spec() == edge_list.size_spec(),
            graph.lists() == adjacency_add_all(
                Seq::new(edge_list.size_spec(), |v: int| Seq::<Edge<C>>::empty()),
                edge_list.model(),
            ),
    {
        let mut graph = AdjacencyList::of_size(edge_list.size());
        let ghost edges = edge_list.model();
        let ghost empty = graph.lists();
        for e in it: edge_list.edges.into_iter()
            invariant
                it.seq() == edges,
                graph.wf(),
                graph.size_spec() == edge_list.size_spec(),
                forall|i: int| 0 <= i < edges.len() ==> (#[trigger] edges[i]).from < edge_list.size_spec(),
                graph.lists() == adjacency_add_all(empty, edges.take(it.index() as int)),
        {
            proof {
                let i = it.index() as int;
                assert(edges.take(i + 1).drop_last() == edges.take(i));
                assert(edges[i].from < edge_list.size_spec());
            }
            graph.push_edge(e);
        }
        assert(edges.take(edges.len() as int) == edges);
        graph
    }

    /// Removes from the list of the vertex that `edge` leaves every edge that
    /// is equal to it. An edge that stays was there before.
    fn retain_distinct(&mut self, edge: Edge<C>) where C: Eq
        requires
            old(self).wf(),
            edge.from < old(self).size_spec(),
        ensures
            final(self).wf(),
            final(self).size_spec() == old(self).size_spec(),
            final(self).lists().len() == old(self).lists().len(),
            forall|v: int, e: Edge<C>|
                0 <= v < old(self).lists().len() && #[trigger] final(self).lists()[v].contains(e)
                    ==> old(self).lists()[v].contains(e),
            C::obeys_eq_spec() ==> final(self).lists() == old(self).lists().update(
                edge.from as int,
                old(self).lists()[edge.from as int].filter(not_equal(edge)),
            ),
    {
        let ghost before = self.lists();
        let from = edge.from;
        retain_not_equal(&mut self.adjacencies[from], &edge);
        proof {
            let list = before[from as int];
            assert forall|k: int| 0 <= k < self.adjacencies@[from as int]@.len() implies (
            #[trigger] self.adjacencies@[from as int]@[k]).from == from by {
                let e = self.adjacencies@[from as int]@[k];
                assert(self.adjacencies@[from as int]@.contains(e));
                assert(list.contains(e));
            }
            if C::obeys_eq_spec() {
                assert(self.lists() =~= before.update(from as int, list.filter(not_equal(edge))));
            }
        }
    }

    /// Adds an edge at the end of the list of the vertex that it leaves.
    fn push_edge(&mut self, edge: Edge<C>)
        requires
            old(self).wf(),
            edge.from < old(self).size_spec(),
        ensures
            final(self).wf(),
            final(self).size_spec() == old(self).size_spec(),
            final(self).lists() == adjacency_add(old(self).lists(), edge),
    {
        let ghost before = self.lists();
        let from = edge.from;
        self.adjacencies[from].push(edge);
        assert(self.lists() =~= adjacency_add(before, edge));
    }
}

impl<C> ReadonlyGraph for AdjacencyList<C> {
    type Cost = C;

    closed spec fn wf(&self) -> bool {
        &&& self.adjacencies@.len() == self.size
        &&& forall|v: int, k: int|
            0 <= v < self.adjacencies@.len() && 0 <= k < self.adjacencies@[v]@.len() ==> (
            #[trigger] self.adjacencies@[v]@[k]).from == v
    }

    closed spec fn size_spec(&self) -> nat {
        self.size as nat
    }

    fn size(&self) -> (n: usize) {
        self.size
    }
}

impl<C> ProvideAdjacencies for AdjacencyList<C> {
    open spec fn adjacencies(&self) -> Seq<Seq<Edge<C>>> {
        self.lists()
    }

    proof fn lemma_adjacencies(&self) {
    }

    fn get_adjacencies(&self, idx: usize) -> (list: Option<&[Edge<C>]>) {
        if idx < self.adjacencies.len() {
            let list = self.adjacencies[idx].as_slice();
            assert(list@ == self.adjacencies()[idx as int]);
            Some(list)
        } else {
            None
        }
    }
}

impl<C> Graph for AdjacencyList<C> {
    type Model = Seq<Seq<Edge<C>>>;

    open spec fn model(&self) -> Seq<Seq<Edge<C>>> {
        self.lists()
    }

    open spec fn in_range(&self, from: usize, to: usize) -> bool {
        from < self.size_spec()
    }

    open spec fn model_add(m: Seq<Seq<Edge<C>>>, edge: Edge<C>) -> Seq<Seq<Edge<C>>> {
        adjacency_add(m, edge)
    }

    open spec fn model_add_all(m: Seq<Seq<Edge<C>>>, edges: Seq<Edge<C>>) -> Seq<Seq<Edge<C>>> {
        adjacency_add_all(m, edges)
    }

    proof fn lemma_add_all(m: Seq<Seq<Edge<C>>>, edges: Seq<Edge<C>>) {
        if edges.len() > 0 {
            assert(Self::model_add_all(m, edges) == Self::model_add(
                Self::model_add_all(m, edges.drop_last()),
                edges.last(),
            ));
        }
    }

    fn of_size(n: usize) -> (graph: Self)
        ensures
            graph.model() == Seq::new(n as nat, |v: int| Seq::<Edge<C>>::empty()),
    {
        let mut adjacencies: Vec<Vec<Edge<C>>> = Vec::new();
        let mut i: usize = 0;
        while i < n
            invariant
                i <= n,
                adjacencies@.len() == i,
                forall|v: int| 0 <= v < i ==> (#[trigger] adjacencies@[v])@.len() == 0,
            decreases n - i,
        {
            adjacencies.push(Vec::new());
            i += 1;
        }
        let graph = AdjacencyList { size: n, adjacencies };
        assert(graph.model() =~~= Seq::new(n as nat, |v: int| Seq::<Edge<C>>::empty()));
        graph
    }

    fn add_edge<E: Into<Edge<C>>>(&mut self, edge: E) {
        self.push_edge(edge.into());
        assert(self.model() == Self::model_add(old(self).model(), edge.into_spec()));
    }

    fn remove_edge(&mut self, from: usize, to: usize)
        ensures
            final(self).model() == old(self).model().update(
                from as int,
                old(self).model()[from as int].filter(not_to(to)),
            ),
    {
        let ghost before = self.lists();
        retain_not_to(&mut self.adjacencies[from], to);
        proof {
            let list = before[from as int];
            assert forall|k: int| 0 <= k < self.adjacencies@[from as int]@.len() implies (
            #[trigger] self.adjacencies@[from as int]@[k]).from == from by {
                list.lemma_filter_contains_rev(not_to(to), self.adjacencies@[from as int]@[k]);
            }
            assert(self.lists() =~= before.update(from as int, list.filter(not_to(to))));
        }
    }

    fn remove_edge_exact<E: Into<Edge<C>>>(&mut self, edge: E) where C: Eq
        ensures
            C::obeys_eq_spec() ==> final(self).model() == old(self).model().update(
                edge.into_spec().from as int,
                old(self).model()[edge.into_spec().from as int].filter(not_equal(edge.into_spec())),
            ),
    {
        let edge = edge.into();
        self.retain_distinct(edge);
        assert(C::obeys_eq_spec() ==> self.model() == old(self).model().update(
            edge.from as int,
            old(self).model()[edge.from as int].filter(not_equal(edge)),
        ));
    }
}

/// The lists of edges of an undirected adjacency list after `edge` has been
/// added: the edge stands in the list of the vertex that it leaves, and its
/// reverse in the list of the vertex that it leads to.
pub open spec fn undirected_add<C>(m: Seq<Seq<Edge<C>>>, edge: Edge<C>) -> Seq<Seq<Edge<C>>> {
    adjacency_add(adjacency_add(m, edge), edge.reversed_spec())
}

/// The lists of edges of an undirected adjacency list after the edges of a
/// sequence have been added in their order.
pub open spec fn undirected_add_all<C>(m: Seq<Seq<Edge<C>>>, edges: Seq<Edge<C>>) -> Seq<Seq<Edge<C>>>
    decreases edges.len(),
{
    if edges.len() == 0 {
        m
    } else {
        undirected_add(undirected_add_all(m, edges.drop_last()), edges.last())
    }
}

/// An undirected graph as an adjacency list, which holds every edge in both
/// directions.
#[derive(Debug, Clone)]
pub struct UndirectedAdjacencyList<C>(AdjacencyList<C>);

impl<C> ReadonlyGraph for UndirectedAdjacencyList<C> {
    type Cost = C;

    closed spec fn wf(&self) -> bool {
        &&& self.0.wf()
        &&& targets_in_range(self.0.lists())
    }

    closed spec fn size_spec(&self) -> nat {
        self.0.size_spec()
    }

    fn size(&self) -> (n: usize) {
        self.0.size()
    }
}

impl<C> Undirected for UndirectedAdjacencyList<C> {

}

impl<C> ProvideAdjacencies for UndirectedAdjacencyList<C> {
    closed spec fn adjacencies(&self) -> Seq<Seq<Edge<C>>> {
        self.0.lists()
    }

    proof fn lemma_adjacencies(&self) {
    }

    fn get_adjacencies(&self, idx: usize) -> (list: Option<&[Edge<C>]>) {
        self.0.get_adjacencies(idx)
    }
}

impl<C> UndirectedAdjacencyList<C> {
    /// In a well-formed undirected adjacency list every vertex has a list,
    /// which holds edges that leave that vertex for a vertex of the graph.
    pub proof fn lemma_wf(&self)
        requires
            self.wf(),
        ensures
            self.adjacencies().len() == self.size_spec(),
            targets_in_range(self.adjacencies()),
            forall|v: int, k: int|
                0 <= v < self.adjacencies().len() && 0 <= k < self.adjacencies()[v].len() ==> (
                #[trigger] self.adjacencies()[v][k]).from == v,
    {
        self.0.lemma_wf();
    }
}

impl<C: Copy> Graph for UndirectedAdjacencyList<C> {
    type Model = Seq<Seq<Edge<C>>>;

    open spec fn model(&self) -> Seq<Seq<Edge<C>>> {
        self.adjacencies()
    }

    open spec fn in_range(&self, from: usize, to: usize) -> bool {
        from < self.size_spec() && to < self.size_spec()
    }

    open spec fn model_add(m: Seq<Seq<Edge<C>>>, edge: Edge<C>) -> Seq<Seq<Edge<C>>> {
        undirected_add(m, edge)
    }

    open spec fn model_add_all(m: Seq<Seq<Edge<C>>>, edges: Seq<Edge<C>>) -> Seq<Seq<Edge<C>>> {
        undirected_add_all(m, edges)
    }

    proof fn lemma_add_all(m: Seq<Seq<Edge<C>>>, edges: Seq<Edge<C>>) {
        if edges.len() > 0 {
            assert(Self::model_add_all(m, edges) == Self::model_add(
                Self::model_add_all(m, edges.drop_last()),
                edges.last(),
            ));
        }
    }

    fn of_size(n: usize) -> (graph: Self)
        ensures
            graph.model() == Seq::new(n as nat, |v: int| Seq::<Edge<C>>::empty()),
            is_undirected(graph.model()),
            is_mirrored(graph.model()),
    {
        proof {
            lemma_empty_is_undirected::<C>(n as nat);
        }
        let graph = Self(AdjacencyList::of_size(n));
        proof {
            let m = graph.model();
            assert forall|e: Edge<C>| e.from < m.len() implies #[trigger] count_edge(m[e.from as int], e)
                == 0 by {
                assert(m[e.from as int].len() == 0);
            }
            assert forall|e: Edge<C>| e.to < m.len() implies #[trigger] count_edge(
                m[e.to as int],
                e.reversed_spec(),
            ) == 0 by {
                assert(m[e.to as int].len() == 0);
            }
        }
        graph
    }

    fn add_edge<E: Into<Edge<C>>>(&mut self, edge: E)
        ensures
            is_undirected(old(self).model()) ==> is_undirected(final(self).model()),
            is_mirrored(old(self).model()) ==> is_mirrored(final(self).model()),
    {
        let edge = edge.into();
        proof {
            self.0.lemma_wf();
            if is_undirected(self.model()) {
                lemma_undirected_add(self.model(), edge);
            }
            if is_mirrored(self.model()) {
                lemma_mirrored_add(self.model(), edge);
            }
        }
        self.0.push_edge(edge);
        self.0.push_edge(edge.reversed());
        proof {
            self.0.lemma_wf();
            assert(self.model() == Self::model_add(old(self).model(), edge));
        }
    }

    fn remove_edge(&mut self, from: usize, to: usize)
        ensures
            final(self).model() == undirected_remove(old(self).model(), from, to),
            is_undirected(old(self).model()) ==> is_undirected(final(self).model()),
            is_mirrored(old(self).model()) ==> is_mirrored(final(self).model()),
    {
        proof {
            self.0.lemma_wf();
            if is_undirected(self.model()) {
                lemma_undirected_remove(self.model(), from, to);
            }
            if is_mirrored(self.model()) {
                lemma_mirrored_remove(self.model(), from, to);
            }
        }
        let ghost before = self.0.lists();
        self.0.remove_edge(from, to);
        let ghost between = self.0.lists();
        proof {
            self.0.lemma_wf();
            assert forall|v: int, k: int|
                0 <= v < between.len() && 0 <= k < between[v].len() implies (
            #[trigger] between[v][k]).to < between.len() by {
                if v == from {
                    before[v].lemma_filter_contains_rev(not_to(to), between[v][k]);
                }
            }
        }
        self.0.remove_edge(to, from);
        proof {
            self.0.lemma_wf();
            let after = self.0.lists();
            assert forall|v: int, k: int| 0 <= v < after.len() && 0 <= k < after[v].len() implies (
            #[trigger] after[v][k]).to < after.len() by {
                if v == to {
                    between[v].lemma_filter_contains_rev(not_to(from), after[v][k]);
                }
            }
        }
    }

    fn remove_edge_exact<E: Into<Edge<C>>>(&mut self, edge: E) where C: Eq
        ensures
            C::obeys_eq_spec() ==> final(self).model() == undirected_remove_exact(
                old(self).model(),
                edge.into_spec(),
            ),
            eq_is_equality::<C>() && is_undirected(old(self).model()) && is_mirrored(old(self).model())
                ==> is_undirected(final(self).model()) && is_mirrored(final(self).model()),
    {
        proof {
            self.0.lemma_wf();
            if eq_is_equality::<C>() && is_undirected(self.model()) && is_mirrored(self.model()) {
                lemma_undirected_remove_exact(self.model(), edge.into_spec());
            }
        }
        let edge = edge.into();
        proof {
            self.0.lemma_wf();
        }
        let ghost before = self.0.lists();
        self.0.retain_distinct(edge);
        let ghost between = self.0.lists();
        proof {
            assert forall|v: int, k: int|
                0 <= v < between.len() && 0 <= k < between[v].len() implies (
            #[trigger] between[v][k]).to < between.len() by {
                assert(between[v].contains(between[v][k]));
                assert(before[v].contains(between[v][k]));
            }
        }
        self.0.retain_distinct(edge.reversed());
        proof {
            let after = self.0.lists();
            assert forall|v: int, k: int| 0 <= v < after.len() && 0 <= k < after[v].len() implies (
            #[trigger] after[v][k]).to < after.len() by {
                assert(after[v].contains(after[v][k]));
                assert(between[v].contains(after[v][k]));
            }
        }
    }
}

/// Visits `current` and every vertex that can be reached from it without
/// passing through a vertex visited before, and enters them in `stepped`.
fn visit_reachable<G: Undirected + ProvideAdjacencies>(
    graph: &G,
    current: usize,
    stepped: &mut HashSet<usize>,
)
    requires
        graph.wf(),
        targets_in_range(graph.adjacencies()),
        current < graph.size_spec(),
        old(stepped)@.finite(),
        !old(stepped)@.contains(current),
        forall|v: usize| old(stepped)@.contains(v) ==> v < graph.size_spec(),
    ensures
        final(stepped)@.finite(),
        forall|v: usize| final(stepped)@.contains(v) ==> v < graph.size_spec(),
        forall|v: usize| old(stepped)@.contains(v) ==> final(stepped)@.contains(v),
        final(stepped)@.contains(current),
        forall|v: usize|
            final(stepped)@.contains(v) && !old(stepped)@.contains(v) ==> reachable(
                graph.adjacencies(),
                current as int,
                v as int,
            ),
        forall|v: usize|
            final(stepped)@.contains(v) && !old(stepped)@.contains(v) ==> closed_at(
                graph.adjacencies(),
                final(stepped)@,
                v as int,
            ),
    decreases graph.size_spec() - old(stepped)@.len(),
{
    broadcast use vstd::std_specs::hash::group_hash_axioms;

    let ghost adj = graph.adjacencies();
    let ghost base = stepped@;
    proof {
        graph.lemma_adjacencies();
        lemma_reachable_self(adj, current as int);
    }
    stepped.insert(current);
    let edges = graph.get_adjacencies(current).unwrap();
    let mut i: usize = 0;
    while i < edges.len()
        invariant
            graph.wf(),
            adj == graph.adjacencies(),
            adj.len() == graph.size_spec(),
            targets_in_range(adj),
            current < graph.size_spec(),
            edges@ == adj[current as int],
            i <= edges@.len(),
            base == old(stepped)@,
            base.finite(),
            !base.contains(current),
            stepped@.finite(),
            stepped@.contains(current),
            forall|v: usize| stepped@.contains(v) ==> v < graph.size_spec(),
            forall|v: usize| base.contains(v) ==> stepped@.contains(v),
            forall|v: usize|
                stepped@.contains(v) && !base.contains(v) ==> reachable(adj, current as int, v as int),
            forall|v: usize|
                stepped@.contains(v) && !base.contains(v) && v != current ==> closed_at(
                    adj,
                    stepped@,
                    v as int,
                ),
            forall|k: int| 0 <= k < i ==> stepped@.contains((#[trigger] edges@[k]).to),
        decreases edges@.len() - i,
    {
        let to = edges[i].to;
        if !stepped.contains(&to) {
            let ghost before = stepped@;
            proof {
                assert(adj[current as int][i as int].to < adj.len());
                lemma_bounded_set_len(before.insert(to), graph.size_spec());
                vstd::set_lib::lemma_len_subset(base.insert(current), before);
            }
            visit_reachable(graph, to, stepped);
            proof {
                assert(has_edge(adj, current as int, to as int));
                assert forall|v: usize| stepped@.contains(v) && !base.contains(v) implies reachable(
                    adj,
                    current as int,
                    v as int,
                ) by {
                    if !before.contains(v) {
                        lemma_reachable_step(adj, current as int, to as int, v as int);
                    }
                }
                assert forall|v: usize|
                    stepped@.contains(v) && !base.contains(v) && v != current implies closed_at(
                    adj,
                    stepped@,
                    v as int,
                ) by {
                    if before.contains(v) {
                        assert(closed_at(adj, before, v as int));
                    }
                }
            }
        }
        i += 1;
    }
}

/// Tells whether the undirected graph is connected: whether every vertex can
/// be reached from the vertex 0.
pub fn is_connected<G: Undirected + ProvideAdjacencies>(graph: &G) -> (connected: bool)
    requires
        graph.wf(),
        is_undirected(graph.adjacencies()),
        graph.size_spec() > 0,
    ensures
        connected == is_connected_spec(graph.adjacencies()),
{
    broadcast use vstd::std_specs::hash::group_hash_axioms;

    let ghost adj = graph.adjacencies();
    let mut visited: HashSet<usize> = HashSet::new();
    visit_reachable(graph, 0, &mut visited);
    let n = graph.size();
    proof {
        graph.lemma_adjacencies();
        if visited@.len() == n {
            assert forall|v: int| 0 <= v < adj.len() implies #[trigger] reachable(adj, 0, v) by {
                lemma_full_set(visited@, n as nat, v as usize);
            }
        } else {
            lemma_bounded_set_len(visited@, n as nat);
            if is_connected_spec(adj) {
                assert forall|v: usize| v < n implies visited@.contains(v) by {
                    assert(reachable(adj, 0, v as int));
                    let p = choose|p: Seq<int>|
                        #[trigger] is_walk(adj, p) && p.first() == 0 && p.last() == v as int;
                    lemma_walk_stays(adj, visited@, p, p.len() - 1);
                }
                lemma_range_set_len(visited@, n as nat);
            }
        }
    }
    visited.len() == n
}

/// Whether `when` gives the vertices of `stepped` the times below the number
/// of its elements, and every other vertex the time `limit`.
spec fn times_match(stepped: Set<usize>, when: Seq<int>, limit: int) -> bool {
    &&& when.len() == limit
    &&& stepped.len() <= limit
    &&& forall|v: int|
        0 <= v < limit ==> (stepped.contains(v as usize) <==> #[trigger] when[v] < stepped.len())
    &&& forall|v: int| 0 <= v < limit && !stepped.contains(v as usize) ==> #[trigger] when[v] == limit
}

/// Whether the vertices of `stepped` that are not on `stack` have all their
/// edges into `stepped`.
spec fn closed_off_stack<C>(adj: Seq<Seq<Edge<C>>>, stepped: Set<usize>, stack: Seq<usize>) -> bool {
    forall|v: usize|
        stepped.contains(v) && !stack.contains(v) ==> #[trigger] closed_at(adj, stepped, v as int)
}

/// Visits `current` and every vertex that can be reached from it without
/// passing through a vertex visited before, until a vertex is entered that has
/// two edges to vertices visited already, itself included. Returns whether
/// there was such a vertex.
///
/// `stack` is the path from the vertex at which the search began to
/// `current`, without `current`, and `when` holds the time at which each vertex
/// was entered. The second component of the result is `when` after the visit.
fn visit_until_cycle<G: Undirected + ProvideAdjacencies>(
    graph: &G,
    current: usize,
    stepped: &mut HashSet<usize>,
    Ghost(stack): Ghost<Seq<usize>>,
    Ghost(when): Ghost<Seq<int>>,
) -> (found: (bool, Ghost<Seq<int>>))
    requires
        graph.wf(),
        is_undirected(graph.adjacencies()),
        graph.size_spec() <= usize::MAX,
        current < graph.size_spec(),
        old(stepped)@.finite(),
        !old(stepped)@.contains(current),
        forall|v: usize| old(stepped)@.contains(v) ==> v < graph.size_spec(),
        times_match(old(stepped)@, when, graph.size_spec() as int),
        is_forest_order(graph.adjacencies(), when, graph.size_spec() as int),
        is_path_to(graph.adjacencies(), stack, current as int),
        forall|t: int| 0 <= t < stack.len() ==> old(stepped)@.contains(#[trigger] stack[t]),
        closed_off_stack(graph.adjacencies(), old(stepped)@, stack),
    ensures
        found.0 ==> has_cycle_spec(graph.adjacencies()),
        !found.0 ==> {
            &&& final(stepped)@.finite()
            &&& forall|v: usize| final(stepped)@.contains(v) ==> v < graph.size_spec()
            &&& forall|v: usize| old(stepped)@.contains(v) ==> final(stepped)@.contains(v)
            &&& final(stepped)@.contains(current)
            &&& times_match(final(stepped)@, found.1@, graph.size_spec() as int)
            &&& is_forest_order(graph.adjacencies(), found.1@, graph.size_spec() as int)
            &&& forall|v: usize|
                final(stepped)@.contains(v) && !old(stepped)@.contains(v) ==> closed_at(
                    graph.adjacencies(),
                    final(stepped)@,
                    v as int,
                )
        },
    decreases graph.size_spec() - old(stepped)@.len(),
{
    broadcast use vstd::std_specs::hash::group_hash_axioms;

    let ghost adj = graph.adjacencies();
    let ghost base = stepped@;
    let ghost limit = graph.size_spec() as int;
    let ghost clock = base.len() as int;
    proof {
        graph.lemma_adjacencies();
        lemma_bounded_set_len(base.insert(current), graph.size_spec());
    }
    stepped.insert(current);
    let ghost entered = stepped@;
    let ghost mut now = when.update(current as int, clock);
    let edges = graph.get_adjacencies(current).unwrap();

    let mut num_visited: usize = 0;
    let ghost mut hits: Seq<int> = Seq::empty();
    let mut k: usize = 0;
    while k < edges.len()
        invariant
            edges@ == adj[current as int],
            entered == stepped@,
            k <= edges@.len(),
            num_visited == hits.len(),
            num_visited <= k,
            forall|h: int| 0 <= h < hits.len() ==> 0 <= #[trigger] hits[h] < k,
            forall|h: int| 0 <= h < hits.len() ==> entered.contains(edges@[#[trigger] hits[h]].to),
            forall|g: int, h: int| 0 <= g < h < hits.len() ==> hits[g] < hits[h],
            forall|i: int|
                0 <= i < k && entered.contains((#[trigger] edges@[i]).to) ==> hits.contains(i),
        decreases edges@.len() - k,
    {
        if stepped.contains(&edges[k].to) {
            proof {
                let extended = hits.push(k as int);
                assert forall|i: int|
                    0 <= i < k + 1 && entered.contains((#[trigger] edges@[i]).to) implies extended.contains(
                    i,
                ) by {
                    if i < k {
                        let h = choose|h: int| 0 <= h < hits.len() && hits[h] == i;
                        assert(extended[h] == i);
                    } else {
                        assert(extended[hits.len() as int] == i);
                    }
                }
                hits = extended;
            }
            num_visited += 1;
        }
        k += 1;
    }
    if num_visited >= 2 {
        proof {
            let i = hits[0];
            let j = hits[1];
            let a = edges@[i].to;
            let b = edges@[j].to;
            assert(adj[current as int][i].to == a);
            assert(adj[current as int][j].to == b);
            if a == b {
                assert(is_doubled_edge(adj, current as int, i, j));
            } else if a == current {
                lemma_loop_is_doubled(adj, current as int, i);
            } else if b == current {
                lemma_loop_is_doubled(adj, current as int, j);
            } else {
                assert(has_edge(adj, current as int, a as int));
                assert(has_edge(adj, current as int, b as int));
                lemma_has_edge_symmetric(adj, current as int, a as int);
                lemma_has_edge_symmetric(adj, current as int, b as int);
                assert(stack.contains(a)) by {
                    if !stack.contains(a) {
                        assert(closed_at(adj, base, a as int));
                        let back = choose|back: int|
                            0 <= back < adj[a as int].len() && (#[trigger] adj[a as int][back]).to
                                == current;
                        assert(base.contains(adj[a as int][back].to));
                    }
                }
                assert(stack.contains(b)) by {
                    if !stack.contains(b) {
                        assert(closed_at(adj, base, b as int));
                        let back = choose|back: int|
                            0 <= back < adj[b as int].len() && (#[trigger] adj[b as int][back]).to
                                == current;
                        assert(base.contains(adj[b as int][back].to));
                    }
                }
                let ka = choose|t: int| 0 <= t < stack.len() && stack[t] == a;
                let kb = choose|t: int| 0 <= t < stack.len() && stack[t] == b;
                if ka < kb {
                    lemma_path_closes(adj, stack, current as int, ka);
                } else {
                    lemma_path_closes(adj, stack, current as int, kb);
                }
            }
        }
        return (true, Ghost(now));
    }
    proof {
        assert forall|v: int| 0 <= v < limit implies (entered.contains(v as usize) <==> #[trigger] now[v]
            < entered.len()) by {
            assert(entered.len() == clock + 1);
            if v != current {
                assert(now[v] == when[v]);
                assert(entered.contains(v as usize) <==> base.contains(v as usize));
            }
        }
        assert(times_match(entered, now, limit));
        assert forall|v: int| 0 <= v < adj.len() && #[trigger] now[v] < limit implies at_most_one_earlier(
            adj,
            now,
            v,
        ) by {
            if v == current {
                assert forall|i: int, j: int| 0 <= i < j < adj[v].len() implies !(now[(
                #[trigger] adj[v][i]).to as int] <= now[v] && now[(#[trigger] adj[v][j]).to as int]
                    <= now[v]) by {
                    let a = adj[v][i].to;
                    let b = adj[v][j].to;
                    if now[a as int] <= now[v] && now[b as int] <= now[v] {
                        assert(entered.contains(edges@[i].to));
                        assert(entered.contains(edges@[j].to));
                        assert(hits.contains(i));
                        assert(hits.contains(j));
                        let g = choose|g: int| 0 <= g < hits.len() && hits[g] == i;
                        let h = choose|h: int| 0 <= h < hits.len() && hits[h] == j;
                        assert(false);
                    }
                }
            } else {
                assert(when[v] == now[v]);
                assert(at_most_one_earlier(adj, when, v));
                assert forall|i: int, j: int| 0 <= i < j < adj[v].len() implies !(now[(
                #[trigger] adj[v][i]).to as int] <= now[v] && now[(#[trigger] adj[v][j]).to as int]
                    <= now[v]) by {
                    let a = adj[v][i].to as int;
                    let b = adj[v][j].to as int;
                    assert(now[a] >= when[a] || a == current);
                    assert(now[b] >= when[b] || b == current);
                }
            }
        }
    }

    let ghost path = stack.push(current);
    let mut i: usize = 0;
    while i < edges.len()
        invariant
            graph.wf(),
            adj == graph.adjacencies(),
            limit == graph.size_spec(),
            adj.len() == limit,
            limit <= usize::MAX,
            is_undirected(adj),
            current < limit,
            edges@ == adj[current as int],
            i <= edges@.len(),
            base == old(stepped)@,
            base.finite(),
            !base.contains(current),
            path == stack.push(current),
            is_path_to(adj, stack, current as int),
            forall|t: int| 0 <= t < stack.len() ==> base.contains(#[trigger] stack[t]),
            closed_off_stack(adj, base, stack),
            stepped@.finite(),
            stepped@.contains(current),
            forall|v: usize| stepped@.contains(v) ==> v < limit,
            forall|v: usize| base.contains(v) ==> stepped@.contains(v),
            times_match(stepped@, now, limit),
            is_forest_order(adj, now, limit),
            forall|v: usize|
                stepped@.contains(v) && !base.contains(v) && v != current ==> closed_at(
                    adj,
                    stepped@,
                    v as int,
                ),
            forall|k: int| 0 <= k < i ==> stepped@.contains((#[trigger] edges@[k]).to),
        decreases edges@.len() - i,
    {
        let to = edges[i].to;
        if !stepped.contains(&to) {
            let ghost before = stepped@;
            proof {
                assert(adj[current as int][i as int].to < adj.len());
                assert(has_edge(adj, current as int, to as int));
                lemma_bounded_set_len(before.insert(to), graph.size_spec());
                vstd::set_lib::lemma_len_subset(base.insert(current), before);
                assert forall|t: int| 0 <= t < path.len() implies before.contains(#[trigger] path[t]) by {
                    if t < stack.len() {
                        assert(path[t] == stack[t]);
                    }
                }
                assert(is_path_to(adj, path, to as int)) by {
                    assert forall|t: int| 0 <= t < path.len() - 1 implies has_edge(
                        adj,
                        (#[trigger] path[t]) as int,
                        path[t + 1] as int,
                    ) by {
                        if t < stack.len() - 1 {
                            assert(has_edge(adj, stack[t] as int, stack[t + 1] as int));
                        } else {
                            assert(path[t] == stack.last());
                        }
                    }
                    assert forall|t: int, u: int| 0 <= t < u < path.len() implies path[t] != path[u] by {
                        if u < stack.len() {
                            assert(stack[t] != stack[u]);
                        } else {
                            assert(stack[t] != current);
                        }
                    }
                    assert forall|t: int| 0 <= t < path.len() implies #[trigger] path[t] != to by {
                        assert(before.contains(path[t]));
                    }
                }
                assert forall|v: usize| before.contains(v) && !path.contains(v) implies #[trigger] closed_at(
                    adj,
                    before,
                    v as int,
                ) by {
                    assert(path[stack.len() as int] == current);
                    if base.contains(v) {
                        if stack.contains(v) {
                            let t = choose|t: int| 0 <= t < stack.len() && stack[t] == v;
                            assert(path[t] == v);
                        }
                        assert(closed_at(adj, base, v as int));
                    }
                }
            }
            let found = visit_until_cycle(graph, to, stepped, Ghost(path), Ghost(now));
            if found.0 {
                return (true, found.1);
            }
            proof {
                now = found.1@;
                assert forall|v: usize|
                    stepped@.contains(v) && !base.contains(v) && v != current implies closed_at(
                    adj,
                    stepped@,
                    v as int,
                ) by {
                    if before.contains(v) {
                        assert(closed_at(adj, before, v as int));
                    }
                }
            }
        }
        i += 1;
    }
    (false, Ghost(now))
}

/// Tells whether the undirected graph has a cycle: a loop, two parallel edges,
/// or a simple cycle through three vertices or more.
pub fn has_cycle<G: Undirected + ProvideAdjacencies>(graph: &G) -> (cyclic: bool)
    requires
        graph.wf(),
        is_undirected(graph.adjacencies()),
    ensures
        cyclic == has_cycle_spec(graph.adjacencies()),
{
    broadcast use vstd::std_specs::hash::group_hash_axioms;

    let ghost adj = graph.adjacencies();
    let n = graph.size();
    let ghost limit = n as int;
    let mut visited: HashSet<usize> = HashSet::new();
    let ghost mut when: Seq<int> = Seq::new(n as nat, |v: int| limit);
    proof {
        graph.lemma_adjacencies();
    }
    let mut v: usize = 0;
    while v < n
        invariant
            graph.wf(),
            adj == graph.adjacencies(),
            n == graph.size_spec(),
            limit == n,
            adj.len() == n,
            is_undirected(adj),
            v <= n,
            visited@.finite(),
            forall|u: usize| visited@.contains(u) ==> u < n,
            forall|u: usize| u < v ==> visited@.contains(u),
            times_match(visited@, when, limit),
            is_forest_order(adj, when, limit),
            forall|u: usize| visited@.contains(u) ==> closed_at(adj, visited@, u as int),
        decreases n - v,
    {
        if !visited.contains(&v) {
            let ghost before = visited@;
            proof {
                assert(is_path_to(adj, Seq::<usize>::empty(), v as int));
            }
            let found = visit_until_cycle(graph, v, &mut visited, Ghost(Seq::empty()), Ghost(when));
            if found.0 {
                return true;
            }
            proof {
                when = found.1@;
                assert forall|u: usize| visited@.contains(u) implies closed_at(adj, visited@, u as int) by {
                    if before.contains(u) {
                        assert(closed_at(adj, before, u as int));
                    }
                }
            }
        }
        v += 1;
    }
    proof {
        assert forall|u: int| 0 <= u < adj.len() implies #[trigger] when[u] < limit by {
            assert(visited@.contains(u as usize));
        }
        lemma_forest_order_no_cycle(adj, when, limit);
    }
    false
}

/// An undirected graph stays undirected when an edge between two of its
/// vertices is added in both directions.
pub proof fn lemma_undirected_add<C>(m: Seq<Seq<Edge<C>>>, edge: Edge<C>)
    requires
        is_undirected(m),
        edge.from < m.len(),
        edge.to < m.len(),
    ensures
        is_undirected(undirected_add(m, edge)),
        undirected_add(m, edge).len() == m.len(),
{
    let from = edge.from as int;
    let to = edge.to as int;
    let half = adjacency_add(m, edge);
    let full = undirected_add(m, edge);
    assert forall|u: int, v: int| 0 <= u < full.len() && 0 <= v < full.len() implies #[trigger] count_to(
        full[u],
        v,
    ) == count_to(full[v], u) by {
        assert(count_to(m[u], v) == count_to(m[v], u));
        lemma_count_to_push(m[from], edge, v);
        lemma_count_to_push(m[from], edge, u);
        lemma_count_to_push(half[to], edge.reversed_spec(), v);
        lemma_count_to_push(half[to], edge.reversed_spec(), u);
    }
    assert forall|v: int| 0 <= v < full.len() implies #[trigger] count_to(full[v], v) % 2 == 0 by {
        assert(count_to(m[v], v) % 2 == 0);
        lemma_count_to_push(m[from], edge, v);
        lemma_count_to_push(half[to], edge.reversed_spec(), v);
    }
    assert forall|v: int, k: int| 0 <= v < full.len() && 0 <= k < full[v].len() implies (
    #[trigger] full[v][k]).to < full.len() by {
        if k < m[v].len() {
            assert(full[v][k] == m[v][k]);
        }
    }
}

/// An undirected graph stays undirected when edges between its vertices are
/// added in both directions.
pub proof fn lemma_undirected_add_all<C>(m: Seq<Seq<Edge<C>>>, edges: Seq<Edge<C>>)
    requires
        is_undirected(m),
        forall|i: int| 0 <= i < edges.len() ==> (#[trigger] edges[i]).from < m.len() && edges[i].to < m.len(),
    ensures
        is_undirected(undirected_add_all(m, edges)),
        undirected_add_all(m, edges).len() == m.len(),
    decreases edges.len(),
{
    if edges.len() > 0 {
        lemma_undirected_add_all(m, edges.drop_last());
        lemma_undirected_add(undirected_add_all(m, edges.drop_last()), edges.last());
    }
}

/// The lists of edges of an undirected adjacency list after every edge
/// between `from` and `to` has been removed.
pub open spec fn undirected_remove<C>(m: Seq<Seq<Edge<C>>>, from: usize, to: usize) -> Seq<Seq<Edge<C>>> {
    let half = m.update(from as int, m[from as int].filter(not_to(to)));
    half.update(to as int, half[to as int].filter(not_to(from)))
}

/// An undirected graph stays undirected when every edge between two of its
/// vertices is removed.
pub proof fn lemma_undirected_remove<C>(m: Seq<Seq<Edge<C>>>, from: usize, to: usize)
    requires
        is_undirected(m),
        from < m.len(),
        to < m.len(),
    ensures
        is_undirected(undirected_remove(m, from, to)),
{
    let half = m.update(from as int, m[from as int].filter(not_to(to)));
    let full = undirected_remove(m, from, to);
    assert(not_to::<C>(to) == |e: Edge<C>| e.to != to);
    assert(not_to::<C>(from) == |e: Edge<C>| e.to != from);
    assert forall|u: int, v: int| 0 <= u < full.len() && 0 <= v < full.len() implies #[trigger] count_to(
        full[u],
        v,
    ) == count_to(full[v], u) by {
        assert(count_to(m[u], v) == count_to(m[v], u));
        lemma_count_to_filter(m[from as int], to, v);
        lemma_count_to_filter(m[from as int], to, u);
        lemma_count_to_filter(half[to as int], from, v);
        lemma_count_to_filter(half[to as int], from, u);
    }
    assert forall|v: int| 0 <= v < full.len() implies #[trigger] count_to(full[v], v) % 2 == 0 by {
        assert(count_to(m[v], v) % 2 == 0);
        lemma_count_to_filter(m[from as int], to, v);
        lemma_count_to_filter(half[to as int], from, v);
    }
    assert forall|v: int, k: int| 0 <= v < full.len() && 0 <= k < full[v].len() implies (
    #[trigger] full[v][k]).to < full.len() by {
        let e = full[v][k];
        assert(full[v].contains(e));
        if v == to {
            half[v].lemma_filter_contains_rev(not_to(from), e);
            if v == from {
                m[v].lemma_filter_contains_rev(not_to(to), e);
            }
        } else if v == from {
            m[v].lemma_filter_contains_rev(not_to(to), e);
        }
        assert(m[v].contains(e));
    }
}

/// The number of edges of `list` that are equal to `e`.
pub open spec fn count_edge<C>(list: Seq<Edge<C>>, e: Edge<C>) -> nat
    decreases list.len(),
{
    if list.len() == 0 {
        0
    } else {
        count_edge(list.drop_last(), e) + if list.last() == e {
            1nat
        } else {
            0nat
        }
    }
}

/// Whether every edge has its mirror image: the list of the vertex that an
/// edge leads to holds the reversed edge, with the same cost, as often as the
/// list of the vertex that it leaves holds the edge itself; and an edge from a
/// vertex to itself, which is its own mirror image, stands in the list an even
/// number of times.
pub open spec fn is_mirrored<C>(adj: Seq<Seq<Edge<C>>>) -> bool {
    &&& forall|e: Edge<C>|
        e.from < adj.len() && e.to < adj.len() ==> #[trigger] count_edge(adj[e.from as int], e)
            == count_edge(adj[e.to as int], e.reversed_spec())
    &&& forall|e: Edge<C>|
        e.from < adj.len() && e.to == e.from ==> #[trigger] count_edge(adj[e.from as int], e) % 2 == 0
}

/// Whether the test for equality of the costs `C` tells whether two costs are
/// the same.
pub open spec fn eq_is_equality<C: PartialEq>() -> bool {
    &&& C::obeys_eq_spec()
    &&& forall|a: C, b: C| #[trigger] a.eq_spec(&b) <==> a == b
}

/// The lists of edges of an undirected adjacency list after every edge equal
/// to `edge`, and every edge equal to its mirror image, has been removed.
pub open spec fn undirected_remove_exact<C: PartialEq>(m: Seq<Seq<Edge<C>>>, edge: Edge<C>) -> Seq<
    Seq<Edge<C>>,
> {
    let half = m.update(edge.from as int, m[edge.from as int].filter(not_equal(edge)));
    half.update(edge.to as int, half[edge.to as int].filter(not_equal(edge.reversed_spec())))
}

proof fn lemma_count_edge_push<C>(list: Seq<Edge<C>>, x: Edge<C>, e: Edge<C>)
    ensures
        count_edge(list.push(x), e) == count_edge(list, e) + if x == e {
            1nat
        } else {
            0nat
        },
{
    assert(list.push(x).drop_last() == list);
}

proof fn lemma_count_edge_without_target<C>(list: Seq<Edge<C>>, to: usize, e: Edge<C>)
    ensures
        count_edge(list.filter(not_to(to)), e) == if e.to == to {
            0
        } else {
            count_edge(list, e)
        },
    decreases list.len(),
{
    reveal(Seq::filter);
    if list.len() > 0 {
        lemma_count_edge_without_target(list.drop_last(), to, e);
        if list.last().to != to {
            lemma_count_edge_push(list.drop_last().filter(not_to(to)), list.last(), e);
        }
    }
}

proof fn lemma_count_edge_without_edge<C: PartialEq>(list: Seq<Edge<C>>, x: Edge<C>, e: Edge<C>)
    requires
        eq_is_equality::<C>(),
    ensures
        count_edge(list.filter(not_equal(x)), e) == if e == x {
            0
        } else {
            count_edge(list, e)
        },
    decreases list.len(),
{
    reveal(Seq::filter);
    if list.len() > 0 {
        let last = list.last();
        lemma_count_edge_without_edge(list.drop_last(), x, e);
        assert(last.eq_spec(&x) <==> last == x) by {
            assert(last.cost.eq_spec(&x.cost) <==> last.cost == x.cost);
        }
        if last != x {
            lemma_count_edge_push(list.drop_last().filter(not_equal(x)), last, e);
        }
    }
}

proof fn lemma_count_to_without_edge<C: PartialEq>(list: Seq<Edge<C>>, x: Edge<C>, v: int)
    requires
        eq_is_equality::<C>(),
    ensures
        count_to(list.filter(not_equal(x)), v) + (if x.to == v {
            count_edge(list, x)
        } else {
            0
        }) == count_to(list, v),
    decreases list.len(),
{
    reveal(Seq::filter);
    if list.len() > 0 {
        let last = list.last();
        lemma_count_to_without_edge(list.drop_last(), x, v);
        assert(last.eq_spec(&x) <==> last == x) by {
            assert(last.cost.eq_spec(&x.cost) <==> last.cost == x.cost);
        }
        if last != x {
            lemma_count_to_push(list.drop_last().filter(not_equal(x)), last, v);
        }
    }
}

/// A graph in which every edge has its mirror image keeps this when an edge
/// between two of its vertices is added in both directions.
pub proof fn lemma_mirrored_add<C>(m: Seq<Seq<Edge<C>>>, edge: Edge<C>)
    requires
        is_mirrored(m),
        edge.from < m.len(),
        edge.to < m.len(),
    ensures
        is_mirrored(undirected_add(m, edge)),
{
    let from = edge.from as int;
    let to = edge.to as int;
    let half = adjacency_add(m, edge);
    let full = undirected_add(m, edge);
    let back = edge.reversed_spec();
    assert forall|e: Edge<C>| e.from < full.len() && e.to < full.len() implies #[trigger] count_edge(
        full[e.from as int],
        e,
    ) == count_edge(full[e.to as int], e.reversed_spec()) by {
        assert(count_edge(m[e.from as int], e) == count_edge(m[e.to as int], e.reversed_spec()));
        lemma_count_edge_push(m[from], edge, e);
        lemma_count_edge_push(m[from], edge, e.reversed_spec());
        lemma_count_edge_push(half[to], back, e);
        lemma_count_edge_push(half[to], back, e.reversed_spec());
    }
    assert forall|e: Edge<C>| e.from < full.len() && e.to == e.from implies #[trigger] count_edge(
        full[e.from as int],
        e,
    ) % 2 == 0 by {
        assert(count_edge(m[e.from as int], e) % 2 == 0);
        lemma_count_edge_push(m[from], edge, e);
        lemma_count_edge_push(half[to], back, e);
    }
}

/// A graph in which every edge has its mirror image keeps this when edges
/// between its vertices are added in both directions.
pub proof fn lemma_mirrored_add_all<C>(m: Seq<Seq<Edge<C>>>, edges: Seq<Edge<C>>)
    requires
        is_mirrored(m),
        forall|i: int| 0 <= i < edges.len() ==> (#[trigger] edges[i]).from < m.len() && edges[i].to < m.len(),
    ensures
        is_mirrored(undirected_add_all(m, edges)),
        undirected_add_all(m, edges).len() == m.len(),
    decreases edges.len(),
{
    if edges.len() > 0 {
        lemma_mirrored_add_all(m, edges.drop_last());
        lemma_mirrored_add(undirected_add_all(m, edges.drop_last()), edges.last());
    }
}

/// A graph in which every edge has its mirror image keeps this when every
/// edge between two of its vertices is removed.
pub proof fn lemma_mirrored_remove<C>(m: Seq<Seq<Edge<C>>>, from: usize, to: usize)
    requires
        is_mirrored(m),
        from < m.len(),
        to < m.len(),
    ensures
        is_mirrored(undirected_remove(m, from, to)),
{
    let half = m.update(from as int, m[from as int].filter(not_to(to)));
    let full = undirected_remove(m, from, to);
    assert forall|e: Edge<C>| e.from < full.len() && e.to < full.len() implies #[trigger] count_edge(
        full[e.from as int],
        e,
    ) == count_edge(full[e.to as int], e.reversed_spec()) by {
        assert(count_edge(m[e.from as int], e) == count_edge(m[e.to as int], e.reversed_spec()));
        lemma_count_edge_without_target(m[from as int], to, e);
        lemma_count_edge_without_target(m[from as int], to, e.reversed_spec());
        lemma_count_edge_without_target(half[to as int], from, e);
        lemma_count_edge_without_target(half[to as int], from, e.reversed_spec());
    }
    assert forall|e: Edge<C>| e.from < full.len() && e.to == e.from implies #[trigger] count_edge(
        full[e.from as int],
        e,
    ) % 2 == 0 by {
        assert(count_edge(m[e.from as int], e) % 2 == 0);
        lemma_count_edge_without_target(m[from as int], to, e);
        lemma_count_edge_without_target(half[to as int], from, e);
    }
}

/// An undirected graph in which every edge has its mirror image stays so
/// when every edge equal to a given one, and every edge equal to its mirror
/// image, is removed.
pub proof fn lemma_undirected_remove_exact<C: PartialEq>(m: Seq<Seq<Edge<C>>>, edge: Edge<C>)
    requires
        eq_is_equality::<C>(),
        is_undirected(m),
        is_mirrored(m),
        edge.from < m.len(),
        edge.to < m.len(),
    ensures
        is_undirected(undirected_remove_exact(m, edge)),
        is_mirrored(undirected_remove_exact(m, edge)),
{
    let from = edge.from as int;
    let to = edge.to as int;
    let back = edge.reversed_spec();
    let half = m.update(from, m[from].filter(not_equal(edge)));
    let full = undirected_remove_exact(m, edge);
    assert(count_edge(m[from], edge) == count_edge(m[to], back));
    assert forall|e: Edge<C>| e.from < full.len() && e.to < full.len() implies #[trigger] count_edge(
        full[e.from as int],
        e,
    ) == count_edge(full[e.to as int], e.reversed_spec()) by {
        assert(count_edge(m[e.from as int], e) == count_edge(m[e.to as int], e.reversed_spec()));
        lemma_count_edge_without_edge(m[from], edge, e);
        lemma_count_edge_without_edge(m[from], edge, e.reversed_spec());
        lemma_count_edge_without_edge(half[to], back, e);
        lemma_count_edge_without_edge(half[to], back, e.reversed_spec());
    }
    assert forall|e: Edge<C>| e.from < full.len() && e.to == e.from implies #[trigger] count_edge(
        full[e.from as int],
        e,
    ) % 2 == 0 by {
        assert(count_edge(m[e.from as int], e) % 2 == 0);
        lemma_count_edge_without_edge(m[from], edge, e);
        lemma_count_edge_without_edge(half[to], back, e);
    }
    assert forall|u: int, v: int| 0 <= u < full.len() && 0 <= v < full.len() implies #[trigger] count_to(
        full[u],
        v,
    ) == count_to(full[v], u) by {
        assert(count_to(m[u], v) == count_to(m[v], u));
        lemma_count_to_without_edge(m[from], edge, u);
        lemma_count_to_without_edge(m[from], edge, v);
        lemma_count_to_without_edge(half[to], back, u);
        lemma_count_to_without_edge(half[to], back, v);
        if from == to {
            lemma_count_edge_without_edge(m[from], edge, edge);
        }
    }
    assert forall|v: int| 0 <= v < full.len() implies #[trigger] count_to(full[v], v) % 2 == 0 by {
        assert(count_to(m[v], v) % 2 == 0);
        lemma_count_to_without_edge(m[from], edge, v);
        lemma_count_to_without_edge(half[to], back, v);
        if from == to {
            assert(count_edge(m[from], edge) % 2 == 0);
            lemma_count_edge_without_edge(m[from], edge, edge);
        }
    }
    assert forall|v: int, k: int| 0 <= v < full.len() && 0 <= k < full[v].len() implies (
    #[trigger] full[v][k]).to < full.len() by {
        let e = full[v][k];
        assert(full[v].contains(e));
        if v == to {
            half[v].lemma_filter_contains_rev(not_equal(back), e);
            if v == from {
                m[v].lemma_filter_contains_rev(not_equal(edge), e);
            }
        } else if v == from {
            m[v].lemma_filter_contains_rev(not_equal(edge), e);
        }
        assert(m[v].contains(e));
    }
}

/// Why a graph is not a tree.
#[derive(Debug, Clone, Copy, PartialEq, Eq, Hash)]
pub enum TreeTryFromError {
    /// The graph is not connected.
    NotConnected,
    /// The graph has a cycle.
    HasCycle,
    /// The graph is not connected, and it has a cycle.
    Both,
}

/// What [`is_tree`] returns for an undirected graph with these lists of
/// edges.
pub open spec fn tree_verdict<C>(adj: Seq<Seq<Edge<C>>>) -> Result<(), TreeTryFromError> {
    match (is_connected_spec(adj), has_cycle_spec(adj)) {
        (true, false) => Ok(()),
        (false, false) => Err(TreeTryFromError::NotConnected),
        (true, true) => Err(TreeTryFromError::HasCycle),
        (false, true) => Err(TreeTryFromError::Both),
    }
}

/// The verdict names what a graph lacks of a tree: a graph that is not
/// connected and has no cycle is found not connected, a connected graph with a
/// cycle is found to have a cycle, a graph with both defects is found to have
/// both, and no other graph passes than a connected one without a cycle.
pub proof fn lemma_tree_verdict<C>(adj: Seq<Seq<Edge<C>>>)
    ensures
        !is_connected_spec(adj) && !has_cycle_spec(adj) <==> tree_verdict(adj) == Err::<(), TreeTryFromError>(
            TreeTryFromError::NotConnected,
        ),
        is_connected_spec(adj) && has_cycle_spec(adj) <==> tree_verdict(adj) == Err::<(), TreeTryFromError>(
            TreeTryFromError::HasCycle,
        ),
        !is_connected_spec(adj) && has_cycle_spec(adj) <==> tree_verdict(adj) == Err::<(), TreeTryFromError>(
            TreeTryFromError::Both,
        ),
        is_tree_spec(adj) <==> tree_verdict(adj) == Ok::<(), TreeTryFromError>(()),
{
}

/// A connected undirected graph with `n` vertices, where `n > 0`, and `n - 1`
/// edges passes as a tree.
pub proof fn lemma_fewest_edges_verdict<C>(adj: Seq<Seq<Edge<C>>>)
    requires
        is_undirected(adj),
        adj.len() > 0,
        is_connected_spec(adj),
        num_entries(adj, adj.len() as int) == 2 * (adj.len() - 1),
    ensures
        tree_verdict(adj) == Ok::<(), TreeTryFromError>(()),
{
    lemma_connected_with_fewest_edges_is_tree(adj);
}

/// Tells whether the undirected graph is a tree, that is, whether it is
/// connected and has no cycle, and if it is none, which of the two fails.
pub fn is_tree<G: Undirected + ProvideAdjacencies>(graph: &G) -> (verdict: Result<(), TreeTryFromError>)
    requires
        graph.wf(),
        is_undirected(graph.adjacencies()),
        graph.size_spec() > 0,
    ensures
        verdict == tree_verdict(graph.adjacencies()),
        verdict.is_ok() == is_tree_spec(graph.adjacencies()),
{
    match (is_connected(graph), has_cycle(graph)) {
        (true, false) => Ok(()),
        (false, false) => Err(TreeTryFromError::NotConnected),
        (true, true) => Err(TreeTryFromError::HasCycle),
        (false, true) => Err(TreeTryFromError::Both),
    }
}

/// A tree: an undirected graph that is connected and has no cycle.
///
/// Whether a graph stays a tree while edges come and go is hard to tell, so a
/// tree cannot be changed. It is made from an [`UndirectedAdjacencyList`] that
/// is found to be a tree.
#[derive(Debug)]
pub struct Tree<C>(UndirectedAdjacencyList<C>);

impl<C> ReadonlyGraph for Tree<C> {
    type Cost = C;

    closed spec fn wf(&self) -> bool {
        &&& self.0.wf()
        &&& self.0.size_spec() > 0
        &&& is_undirected(self.0.adjacencies())
        &&& is_tree_spec(self.0.adjacencies())
    }

    closed spec fn size_spec(&self) -> nat {
        self.0.size_spec()
    }

    fn size(&self) -> (n: usize) {
        self.0.size()
    }
}

impl<C> Undirected for Tree<C> {

}

impl<C> ProvideAdjacencies for Tree<C> {
    closed spec fn adjacencies(&self) -> Seq<Seq<Edge<C>>> {
        self.0.adjacencies()
    }

    proof fn lemma_adjacencies(&self) {
        self.0.lemma_adjacencies();
    }

    fn get_adjacencies(&self, idx: usize) -> (list: Option<&[Edge<C>]>) {
        self.0.get_adjacencies(idx)
    }
}

impl<C> Tree<C> {
    /// A well-formed tree has a vertex, and is an undirected graph that is
    /// connected and has no cycle.
    pub proof fn lemma_wf(&self)
        requires
            self.wf(),
        ensures
            self.size_spec() > 0,
            is_undirected(self.adjacencies()),
            is_tree_spec(self.adjacencies()),
    {
    }

    /// Makes a tree from an undirected graph, if the graph is one, and tells
    /// otherwise why it is none.
    pub fn try_from_graph(graph: UndirectedAdjacencyList<C>) -> (tree: Result<Self, TreeTryFromError>)
        requires
            graph.wf(),
            is_undirected(graph.adjacencies()),
            graph.size_spec() > 0,
        ensures
            match tree {
                Ok(t) => t.wf() && t.adjacencies() == graph.adjacencies() && is_tree_spec(
                    graph.adjacencies(),
                ),
                Err(e) => tree_verdict(graph.adjacencies()) == Err::<(), TreeTryFromError>(e),
            },
    {
        match is_tree(&graph) {
            Ok(_) => Ok(Self(graph)),
            Err(e) => Err(e),
        }
    }

    /// Makes a tree from an undirected graph that is known to be one.
    pub fn from_graph_unchecked(graph: UndirectedAdjacencyList<C>) -> (tree: Self)
        requires
            graph.wf(),
            is_undirected(graph.adjacencies()),
            graph.size_spec() > 0,
            is_tree_spec(graph.adjacencies()),
        ensures
            tree.wf(),
            tree.adjacencies() == graph.adjacencies(),
    {
        Self(graph)
    }
}

} // verus!
