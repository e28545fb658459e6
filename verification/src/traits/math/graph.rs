//! Edges and the capabilities of graphs.

use crate::num::One;
use std::convert::From;
use vstd::prelude::*;
use vstd::std_specs::cmp::{PartialEqSpec, PartialEqSpecImpl};
use vstd::std_specs::convert::{FromSpecImpl, IntoSpec};

verus! {

/// A directed edge of a graph, with a cost.
#[derive(Debug, Hash)]
pub struct Edge<C> {
    pub from: usize,
    pub to: usize,
    pub cost: C,
}

impl<C: Clone> Clone for Edge<C> {
    fn clone(&self) -> (r: Self)
        ensures
            r.from == self.from,
            r.to == self.to,
            cloned(self.cost, r.cost),
    {
        Edge { from: self.from, to: self.to, cost: self.cost.clone() }
    }
}

impl<C: Copy> Copy for Edge<C> {

}

impl<C: PartialEq> PartialEq for Edge<C> {
    fn eq(&self, other: &Self) -> (r: bool) {
        self.from == other.from && self.to == other.to && self.cost == other.cost
    }
}

impl<C: PartialEq> PartialEqSpecImpl for Edge<C> {
    open spec fn obeys_eq_spec() -> bool {
        C::obeys_eq_spec()
    }

    open spec fn eq_spec(&self, other: &Self) -> bool {
        self.from == other.from && self.to == other.to && self.cost.eq_spec(&other.cost)
    }
}

impl<C: Eq> Eq for Edge<C> {

}

impl<C> Edge<C> {
    /// Makes an edge.
    pub fn new(from: usize, to: usize, cost: C) -> (e: Self)
        ensures
            e == (Edge { from, to, cost }),
    {
        Self { from, to, cost }
    }

    /// The edge in the opposite direction, with the same cost.
    pub open spec fn reversed_spec(self) -> Self {
        Edge { from: self.to, to: self.from, cost: self.cost }
    }

    /// Returns the edge in the opposite direction, with the same cost.
    pub fn reversed(self) -> (e: Self)
        ensures
            e == self.reversed_spec(),
    {
        Self { from: self.to, to: self.from, cost: self.cost }
    }
}

impl<C: One> Edge<C> {
    /// Makes an edge of cost one.
    pub fn one(from: usize, to: usize) -> (e: Self)
        requires
            C::has_one(),
        ensures
            e == (Edge { from, to, cost: C::one_spec() }),
    {
        Edge::new(from, to, C::one())
    }
}

impl<C> From<(usize, usize, C)> for Edge<C> {
    fn from(triple: (usize, usize, C)) -> (e: Self) {
        Edge::new(triple.0, triple.1, triple.2)
    }
}

impl<C> FromSpecImpl<(usize, usize, C)> for Edge<C> {
    open spec fn obeys_from_spec() -> bool {
        true
    }

    open spec fn from_spec(triple: (usize, usize, C)) -> Self {
        Edge { from: triple.0, to: triple.1, cost: triple.2 }
    }
}

impl From<(usize, usize)> for Edge<u8> {
    fn from(pair: (usize, usize)) -> (e: Self) {
        Edge::one(pair.0, pair.1)
    }
}

impl FromSpecImpl<(usize, usize)> for Edge<u8> {
    open spec fn obeys_from_spec() -> bool {
        true
    }

    open spec fn from_spec(pair: (usize, usize)) -> Self {
        Edge { from: pair.0, to: pair.1, cost: 1 }
    }
}

impl From<(usize, usize)> for Edge<u16> {
    fn from(pair: (usize, usize)) -> (e: Self) {
        Edge::one(pair.0, pair.1)
    }
}

impl FromSpecImpl<(usize, usize)> for Edge<u16> {
    open spec fn obeys_from_spec() -> bool {
        true
    }

    open spec fn from_spec(pair: (usize, usize)) -> Self {
        Edge { from: pair.0, to: pair.1, cost: 1 }
    }
}

impl From<(usize, usize)> for Edge<u32> {
    fn from(pair: (usize, usize)) -> (e: Self) {
        Edge::one(pair.0, pair.1)
    }
}

impl FromSpecImpl<(usize, usize)> for Edge<u32> {
    open spec fn obeys_from_spec() -> bool {
        true
    }

    open spec fn from_spec(pair: (usize, usize)) -> Self {
        Edge { from: pair.0, to: pair.1, cost: 1 }
    }
}

impl From<(usize, usize)> for Edge<u64> {
    fn from(pair: (usize, usize)) -> (e: Self) {
        Edge::one(pair.0, pair.1)
    }
}

impl FromSpecImpl<(usize, usize)> for Edge<u64> {
    open spec fn obeys_from_spec() -> bool {
        true
    }

    open spec fn from_spec(pair: (usize, usize)) -> Self {
        Edge { from: pair.0, to: pair.1, cost: 1 }
    }
}

impl From<(usize, usize)> for Edge<usize> {
    fn from(pair: (usize, usize)) -> (e: Self) {
        Edge::one(pair.0, pair.1)
    }
}

impl FromSpecImpl<(usize, usize)> for Edge<usize> {
    open spec fn obeys_from_spec() -> bool {
        true
    }

    open spec fn from_spec(pair: (usize, usize)) -> Self {
        Edge { from: pair.0, to: pair.1, cost: 1 }
    }
}

impl From<(usize, usize)> for Edge<i8> {
    fn from(pair: (usize, usize)) -> (e: Self) {
        Edge::one(pair.0, pair.1)
    }
}

impl FromSpecImpl<(usize, usize)> for Edge<i8> {
    open spec fn obeys_from_spec() -> bool {
        true
    }

    open spec fn from_spec(pair: (usize, usize)) -> Self {
        Edge { from: pair.0, to: pair.1, cost: 1 }
    }
}

impl From<(usize, usize)> for Edge<i16> {
    fn from(pair: (usize, usize)) -> (e: Self) {
        Edge::one(pair.0, pair.1)
    }
}

impl FromSpecImpl<(usize, usize)> for Edge<i16> {
    open spec fn obeys_from_spec() -> bool {
        true
    }

    open spec fn from_spec(pair: (usize, usize)) -> Self {
        Edge { from: pair.0, to: pair.1, cost: 1 }
    }
}

impl From<(usize, usize)> for Edge<i32> {
    fn from(pair: (usize, usize)) -> (e: Self) {
        Edge::one(pair.0, pair.1)
    }
}

impl FromSpecImpl<(usize, usize)> for Edge<i32> {
    open spec fn obeys_from_spec() -> bool {
        true
    }

    open spec fn from_spec(pair: (usize, usize)) -> Self {
        Edge { from: pair.0, to: pair.1, cost: 1 }
    }
}

impl From<(usize, usize)> for Edge<i64> {
    fn from(pair: (usize, usize)) -> (e: Self) {
        Edge::one(pair.0, pair.1)
    }
}

impl FromSpecImpl<(usize, usize)> for Edge<i64> {
    open spec fn obeys_from_spec() -> bool {
        true
    }

    open spec fn from_spec(pair: (usize, usize)) -> Self {
        Edge { from: pair.0, to: pair.1, cost: 1 }
    }
}

impl From<(usize, usize)> for Edge<isize> {
    fn from(pair: (usize, usize)) -> (e: Self) {
        Edge::one(pair.0, pair.1)
    }
}

impl FromSpecImpl<(usize, usize)> for Edge<isize> {
    open spec fn obeys_from_spec() -> bool {
        true
    }

    open spec fn from_spec(pair: (usize, usize)) -> Self {
        Edge { from: pair.0, to: pair.1, cost: 1 }
    }
}

/// Data with the structure of a graph.
pub trait ReadonlyGraph {
    /// The costs of the edges.
    type Cost;

    /// The invariant of the representation.
    spec fn wf(&self) -> bool;

    /// The number of vertices.
    spec fn size_spec(&self) -> nat;

    /// Returns the number of vertices.
    fn size(&self) -> (n: usize)
        requires
            self.wf(),
        ensures
            n == self.size_spec(),
    ;
}

/// Graphs that can be made empty and that edges can be added to and removed
/// from.
pub trait Graph: ReadonlyGraph + Sized {
    /// What the graph holds, as a mathematical value.
    type Model;

    /// What the graph holds.
    spec fn model(&self) -> Self::Model;

    /// Whether the graph has room for an edge between these endpoints.
    spec fn in_range(&self, from: usize, to: usize) -> bool;

    /// What a graph holds after an edge has been added to it.
    spec fn model_add(m: Self::Model, edge: Edge<Self::Cost>) -> Self::Model;

    /// What a graph holds after the edges of a sequence have been added to
    /// it in their order.
    spec fn model_add_all(m: Self::Model, edges: Seq<Edge<Self::Cost>>) -> Self::Model;

    /// Adding no edge changes nothing, and adding a sequence of edges is adding
    /// all but the last of them and then the last.
    proof fn lemma_add_all(m: Self::Model, edges: Seq<Edge<Self::Cost>>)
        ensures
            edges.len() == 0 ==> Self::model_add_all(m, edges) == m,
            edges.len() > 0 ==> Self::model_add_all(m, edges) == Self::model_add(
                Self::model_add_all(m, edges.drop_last()),
                edges.last(),
            ),
    ;

    /// Makes the graph with `n` vertices and no edge.
    fn of_size(n: usize) -> (graph: Self)
        ensures
            graph.wf(),
            graph.size_spec() == n,
    ;

    /// Adds an edge.
    fn add_edge<E: Into<Edge<Self::Cost>>>(&mut self, edge: E)
        requires
            old(self).wf(),
            E::obeys_into_spec(),
            old(self).in_range(edge.into_spec().from, edge.into_spec().to),
        ensures
            final(self).wf(),
            final(self).size_spec() == old(self).size_spec(),
            final(self).model() == Self::model_add(old(self).model(), edge.into_spec()),
            forall|a: usize, b: usize| #[trigger] final(self).in_range(a, b) == old(self).in_range(a, b),
    ;

    /// Removes every edge from `from` to `to`.
    fn remove_edge(&mut self, from: usize, to: usize)
        requires
            old(self).wf(),
            old(self).in_range(from, to),
        ensures
            final(self).wf(),
            final(self).size_spec() == old(self).size_spec(),
            forall|a: usize, b: usize| #[trigger] final(self).in_range(a, b) == old(self).in_range(a, b),
    ;

    /// Removes every edge that is equal to the given one, cost included.
    fn remove_edge_exact<E: Into<Edge<Self::Cost>>>(&mut self, edge: E) where Self::Cost: Eq
        requires
            old(self).wf(),
            E::obeys_into_spec(),
            old(self).in_range(edge.into_spec().from, edge.into_spec().to),
        ensures
            final(self).wf(),
            final(self).size_spec() == old(self).size_spec(),
            forall|a: usize, b: usize| #[trigger] final(self).in_range(a, b) == old(self).in_range(a, b),
    ;

    /// Adds several edges, in their order.
    fn add_edges<E: Into<Edge<Self::Cost>>>(&mut self, edges: Vec<E>)
        requires
            old(self).wf(),
            E::obeys_into_spec(),
            forall|i: int|
                0 <= i < edges@.len() ==> old(self).in_range(
                    (#[trigger] edges@[i]).into_spec().from,
                    edges@[i].into_spec().to,
                ),
        ensures
            final(self).wf(),
            final(self).size_spec() == old(self).size_spec(),
            final(self).model() == Self::model_add_all(
                old(self).model(),
                edges@.map_values(|e: E| e.into_spec()),
            ),
            forall|a: usize, b: usize| #[trigger] final(self).in_range(a, b) == old(self).in_range(a, b),
    {
        let ghost all = edges@;
        let ghost specs = edges@.map_values(|e: E| e.into_spec());
        let mut rest: Vec<E> = Vec::new();
        let mut edges = edges;
        while edges.len() > 0
            invariant
                edges@.len() + rest@.len() == all.len(),
                forall|i: int| 0 <= i < edges@.len() ==> edges@[i] == all[i],
                forall|i: int| 0 <= i < rest@.len() ==> rest@[i] == all[all.len() - 1 - i],
            decreases edges@.len(),
        {
            let e = edges.pop().unwrap();
            rest.push(e);
        }
        let ghost done: int = 0;
        proof {
            Self::lemma_add_all(self.model(), specs.take(0));
        }
        while rest.len() > 0
            invariant
                self.wf(),
                E::obeys_into_spec(),
                self.size_spec() == old(self).size_spec(),
                forall|a: usize, b: usize| #[trigger] self.in_range(a, b) == old(self).in_range(a, b),
                forall|i: int|
                    0 <= i < all.len() ==> old(self).in_range(
                        (#[trigger] all[i]).into_spec().from,
                        all[i].into_spec().to,
                    ),
                0 <= done <= all.len(),
                rest@.len() + done == all.len(),
                forall|i: int| 0 <= i < rest@.len() ==> rest@[i] == all[all.len() - 1 - i],
                specs.len() == all.len(),
                forall|i: int| 0 <= i < all.len() ==> #[trigger] specs[i] == all[i].into_spec(),
                self.model() == Self::model_add_all(old(self).model(), specs.take(done)),
            decreases rest@.len(),
        {
            let e = rest.pop().unwrap();
            proof {
                assert(e == all[done]);
                assert(specs.take(done + 1).drop_last() == specs.take(done));
                assert(specs.take(done + 1).last() == all[done].into_spec());
                Self::lemma_add_all(old(self).model(), specs.take(done + 1));
                assert(old(self).in_range(all[done].into_spec().from, all[done].into_spec().to));
            }
            self.add_edge(e);
            proof {
                done = done + 1;
            }
        }
        proof {
            assert(specs.take(done) == specs);
        }
    }
}

/// Graphs that can hand out the edges that leave a vertex.
pub trait ProvideAdjacencies: ReadonlyGraph {
    /// For every vertex, the edges that leave it, in their order.
    spec fn adjacencies(&self) -> Seq<Seq<Edge<Self::Cost>>>;

    /// A well-formed graph has one list of edges for each vertex.
    proof fn lemma_adjacencies(&self)
        requires
            self.wf(),
        ensures
            self.adjacencies().len() == self.size_spec(),
    ;

    /// Returns the edges that leave the vertex `idx`, or `None` if there is no
    /// such vertex.
    fn get_adjacencies(&self, idx: usize) -> (list: Option<&[Edge<Self::Cost>]>)
        requires
            self.wf(),
        ensures
            idx < self.size_spec() ==> list.is_some() && list.unwrap()@ == self.adjacencies()[idx as int],
            idx >= self.size_spec() ==> list.is_none(),
    ;
}

/// Graphs whose edges have no direction: such a graph holds every edge in
/// both directions.
pub trait Undirected: ReadonlyGraph {

}

} // verus!
