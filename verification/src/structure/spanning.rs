//! A connected graph with as few edges as can be is a tree.
//!
//! A connected undirected graph with `n` vertices has at least `n - 1` edges.
//! This module proves that one with exactly `n - 1` edges has no cycle. The
//! proof orders the vertices by their distance from the vertex 0, counts the
//! edges that lead nearer to it, away from it and along, and finds that every
//! vertex but the vertex 0 has exactly one edge that leads nearer and none that
//! leads along.

use crate::structure::undirected::{
    at_most_one_earlier, count_to, has_cycle_spec, has_edge, is_connected_spec, is_undirected, is_walk,
    lemma_count_to_push, lemma_has_edge_symmetric, lemma_ordered_no_cycle, reachable,
};
use crate::traits::math::graph::Edge;
use vstd::prelude::*;

verus! {

/// The number of edges in the lists of the first `k` vertices. An undirected
/// graph holds every edge twice, so it has half as many edges as its lists
/// hold in all.
pub open spec fn num_entries<C>(adj: Seq<Seq<Edge<C>>>, k: int) -> int
    decreases k,
{
    if k <= 0 {
        0
    } else {
        num_entries(adj, k - 1) + adj[k - 1].len()
    }
}

/// Whether a walk of at most `k` edges leads from the vertex 0 to `v`.
pub open spec fn reach_in<C>(adj: Seq<Seq<Edge<C>>>, v: int, k: int) -> bool {
    exists|p: Seq<int>| #[trigger] is_walk(adj, p) && p.first() == 0 && p.last() == v && p.len() <= k + 1
}

/// The distance of `v` from the vertex 0: the least number of edges of a walk
/// between them.
pub open spec fn dist<C>(adj: Seq<Seq<Edge<C>>>, v: int) -> int {
    choose|k: int| 0 <= k && reach_in(adj, v, k) && forall|j: int| 0 <= j < k ==> !reach_in(adj, v, j)
}

proof fn lemma_least<C>(adj: Seq<Seq<Edge<C>>>, v: int, bound: int) -> (k: int)
    requires
        0 <= bound,
        reach_in(adj, v, bound),
    ensures
        0 <= k <= bound,
        reach_in(adj, v, k),
        forall|j: int| 0 <= j < k ==> !reach_in(adj, v, j),
    decreases bound,
{
    if exists|j: int| 0 <= j < bound && reach_in(adj, v, j) {
        let j = choose|j: int| 0 <= j < bound && reach_in(adj, v, j);
        lemma_least(adj, v, j)
    } else {
        bound
    }
}

/// The distance of a vertex that can be reached is the number of edges of a
/// walk to it, and no walk has fewer.
pub proof fn lemma_dist<C>(adj: Seq<Seq<Edge<C>>>, v: int)
    requires
        reachable(adj, 0, v),
    ensures
        0 <= dist(adj, v),
        reach_in(adj, v, dist(adj, v)),
        forall|j: int| 0 <= j < dist(adj, v) ==> !reach_in(adj, v, j),
{
    let p = choose|p: Seq<int>| #[trigger] is_walk(adj, p) && p.first() == 0 && p.last() == v;
    assert(reach_in(adj, v, p.len() - 1));
    let k = lemma_least(adj, v, p.len() - 1);
}

/// Every vertex but the vertex 0 of a connected undirected graph has an edge
/// to a vertex that is nearer to the vertex 0. The result is the position of
/// such an edge in the list of the vertex.
proof fn lemma_parent<C>(adj: Seq<Seq<Edge<C>>>, v: int) -> (k: int)
    requires
        is_undirected(adj),
        is_connected_spec(adj),
        0 < v < adj.len(),
    ensures
        0 <= k < adj[v].len(),
        dist(adj, adj[v][k].to as int) < dist(adj, v),
{
    assert(reachable(adj, 0, v));
    lemma_dist(adj, v);
    let d = dist(adj, v);
    let p = choose|p: Seq<int>|
        #[trigger] is_walk(adj, p) && p.first() == 0 && p.last() == v && p.len() <= d + 1;
    let len = p.len() as int;
    assert(len >= 2);
    let u = p[len - 2];
    let q = p.drop_last();
    assert(has_edge(adj, p[len - 2], p[len - 2 + 1]));
    assert(is_walk(adj, q)) by {
        assert forall|i: int| 0 <= i < q.len() - 1 implies has_edge(adj, #[trigger] q[i], q[i + 1]) by {
            assert(has_edge(adj, p[i], p[i + 1]));
        }
        assert forall|i: int| 0 <= i < q.len() implies 0 <= #[trigger] q[i] < adj.len() by {
            assert(0 <= p[i] < adj.len());
        }
    }
    assert(q.last() == u);
    assert(reach_in(adj, u, d - 1));
    assert(0 <= p[len - 2] < adj.len());
    assert(reachable(adj, 0, u));
    lemma_dist(adj, u);
    lemma_has_edge_symmetric(adj, u, v);
    let k = choose|k: int| 0 <= k < adj[v].len() && (#[trigger] adj[v][k]).to == u;
    k
}

/// Where an edge from `u` to `t` leads: nearer to the vertex 0 (-1), along
/// (0), or away from it (1).
pub open spec fn level_sign<C>(adj: Seq<Seq<Edge<C>>>, u: int, t: int) -> int {
    if dist(adj, t) < dist(adj, u) {
        -1
    } else if dist(adj, t) == dist(adj, u) {
        0
    } else {
        1
    }
}

/// The number of edges of `list`, taken as edges that leave `u`, that lead
/// the way `s`.
pub open spec fn count_sign<C>(adj: Seq<Seq<Edge<C>>>, list: Seq<Edge<C>>, u: int, s: int) -> int
    decreases list.len(),
{
    if list.len() == 0 {
        0
    } else {
        count_sign(adj, list.drop_last(), u, s) + if level_sign(adj, u, list.last().to as int) == s {
            1int
        } else {
            0int
        }
    }
}

proof fn lemma_count_sign_partition<C>(adj: Seq<Seq<Edge<C>>>, list: Seq<Edge<C>>, u: int)
    ensures
        count_sign(adj, list, u, -1) + count_sign(adj, list, u, 0) + count_sign(adj, list, u, 1)
            == list.len(),
        count_sign(adj, list, u, -1) >= 0,
        count_sign(adj, list, u, 0) >= 0,
        count_sign(adj, list, u, 1) >= 0,
    decreases list.len(),
{
    if list.len() > 0 {
        lemma_count_sign_partition(adj, list.drop_last(), u);
    }
}

proof fn lemma_count_sign_positive<C>(adj: Seq<Seq<Edge<C>>>, list: Seq<Edge<C>>, u: int, s: int, i: int)
    requires
        0 <= i < list.len(),
        level_sign(adj, u, list[i].to as int) == s,
    ensures
        count_sign(adj, list, u, s) >= 1,
    decreases list.len(),
{
    lemma_count_sign_partition(adj, list.drop_last(), u);
    if i < list.len() - 1 {
        assert(list.drop_last()[i] == list[i]);
        lemma_count_sign_positive(adj, list.drop_last(), u, s, i);
    }
    if s != -1 && s != 0 && s != 1 {
        assert(false);
    }
}

proof fn lemma_count_sign_pair<C>(
    adj: Seq<Seq<Edge<C>>>,
    list: Seq<Edge<C>>,
    u: int,
    s: int,
    i: int,
    j: int,
)
    requires
        0 <= i < j < list.len(),
        level_sign(adj, u, list[i].to as int) == s,
        level_sign(adj, u, list[j].to as int) == s,
    ensures
        count_sign(adj, list, u, s) >= 2,
    decreases list.len(),
{
    assert(list.drop_last()[i] == list[i]);
    if j < list.len() - 1 {
        assert(list.drop_last()[j] == list[j]);
        lemma_count_sign_pair(adj, list.drop_last(), u, s, i, j);
        lemma_count_sign_partition(adj, list.drop_last(), u);
    } else {
        lemma_count_sign_positive(adj, list.drop_last(), u, s, i);
    }
}

/// The number of edges of `list` to `v`, if an edge from `u` to `v` leads the
/// way `s`, and 0 otherwise.
pub open spec fn weight<C>(adj: Seq<Seq<Edge<C>>>, list: Seq<Edge<C>>, u: int, s: int, v: int) -> int {
    if level_sign(adj, u, v) == s {
        count_to(list, v) as int
    } else {
        0
    }
}

/// The sum of the weights of the vertices below `j`.
pub open spec fn weight_sum<C>(adj: Seq<Seq<Edge<C>>>, list: Seq<Edge<C>>, u: int, s: int, j: int) -> int
    decreases j,
{
    if j <= 0 {
        0
    } else {
        weight_sum(adj, list, u, s, j - 1) + weight(adj, list, u, s, j - 1)
    }
}

proof fn lemma_weight_sum_push<C>(
    adj: Seq<Seq<Edge<C>>>,
    list: Seq<Edge<C>>,
    e: Edge<C>,
    u: int,
    s: int,
    j: int,
)
    ensures
        weight_sum(adj, list.push(e), u, s, j) == weight_sum(adj, list, u, s, j) + if e.to < j
            && level_sign(adj, u, e.to as int) == s {
            1int
        } else {
            0int
        },
    decreases j,
{
    if j > 0 {
        lemma_weight_sum_push(adj, list, e, u, s, j - 1);
        lemma_count_to_push(list, e, j - 1);
    }
}

/// Counting the edges of a list that lead one way gives the same as adding
/// up, over the vertices that lie that way, the edges to each.
proof fn lemma_count_sign_is_weight_sum<C>(
    adj: Seq<Seq<Edge<C>>>,
    list: Seq<Edge<C>>,
    u: int,
    s: int,
    n: int,
)
    requires
        forall|k: int| 0 <= k < list.len() ==> (#[trigger] list[k]).to < n,
    ensures
        count_sign(adj, list, u, s) == weight_sum(adj, list, u, s, n),
    decreases list.len(),
{
    if list.len() == 0 {
        lemma_weight_sum_empty(adj, list, u, s, n);
    } else {
        let rest = list.drop_last();
        assert forall|k: int| 0 <= k < rest.len() implies (#[trigger] rest[k]).to < n by {
            assert(rest[k] == list[k]);
        }
        lemma_count_sign_is_weight_sum(adj, rest, u, s, n);
        assert(rest.push(list.last()) == list);
        lemma_weight_sum_push(adj, rest, list.last(), u, s, n);
        assert(list[list.len() - 1].to < n);
    }
}

proof fn lemma_weight_sum_empty<C>(adj: Seq<Seq<Edge<C>>>, list: Seq<Edge<C>>, u: int, s: int, j: int)
    requires
        list.len() == 0,
    ensures
        weight_sum(adj, list, u, s, j) == 0,
    decreases j,
{
    if j > 0 {
        lemma_weight_sum_empty(adj, list, u, s, j - 1);
    }
}

/// The sum of `f(u, v)` over the `v` below `j`.
pub open spec fn row_sum(f: spec_fn(int, int) -> int, u: int, j: int) -> int
    decreases j,
{
    if j <= 0 {
        0
    } else {
        row_sum(f, u, j - 1) + f(u, j - 1)
    }
}

/// The sum of `f(u, v)` over the `u` below `i`.
pub open spec fn col_sum(f: spec_fn(int, int) -> int, i: int, v: int) -> int
    decreases i,
{
    if i <= 0 {
        0
    } else {
        col_sum(f, i - 1, v) + f(i - 1, v)
    }
}

/// The sum of `f(u, v)` over the `u` below `i` and the `v` below `j`, taken
/// row by row.
pub open spec fn sum_rows(f: spec_fn(int, int) -> int, i: int, j: int) -> int
    decreases i,
{
    if i <= 0 {
        0
    } else {
        sum_rows(f, i - 1, j) + row_sum(f, i - 1, j)
    }
}

/// The sum of `f(u, v)` over the `u` below `i` and the `v` below `j`, taken
/// column by column.
pub open spec fn sum_cols(f: spec_fn(int, int) -> int, i: int, j: int) -> int
    decreases j,
{
    if j <= 0 {
        0
    } else {
        sum_cols(f, i, j - 1) + col_sum(f, i, j - 1)
    }
}

proof fn lemma_sum_cols_step(f: spec_fn(int, int) -> int, i: int, j: int)
    requires
        i >= 1,
    ensures
        sum_cols(f, i, j) == sum_cols(f, i - 1, j) + row_sum(f, i - 1, j),
    decreases j,
{
    if j > 0 {
        lemma_sum_cols_step(f, i, j - 1);
    }
}

/// A sum over rows and columns can be taken row by row or column by column.
pub proof fn lemma_sum_swap(f: spec_fn(int, int) -> int, i: int, j: int)
    ensures
        sum_rows(f, i, j) == sum_cols(f, i, j),
    decreases i,
{
    if i <= 0 {
        lemma_sum_cols_none_or_less(f, i, j);
    } else {
        lemma_sum_swap(f, i - 1, j);
        lemma_sum_cols_step(f, i, j);
    }
}

proof fn lemma_sum_cols_none_or_less(f: spec_fn(int, int) -> int, i: int, j: int)
    requires
        i <= 0,
    ensures
        sum_cols(f, i, j) == 0,
    decreases j,
{
    if j > 0 {
        lemma_sum_cols_none_or_less(f, i, j - 1);
    }
}

/// The number of edges, over the first `i` vertices, that lead the way `s`.
pub open spec fn total_sign<C>(adj: Seq<Seq<Edge<C>>>, s: int, i: int) -> int
    decreases i,
{
    if i <= 0 {
        0
    } else {
        total_sign(adj, s, i - 1) + count_sign(adj, adj[i - 1], i - 1, s)
    }
}

proof fn lemma_total_partition<C>(adj: Seq<Seq<Edge<C>>>, i: int)
    ensures
        num_entries(adj, i) == total_sign(adj, -1, i) + total_sign(adj, 0, i) + total_sign(adj, 1, i),
        total_sign(adj, -1, i) >= 0,
        total_sign(adj, 0, i) >= 0,
        total_sign(adj, 1, i) >= 0,
    decreases i,
{
    if i > 0 {
        lemma_total_partition(adj, i - 1);
        lemma_count_sign_partition(adj, adj[i - 1], i - 1);
    }
}

proof fn lemma_term_le_total<C>(adj: Seq<Seq<Edge<C>>>, s: int, x: int, i: int)
    requires
        0 <= x < i,
    ensures
        count_sign(adj, adj[x], x, s) <= total_sign(adj, s, i),
    decreases i,
{
    lemma_total_partition(adj, i - 1);
    lemma_count_sign_partition(adj, adj[i - 1], i - 1);
    if x < i - 1 {
        lemma_term_le_total(adj, s, x, i - 1);
    }
    if s != -1 && s != 0 && s != 1 {
        lemma_total_off(adj, s, i);
        lemma_count_off(adj, adj[x], x, s);
    }
}

proof fn lemma_count_off<C>(adj: Seq<Seq<Edge<C>>>, list: Seq<Edge<C>>, u: int, s: int)
    requires
        s != -1 && s != 0 && s != 1,
    ensures
        count_sign(adj, list, u, s) == 0,
    decreases list.len(),
{
    if list.len() > 0 {
        lemma_count_off(adj, list.drop_last(), u, s);
    }
}

proof fn lemma_total_off<C>(adj: Seq<Seq<Edge<C>>>, s: int, i: int)
    requires
        s != -1 && s != 0 && s != 1,
    ensures
        total_sign(adj, s, i) == 0,
    decreases i,
{
    if i > 0 {
        lemma_total_off(adj, s, i - 1);
        lemma_count_off(adj, adj[i - 1], i - 1, s);
    }
}

/// The edges that lead nearer to the vertex 0, counted vertex by vertex, are
/// the sum of `f` row by row, where `f(u, v)` is the number of edges from `u`
/// to `v` if `v` is nearer than `u`, and 0 otherwise.
proof fn lemma_nearer_total<C>(adj: Seq<Seq<Edge<C>>>, f: spec_fn(int, int) -> int, i: int)
    requires
        is_undirected(adj),
        forall|a: int, b: int| #[trigger] f(a, b) == weight(adj, adj[a], a, -1, b),
        0 <= i <= adj.len(),
    ensures
        total_sign(adj, -1, i) == sum_rows(f, i, adj.len() as int),
    decreases i,
{
    if i > 0 {
        lemma_nearer_total(adj, f, i - 1);
        lemma_count_sign_is_weight_sum(adj, adj[i - 1], i - 1, -1, adj.len() as int);
        lemma_row_is_weight_sum(adj, f, i - 1, adj.len() as int);
    }
}

proof fn lemma_row_is_weight_sum<C>(adj: Seq<Seq<Edge<C>>>, f: spec_fn(int, int) -> int, u: int, j: int)
    requires
        forall|a: int, b: int| #[trigger] f(a, b) == weight(adj, adj[a], a, -1, b),
    ensures
        row_sum(f, u, j) == weight_sum(adj, adj[u], u, -1, j),
    decreases j,
{
    if j > 0 {
        lemma_row_is_weight_sum(adj, f, u, j - 1);
    }
}

/// The edges that lead away from the vertex 0, counted vertex by vertex, are
/// the sum of the same `f` column by column: an edge from `u` away to `v` has
/// a counterpart from `v` nearer to `u`.
proof fn lemma_farther_total<C>(adj: Seq<Seq<Edge<C>>>, f: spec_fn(int, int) -> int, i: int)
    requires
        is_undirected(adj),
        forall|a: int, b: int| #[trigger] f(a, b) == weight(adj, adj[a], a, -1, b),
        0 <= i <= adj.len(),
    ensures
        total_sign(adj, 1, i) == sum_cols(f, adj.len() as int, i),
    decreases i,
{
    if i > 0 {
        lemma_farther_total(adj, f, i - 1);
        lemma_count_sign_is_weight_sum(adj, adj[i - 1], i - 1, 1, adj.len() as int);
        lemma_col_is_weight_sum(adj, f, i - 1, adj.len() as int);
    }
}

proof fn lemma_col_is_weight_sum<C>(adj: Seq<Seq<Edge<C>>>, f: spec_fn(int, int) -> int, u: int, j: int)
    requires
        is_undirected(adj),
        forall|a: int, b: int| #[trigger] f(a, b) == weight(adj, adj[a], a, -1, b),
        0 <= u < adj.len(),
        j <= adj.len(),
    ensures
        col_sum(f, j, u) == weight_sum(adj, adj[u], u, 1, j),
    decreases j,
{
    if j > 0 {
        lemma_col_is_weight_sum(adj, f, u, j - 1);
        let v = j - 1;
        assert(f(v, u) == weight(adj, adj[v], v, -1, u));
        assert(count_to(adj[u], v) == count_to(adj[v], u));
    }
}

proof fn lemma_nearer_at_least<C>(adj: Seq<Seq<Edge<C>>>, i: int)
    requires
        is_undirected(adj),
        is_connected_spec(adj),
        1 <= i <= adj.len(),
    ensures
        total_sign(adj, -1, i) >= i - 1,
    decreases i,
{
    lemma_total_partition(adj, i - 1);
    lemma_count_sign_partition(adj, adj[i - 1], i - 1);
    if i > 1 {
        lemma_nearer_at_least(adj, i - 1);
        let k = lemma_parent(adj, i - 1);
        lemma_count_sign_positive(adj, adj[i - 1], i - 1, -1, k);
    }
}

proof fn lemma_nearer_lower<C>(adj: Seq<Seq<Edge<C>>>, x: int, i: int)
    requires
        is_undirected(adj),
        is_connected_spec(adj),
        0 <= x < i <= adj.len(),
    ensures
        total_sign(adj, -1, i) >= count_sign(adj, adj[x], x, -1) + (i - 1) - if x >= 1 {
            1int
        } else {
            0int
        },
    decreases i,
{
    lemma_total_partition(adj, i - 1);
    if x == i - 1 {
        if i > 1 {
            lemma_nearer_at_least(adj, i - 1);
        }
    } else {
        lemma_nearer_lower(adj, x, i - 1);
        let k = lemma_parent(adj, i - 1);
        lemma_count_sign_positive(adj, adj[i - 1], i - 1, -1, k);
    }
}

/// A connected undirected graph with `n` vertices, where `n > 0`, and `n - 1`
/// edges has no cycle: it is a tree.
pub proof fn lemma_connected_with_fewest_edges_is_tree<C>(adj: Seq<Seq<Edge<C>>>)
    requires
        is_undirected(adj),
        adj.len() > 0,
        is_connected_spec(adj),
        num_entries(adj, adj.len() as int) == 2 * (adj.len() - 1),
    ensures
        !has_cycle_spec(adj),
{
    let n = adj.len() as int;
    let f = |a: int, b: int| weight(adj, adj[a], a, -1, b);
    lemma_total_partition(adj, n);
    lemma_nearer_total(adj, f, n);
    lemma_farther_total(adj, f, n);
    lemma_sum_swap(f, n, n);
    lemma_nearer_at_least(adj, n);
    let when = Seq::new(n as nat, |v: int| dist(adj, v));
    assert forall|x: int| 0 <= x < n implies at_most_one_earlier(adj, when, x) by {
        lemma_nearer_lower(adj, x, n);
        lemma_term_le_total(adj, 0, x, n);
        lemma_count_sign_partition(adj, adj[x], x);
        assert forall|i: int, j: int| 0 <= i < j < adj[x].len() implies !(when[(
        #[trigger] adj[x][i]).to as int] <= when[x] && when[(#[trigger] adj[x][j]).to as int]
            <= when[x]) by {
            let a = adj[x][i].to as int;
            let b = adj[x][j].to as int;
            if dist(adj, a) <= dist(adj, x) && dist(adj, b) <= dist(adj, x) {
                if dist(adj, a) == dist(adj, x) {
                    lemma_count_sign_positive(adj, adj[x], x, 0, i);
                } else if dist(adj, b) == dist(adj, x) {
                    lemma_count_sign_positive(adj, adj[x], x, 0, j);
                } else {
                    lemma_count_sign_pair(adj, adj[x], x, -1, i, j);
                }
                assert(false);
            }
        }
    }
    lemma_ordered_no_cycle(adj, when);
}

} // verus!
