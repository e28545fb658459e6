//! What it means for an undirected graph to be connected and to have a cycle.
//!
//! An undirected graph is given by its adjacency lists: for every vertex the
//! list of the edges that leave it. Every edge between two different vertices
//! stands in the lists of both, and a loop stands twice in the list of its
//! vertex.

use crate::traits::math::graph::Edge;
use vstd::prelude::*;

verus! {

/// Whether every edge leads to a vertex of the graph.
pub open spec fn targets_in_range<C>(adj: Seq<Seq<Edge<C>>>) -> bool {
    forall|v: int, k: int|
        0 <= v < adj.len() && 0 <= k < adj[v].len() ==> (#[trigger] adj[v][k]).to < adj.len()
}

/// The number of edges of `list` that lead to `v`.
pub open spec fn count_to<C>(list: Seq<Edge<C>>, v: int) -> nat
    decreases list.len(),
{
    if list.len() == 0 {
        0
    } else {
        count_to(list.drop_last(), v) + if list.last().to == v {
            1nat
        } else {
            0nat
        }
    }
}

/// Whether the adjacency lists are those of an undirected graph: every edge
/// leads to a vertex of the graph, there are as many edges from `u` to `v` as
/// from `v` to `u`, and the edges from a vertex to itself come in pairs.
pub open spec fn is_undirected<C>(adj: Seq<Seq<Edge<C>>>) -> bool {
    &&& targets_in_range(adj)
    &&& forall|u: int, v: int|
        0 <= u < adj.len() && 0 <= v < adj.len() ==> #[trigger] count_to(adj[u], v) == count_to(
            adj[v],
            u,
        )
    &&& forall|v: int| 0 <= v < adj.len() ==> #[trigger] count_to(adj[v], v) % 2 == 0
}

/// Whether an edge leads from `u` to `v`.
pub open spec fn has_edge<C>(adj: Seq<Seq<Edge<C>>>, u: int, v: int) -> bool {
    exists|k: int| 0 <= k < adj[u].len() && (#[trigger] adj[u][k]).to == v
}

/// Whether `p` is a walk: a sequence of vertices, not empty, in which an edge
/// leads from each vertex to the next.
pub open spec fn is_walk<C>(adj: Seq<Seq<Edge<C>>>, p: Seq<int>) -> bool {
    &&& p.len() > 0
    &&& forall|i: int| 0 <= i < p.len() ==> 0 <= #[trigger] p[i] < adj.len()
    &&& forall|i: int| 0 <= i < p.len() - 1 ==> has_edge(adj, #[trigger] p[i], p[i + 1])
}

/// Whether a walk leads from `a` to `b`.
pub open spec fn reachable<C>(adj: Seq<Seq<Edge<C>>>, a: int, b: int) -> bool {
    exists|p: Seq<int>| #[trigger] is_walk(adj, p) && p.first() == a && p.last() == b
}

/// Whether the graph is connected: every vertex can be reached from the
/// vertex 0.
pub open spec fn is_connected_spec<C>(adj: Seq<Seq<Edge<C>>>) -> bool {
    forall|v: int| 0 <= v < adj.len() ==> #[trigger] reachable(adj, 0, v)
}

/// Whether the edges at the positions `i` and `j` of the list of `u` are two
/// edges to the same vertex: a loop, which stands twice in the list of its
/// vertex, or two parallel edges.
pub open spec fn is_doubled_edge<C>(adj: Seq<Seq<Edge<C>>>, u: int, i: int, j: int) -> bool {
    &&& 0 <= u < adj.len()
    &&& 0 <= i < j < adj[u].len()
    &&& adj[u][i].to == adj[u][j].to
}

/// Whether `c` is a simple cycle: a walk through at least three vertices, all
/// different, with an edge from the last of them back to the first.
pub open spec fn is_simple_cycle<C>(adj: Seq<Seq<Edge<C>>>, c: Seq<int>) -> bool {
    &&& c.len() >= 3
    &&& is_walk(adj, c)
    &&& has_edge(adj, c.last(), c.first())
    &&& forall|i: int, j: int| 0 <= i < j < c.len() ==> c[i] != c[j]
}

/// Whether the undirected graph has a cycle: a loop, two parallel edges, or a
/// simple cycle through three vertices or more.
pub open spec fn has_cycle_spec<C>(adj: Seq<Seq<Edge<C>>>) -> bool {
    ||| exists|u: int, i: int, j: int| #[trigger] is_doubled_edge(adj, u, i, j)
    ||| exists|c: Seq<int>| #[trigger] is_simple_cycle(adj, c)
}

/// Whether the undirected graph is a tree: connected and without a cycle.
pub open spec fn is_tree_spec<C>(adj: Seq<Seq<Edge<C>>>) -> bool {
    is_connected_spec(adj) && !has_cycle_spec(adj)
}

/// Whether all edges that leave `v` lead into the set `s`.
pub open spec fn closed_at<C>(adj: Seq<Seq<Edge<C>>>, s: Set<usize>, v: int) -> bool {
    forall|k: int| 0 <= k < adj[v].len() ==> s.contains((#[trigger] adj[v][k]).to)
}

/// Every vertex can be reached from itself.
pub proof fn lemma_reachable_self<C>(adj: Seq<Seq<Edge<C>>>, a: int)
    requires
        0 <= a < adj.len(),
    ensures
        reachable(adj, a, a),
{
    let p = seq![a];
    assert(is_walk(adj, p));
}

/// What can be reached from the end of an edge can be reached from its start.
pub proof fn lemma_reachable_step<C>(adj: Seq<Seq<Edge<C>>>, a: int, b: int, c: int)
    requires
        0 <= a < adj.len(),
        has_edge(adj, a, b),
        reachable(adj, b, c),
    ensures
        reachable(adj, a, c),
{
    let p = choose|p: Seq<int>| #[trigger] is_walk(adj, p) && p.first() == b && p.last() == c;
    let q = seq![a] + p;
    assert forall|i: int| 0 <= i < q.len() - 1 implies has_edge(adj, #[trigger] q[i], q[i + 1]) by {
        if i > 0 {
            assert(q[i] == p[i - 1]);
            assert(q[i + 1] == p[i]);
        } else {
            assert(q[1] == p[0]);
        }
    }
    assert forall|i: int| 0 <= i < q.len() implies 0 <= #[trigger] q[i] < adj.len() by {
        if i > 0 {
            assert(q[i] == p[i - 1]);
        }
    }
    assert(is_walk(adj, q));
    assert(q.last() == p.last());
}

/// A walk that starts in a set which no edge leaves stays in that set.
pub proof fn lemma_walk_stays<C>(adj: Seq<Seq<Edge<C>>>, s: Set<usize>, p: Seq<int>, i: int)
    requires
        is_walk(adj, p),
        forall|v: int| 0 <= v < adj.len() && s.contains(v as usize) ==> closed_at(adj, s, v),
        s.contains(p.first() as usize),
        0 <= i < p.len(),
        adj.len() <= usize::MAX,
    ensures
        s.contains(p[i] as usize),
    decreases i,
{
    if i > 0 {
        lemma_walk_stays(adj, s, p, i - 1);
        let u = p[i - 1];
        assert(has_edge(adj, u, p[i]));
        let k = choose|k: int| 0 <= k < adj[u].len() && (#[trigger] adj[u][k]).to == p[i];
        assert(closed_at(adj, s, u));
        assert(s.contains(adj[u][k].to));
    }
}

/// A finite set of numbers below `n` has at most `n` elements.
pub proof fn lemma_bounded_set_len(s: Set<usize>, n: nat)
    requires
        s.finite(),
        forall|x: usize| s.contains(x) ==> x < n,
    ensures
        s.len() <= n,
    decreases n,
{
    if n == 0 {
        assert(s =~= Set::<usize>::empty());
    } else {
        let last = (n - 1) as usize;
        if n - 1 <= usize::MAX {
            let rest = s.remove(last);
            lemma_bounded_set_len(rest, (n - 1) as nat);
            if s.contains(last) {
                assert(rest.insert(last) =~= s);
            } else {
                assert(rest =~= s);
            }
        } else {
            lemma_bounded_set_len(s, (n - 1) as nat);
        }
    }
}

/// A finite set of numbers below `n` that has `n` elements holds every number
/// below `n`.
pub proof fn lemma_full_set(s: Set<usize>, n: nat, v: usize)
    requires
        s.finite(),
        forall|x: usize| s.contains(x) ==> x < n,
        s.len() == n,
        v < n,
    ensures
        s.contains(v),
{
    if !s.contains(v) {
        lemma_bounded_set_len(s.insert(v), n);
    }
}

/// A finite set that holds exactly the numbers below `n` has `n` elements.
pub proof fn lemma_range_set_len(s: Set<usize>, n: nat)
    requires
        s.finite(),
        n <= usize::MAX + 1,
        forall|x: usize| s.contains(x) <==> x < n,
    ensures
        s.len() == n,
    decreases n,
{
    if n == 0 {
        assert(s =~= Set::<usize>::empty());
    } else {
        let last = (n - 1) as usize;
        let rest = s.remove(last);
        lemma_range_set_len(rest, (n - 1) as nat);
        assert(rest.insert(last) =~= s);
    }
}

/// A list with an edge to `v` counts at least one edge to `v`.
pub proof fn lemma_count_to_positive<C>(list: Seq<Edge<C>>, v: int, i: int)
    requires
        0 <= i < list.len(),
        list[i].to == v,
    ensures
        count_to(list, v) >= 1,
    decreases list.len(),
{
    if i < list.len() - 1 {
        assert(list.drop_last()[i] == list[i]);
        lemma_count_to_positive(list.drop_last(), v, i);
    }
}

/// A list with two edges to `v` counts at least two edges to `v`.
pub proof fn lemma_count_to_pair<C>(list: Seq<Edge<C>>, v: int, i: int, j: int)
    requires
        0 <= i < j < list.len(),
        list[i].to == v,
        list[j].to == v,
    ensures
        count_to(list, v) >= 2,
    decreases list.len(),
{
    assert(list.drop_last()[i] == list[i]);
    if j < list.len() - 1 {
        assert(list.drop_last()[j] == list[j]);
        lemma_count_to_pair(list.drop_last(), v, i, j);
    } else {
        lemma_count_to_positive(list.drop_last(), v, i);
    }
}

/// A list that counts an edge to `v` has one.
pub proof fn lemma_count_to_witness<C>(list: Seq<Edge<C>>, v: int) -> (k: int)
    requires
        count_to(list, v) >= 1,
    ensures
        0 <= k < list.len(),
        list[k].to == v,
    decreases list.len(),
{
    if list.last().to == v {
        list.len() - 1
    } else {
        let k = lemma_count_to_witness(list.drop_last(), v);
        assert(list.drop_last()[k] == list[k]);
        k
    }
}

/// A list that counts two edges to `v` has two.
pub proof fn lemma_count_to_witnesses<C>(list: Seq<Edge<C>>, v: int) -> (ij: (int, int))
    requires
        count_to(list, v) >= 2,
    ensures
        0 <= ij.0 < ij.1 < list.len(),
        list[ij.0].to == v,
        list[ij.1].to == v,
    decreases list.len(),
{
    if list.last().to == v {
        let i = lemma_count_to_witness(list.drop_last(), v);
        assert(list.drop_last()[i] == list[i]);
        (i, list.len() - 1)
    } else {
        let ij = lemma_count_to_witnesses(list.drop_last(), v);
        assert(list.drop_last()[ij.0] == list[ij.0]);
        assert(list.drop_last()[ij.1] == list[ij.1]);
        ij
    }
}

/// In an undirected graph an edge from `u` to `v` has a counterpart from `v`
/// to `u`.
pub proof fn lemma_has_edge_symmetric<C>(adj: Seq<Seq<Edge<C>>>, u: int, v: int)
    requires
        is_undirected(adj),
        0 <= u < adj.len(),
        has_edge(adj, u, v),
    ensures
        0 <= v < adj.len(),
        has_edge(adj, v, u),
{
    let k = choose|k: int| 0 <= k < adj[u].len() && (#[trigger] adj[u][k]).to == v;
    lemma_count_to_positive(adj[u], v, k);
    assert(count_to(adj[u], v) == count_to(adj[v], u));
    let back = lemma_count_to_witness(adj[v], u);
    assert(adj[v][back].to == u);
}

/// In an undirected graph a vertex with an edge to itself has two of them.
pub proof fn lemma_loop_is_doubled<C>(adj: Seq<Seq<Edge<C>>>, v: int, k: int)
    requires
        is_undirected(adj),
        0 <= v < adj.len(),
        0 <= k < adj[v].len(),
        adj[v][k].to == v,
    ensures
        has_cycle_spec(adj),
{
    lemma_count_to_positive(adj[v], v, k);
    assert(count_to(adj[v], v) % 2 == 0);
    let ij = lemma_count_to_witnesses(adj[v], v);
    assert(is_doubled_edge(adj, v, ij.0, ij.1));
}

/// Whether at most one edge of `v` leads to a vertex that `when` gives a time
/// not later than that of `v`.
pub open spec fn at_most_one_earlier<C>(adj: Seq<Seq<Edge<C>>>, when: Seq<int>, v: int) -> bool {
    forall|i: int, j: int|
        0 <= i < j < adj[v].len() ==> !(when[(#[trigger] adj[v][i]).to as int] <= when[v] && when[(
        #[trigger] adj[v][j]).to as int] <= when[v])
}

/// Whether `when` orders the vertices that it gives a time below `limit` in
/// the way of a forest: each of them has at most one edge to a vertex that is
/// not later than itself.
pub open spec fn is_forest_order<C>(adj: Seq<Seq<Edge<C>>>, when: Seq<int>, limit: int) -> bool {
    &&& when.len() == adj.len()
    &&& forall|v: int|
        0 <= v < adj.len() && #[trigger] when[v] < limit ==> at_most_one_earlier(adj, when, v)
}

/// Among the first `k` vertices of `c` there is one that no other is later
/// than.
pub proof fn lemma_latest(c: Seq<int>, when: Seq<int>, k: int) -> (m: int)
    requires
        0 < k <= c.len(),
    ensures
        0 <= m < k,
        forall|t: int| 0 <= t < k ==> when[#[trigger] c[t]] <= when[c[m]],
    decreases k,
{
    if k == 1 {
        0
    } else {
        let m = lemma_latest(c, when, k - 1);
        if when[c[k - 1]] > when[c[m]] {
            k - 1
        } else {
            m
        }
    }
}

/// An undirected graph has no cycle if every vertex has at most one edge to a
/// vertex that is not later than itself.
pub proof fn lemma_ordered_no_cycle<C>(adj: Seq<Seq<Edge<C>>>, when: Seq<int>)
    requires
        is_undirected(adj),
        adj.len() == when.len(),
        forall|v: int| 0 <= v < adj.len() ==> at_most_one_earlier(adj, when, v),
    ensures
        !has_cycle_spec(adj),
{
    if exists|u: int, i: int, j: int| #[trigger] is_doubled_edge(adj, u, i, j) {
        let (u, i, j) = choose|u: int, i: int, j: int| #[trigger] is_doubled_edge(adj, u, i, j);
        let t = adj[u][i].to as int;
        assert(adj[u][j].to == t);
        assert(at_most_one_earlier(adj, when, u));
        if when[t] > when[u] {
            lemma_count_to_pair(adj[u], t, i, j);
            assert(count_to(adj[u], t) == count_to(adj[t], u));
            let back = lemma_count_to_witnesses(adj[t], u);
            assert(at_most_one_earlier(adj, when, t));
            assert(adj[t][back.0].to == u);
            assert(adj[t][back.1].to == u);
        }
        assert(false);
    }
    if exists|c: Seq<int>| #[trigger] is_simple_cycle(adj, c) {
        let c = choose|c: Seq<int>| #[trigger] is_simple_cycle(adj, c);
        let k = c.len() as int;
        let m = lemma_latest(c, when, k);
        let x = c[m];
        let next = if m == k - 1 {
            0
        } else {
            m + 1
        };
        let prev = if m == 0 {
            k - 1
        } else {
            m - 1
        };
        assert(has_edge(adj, x, c[next]));
        assert(has_edge(adj, c[prev], x)) by {
            if m == 0 {
                assert(c[prev] == c.last());
            } else {
                assert(has_edge(adj, c[m - 1], c[m - 1 + 1]));
            }
        }
        lemma_has_edge_symmetric(adj, c[prev], x);
        let i = choose|i: int| 0 <= i < adj[x].len() && (#[trigger] adj[x][i]).to == c[next];
        let j = choose|j: int| 0 <= j < adj[x].len() && (#[trigger] adj[x][j]).to == c[prev];
        assert(c[next] != c[prev]);
        assert(at_most_one_earlier(adj, when, x));
        assert(when[c[next]] <= when[x]);
        assert(when[c[prev]] <= when[x]);
        if i < j {
            assert(adj[x][i].to == c[next] && adj[x][j].to == c[prev]);
        } else {
            assert(adj[x][j].to == c[prev] && adj[x][i].to == c[next]);
        }
        assert(false);
    }
}

/// An undirected graph whose vertices can all be ordered in the way of a
/// forest has no cycle.
pub proof fn lemma_forest_order_no_cycle<C>(adj: Seq<Seq<Edge<C>>>, when: Seq<int>, limit: int)
    requires
        is_undirected(adj),
        is_forest_order(adj, when, limit),
        forall|v: int| 0 <= v < adj.len() ==> #[trigger] when[v] < limit,
    ensures
        !has_cycle_spec(adj),
{
    assert forall|v: int| 0 <= v < adj.len() implies at_most_one_earlier(adj, when, v) by {
        assert(when[v] < limit);
    }
    lemma_ordered_no_cycle(adj, when);
}

/// Whether `stack` is a path of different vertices that an edge prolongs to
/// `current`.
pub open spec fn is_path_to<C>(adj: Seq<Seq<Edge<C>>>, stack: Seq<usize>, current: int) -> bool {
    &&& forall|t: int| 0 <= t < stack.len() ==> (#[trigger] stack[t]) < adj.len()
    &&& forall|t: int, u: int| 0 <= t < u < stack.len() ==> stack[t] != stack[u]
    &&& forall|t: int| 0 <= t < stack.len() ==> #[trigger] stack[t] != current
    &&& forall|t: int|
        0 <= t < stack.len() - 1 ==> has_edge(adj, (#[trigger] stack[t]) as int, stack[t + 1] as int)
    &&& stack.len() > 0 ==> has_edge(adj, stack.last() as int, current)
}

/// A path to `current` closes to a simple cycle with an edge from `current`
/// back to a vertex of the path that is not the last one.
pub proof fn lemma_path_closes<C>(adj: Seq<Seq<Edge<C>>>, stack: Seq<usize>, current: int, k: int)
    requires
        0 <= current < adj.len(),
        is_path_to(adj, stack, current),
        0 <= k < stack.len() - 1,
        has_edge(adj, current, stack[k] as int),
    ensures
        has_cycle_spec(adj),
{
    let len = stack.len() - k + 1;
    let c = Seq::new(len as nat, |t: int| if t < len - 1 { stack[k + t] as int } else { current });
    assert forall|t: int| 0 <= t < c.len() implies 0 <= #[trigger] c[t] < adj.len() by {
        if t < len - 1 {
            assert(stack[k + t] < adj.len());
        }
    }
    assert forall|t: int| 0 <= t < c.len() - 1 implies has_edge(adj, #[trigger] c[t], c[t + 1]) by {
        assert(c[t] == stack[k + t] as int);
        if t < len - 2 {
            assert(c[t + 1] == stack[k + t + 1] as int);
            assert(has_edge(adj, stack[k + t] as int, stack[k + t + 1] as int));
        } else {
            assert(c[t + 1] == current);
            assert(stack[k + t] == stack.last());
        }
    }
    assert forall|i: int, j: int| 0 <= i < j < c.len() implies c[i] != c[j] by {
        assert(c[i] == stack[k + i] as int);
        if j < len - 1 {
            assert(c[j] == stack[k + j] as int);
            assert(stack[k + i] != stack[k + j]);
        } else {
            assert(c[j] == current);
            assert(stack[k + i] != current);
        }
    }
    assert(c.last() == current);
    assert(c.first() == stack[k] as int);
    assert(is_walk(adj, c));
    assert(is_simple_cycle(adj, c));
}

/// An edge added at the end of a list counts once more for its target, and
/// not for any other vertex.
pub proof fn lemma_count_to_push<C>(list: Seq<Edge<C>>, e: Edge<C>, v: int)
    ensures
        count_to(list.push(e), v) == count_to(list, v) + if e.to == v {
            1nat
        } else {
            0nat
        },
{
    assert(list.push(e).drop_last() == list);
}

/// A list from which the edges to `to` have been taken counts none to `to`,
/// and as many as before to any other vertex.
pub proof fn lemma_count_to_filter<C>(list: Seq<Edge<C>>, to: usize, v: int)
    ensures
        count_to(list.filter(|e: Edge<C>| e.to != to), v) == if v == to {
            0
        } else {
            count_to(list, v)
        },
    decreases list.len(),
{
    reveal(Seq::filter);
    let keep = |e: Edge<C>| e.to != to;
    if list.len() > 0 {
        lemma_count_to_filter(list.drop_last(), to, v);
        if keep(list.last()) {
            lemma_count_to_push(list.drop_last().filter(keep), list.last(), v);
        }
    }
}

/// The graph without edges is undirected.
pub proof fn lemma_empty_is_undirected<C>(n: nat)
    ensures
        is_undirected(Seq::new(n, |v: int| Seq::<Edge<C>>::empty())),
{
    let adj = Seq::new(n, |v: int| Seq::<Edge<C>>::empty());
    assert forall|u: int, v: int| 0 <= u < adj.len() && 0 <= v < adj.len() implies #[trigger] count_to(
        adj[u],
        v,
    ) == count_to(adj[v], u) by {
        assert(adj[u].len() == 0);
        assert(adj[v].len() == 0);
    }
    assert forall|v: int| 0 <= v < adj.len() implies #[trigger] count_to(adj[v], v) % 2 == 0 by {
        assert(adj[v].len() == 0);
    }
}

} // verus!
