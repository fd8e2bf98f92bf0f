//! Trees given as edge lists, and the path metric of a tree: two breadth-first
//! sweeps over any tree find its exact diameter.

use vstd::prelude::*;
use crate::graph::{
    adjacency_of, edges_within, has_edge, is_diameter, is_distance, is_farthest,
    is_farthest_node, joins, lemma_adjacency_of_edges, lemma_adjacency_of_well_formed,
    lemma_distance_at_most, lemma_reachable_extend, lemma_reachable_monotone,
    lemma_reachable_predecessor, lemma_reachable_prepend, lemma_reachable_self, reach_set,
    reachable_in,
};

verus! {

/// `v` can be reached from `s` along edges of `adj`.
pub open spec fn connected_from(adj: Seq<Seq<usize>>, s: usize, v: usize) -> bool {
    exists|k: nat| #[trigger] reachable_in(adj, s, v, k)
}

/// An edge list over `n` nodes that forms a tree: `n - 1` edges between nodes
/// below `n` that connect every node to node 0.
pub open spec fn is_tree(n: nat, edges: Seq<(usize, usize)>) -> bool {
    &&& 1 <= n <= usize::MAX
    &&& edges.len() + 1 == n
    &&& edges_within(n, edges)
    &&& forall|v: usize| v < n ==> #[trigger] connected_from(adjacency_of(n, edges), 0, v)
}

/// An edge list over `n` nodes grown one node at a time: edge `i` attaches the
/// new node `i + 1` to an earlier node.
pub open spec fn is_grown_tree(n: nat, edges: Seq<(usize, usize)>) -> bool {
    &&& n == edges.len() + 1
    &&& forall|i: int|
        0 <= i < edges.len() ==> (#[trigger] edges[i]).1 == i + 1 && edges[i].0 <= i
}

/// Number of edges from node 0 to `v`.
spec fn depth(adj: Seq<Seq<usize>>, v: usize) -> nat {
    choose|d: nat| is_distance(adj, 0, v, d)
}

/// The neighbour of `v` one edge closer to node 0.
spec fn tree_parent(adj: Seq<Seq<usize>>, v: usize) -> usize {
    choose|w: usize| has_edge(adj, w, v) && is_distance(adj, 0, w, (depth(adj, v) - 1) as nat)
}

/// Number of edges on the tree path between `u` and `v`: the path leaves the
/// deeper of two distinct nodes towards its parent.
spec fn tree_distance(adj: Seq<Seq<usize>>, u: usize, v: usize) -> nat
    decreases depth(adj, u) + depth(adj, v),
{
    if u == v {
        0
    } else if depth(adj, u) >= depth(adj, v) {
        let p = tree_parent(adj, u);
        if depth(adj, p) < depth(adj, u) {
            1 + tree_distance(adj, p, v)
        } else {
            0
        }
    } else {
        let p = tree_parent(adj, v);
        if depth(adj, p) < depth(adj, v) {
            1 + tree_distance(adj, u, p)
        } else {
            0
        }
    }
}

/// A node reachable within `k` edges has an exact distance.
proof fn lemma_distance_exists(adj: Seq<Seq<usize>>, s: usize, t: usize, k: nat)
    requires
        reachable_in(adj, s, t, k),
    ensures
        exists|d: nat| is_distance(adj, s, t, d),
    decreases k,
{
    if k == 0 || !reachable_in(adj, s, t, (k - 1) as nat) {
        assert(is_distance(adj, s, t, k));
    } else {
        lemma_distance_exists(adj, s, t, (k - 1) as nat);
    }
}

proof fn lemma_distance_unique(adj: Seq<Seq<usize>>, s: usize, t: usize, d1: nat, d2: nat)
    requires
        is_distance(adj, s, t, d1),
        is_distance(adj, s, t, d2),
    ensures
        d1 == d2,
{
    lemma_distance_at_most(adj, s, t, d1, d2);
    lemma_distance_at_most(adj, s, t, d2, d1);
}

proof fn lemma_depth(n: nat, edges: Seq<(usize, usize)>, v: usize)
    requires
        is_tree(n, edges),
        v < n,
    ensures
        is_distance(adjacency_of(n, edges), 0, v, depth(adjacency_of(n, edges), v)),
        depth(adjacency_of(n, edges), v) == 0 <==> v == 0,
{
    let adj = adjacency_of(n, edges);
    assert(connected_from(adj, 0, v));
    let k: nat = choose|k: nat| #[trigger] reachable_in(adj, 0, v, k);
    lemma_distance_exists(adj, 0, v, k);
    let d = depth(adj, v);
    if d == 0 {
        assert(reach_set(adj, 0, 0) == set![0usize]);
    }
    if v == 0 && d > 0 {
        lemma_reachable_self(adj, 0);
        lemma_reachable_monotone(adj, 0, 0, 0, (d - 1) as nat);
    }
}

/// Every node but 0 has a parent one edge closer to 0, joined to it both ways.
proof fn lemma_parent(n: nat, edges: Seq<(usize, usize)>, v: usize)
    requires
        is_tree(n, edges),
        0 < v < n,
    ensures
        tree_parent(adjacency_of(n, edges), v) < n,
        has_edge(adjacency_of(n, edges), tree_parent(adjacency_of(n, edges), v), v),
        has_edge(adjacency_of(n, edges), v, tree_parent(adjacency_of(n, edges), v)),
        depth(adjacency_of(n, edges), tree_parent(adjacency_of(n, edges), v)) + 1 == depth(
            adjacency_of(n, edges),
            v,
        ),
{
    let adj = adjacency_of(n, edges);
    lemma_adjacency_of_well_formed(n, edges);
    lemma_depth(n, edges, v);
    let d = depth(adj, v);
    lemma_reachable_predecessor(adj, 0, v, d);
    let w: usize = choose|w: usize|
        #[trigger] reachable_in(adj, 0, w, (d - 1) as nat) && has_edge(adj, w, v);
    if d - 1 > 0 && reachable_in(adj, 0, w, (d - 2) as nat) {
        lemma_reachable_extend(adj, 0, w, v, (d - 2) as nat);
    }
    assert(has_edge(adj, w, v) && is_distance(adj, 0, w, (d - 1) as nat));
    let p = tree_parent(adj, v);
    lemma_depth(n, edges, p);
    lemma_distance_unique(adj, 0, p, (d - 1) as nat, depth(adj, p));
    lemma_adjacency_of_edges(n, edges, p, v);
    let i: int = choose|i: int|
        0 <= i < edges.len() && (#[trigger] edges[i] == (p, v) || edges[i] == (v, p));
    assert(joins(edges, v, p));
    lemma_adjacency_of_edges(n, edges, v, p);
}

/// Counting: the `n - 1` links between a node and its parent are distinct edges
/// of the list, and the list has `n - 1` edges, so every edge is such a link.
proof fn lemma_every_edge_is_a_parent_link(n: nat, edges: Seq<(usize, usize)>, i: int)
    requires
        is_tree(n, edges),
        0 <= i < edges.len(),
    ensures
        exists|v: usize|
            0 < v < n && (edges[i] == (tree_parent(adjacency_of(n, edges), v), v) || edges[i] == (
                v,
                tree_parent(adjacency_of(n, edges), v),
            )),
{
    let adj = adjacency_of(n, edges);
    let link = |v: int|
        choose|j: int|
            0 <= j < edges.len() && (edges[j] == (tree_parent(adj, v as usize), v as usize)
                || edges[j] == (v as usize, tree_parent(adj, v as usize)));
    let nodes = vstd::set_lib::set_int_range(1, n as int);
    assert forall|v: int| #[trigger] nodes.contains(v) implies 0 <= link(v) < edges.len() && (
    edges[link(v)] == (tree_parent(adj, v as usize), v as usize) || edges[link(v)] == (
        v as usize,
        tree_parent(adj, v as usize),
    )) by {
        lemma_parent(n, edges, v as usize);
        lemma_adjacency_of_edges(n, edges, tree_parent(adj, v as usize), v as usize);
        let j: int = choose|j: int|
            0 <= j < edges.len() && (#[trigger] edges[j] == (tree_parent(adj, v as usize), v as usize)
                || edges[j] == (v as usize, tree_parent(adj, v as usize)));
    }
    assert(vstd::relations::injective_on(link, nodes)) by {
        assert forall|v: int, w: int|
            nodes.contains(v) && nodes.contains(w) && #[trigger] link(v) == #[trigger] link(w)
                implies v == w by {
            lemma_parent(n, edges, v as usize);
            lemma_parent(n, edges, w as usize);
        }
    }
    let links = nodes.map(link);
    vstd::set_lib::lemma_int_range(1, n as int);
    vstd::set_lib::lemma_map_size(nodes, links, link);
    let indices = vstd::set_lib::set_int_range(0, edges.len() as int);
    vstd::set_lib::lemma_int_range(0, edges.len() as int);
    assert(links.subset_of(indices)) by {
        assert forall|j: int| links.contains(j) implies indices.contains(j) by {
            let v: int = choose|v: int| nodes.contains(v) && link(v) == j;
        }
    }
    vstd::set_lib::lemma_subset_equality(links, indices);
    assert(indices.contains(i));
    assert(links.contains(i));
    let v: int = choose|v: int| nodes.contains(v) && link(v) == i;
    assert(0 < v as usize && (v as usize) < n);
}

/// Every graph edge of a tree links a node with its parent.
proof fn lemma_tree_edge(n: nat, edges: Seq<(usize, usize)>, a: usize, b: usize)
    requires
        is_tree(n, edges),
        a < n,
        has_edge(adjacency_of(n, edges), a, b),
    ensures
        b < n,
        (b != 0 && a == tree_parent(adjacency_of(n, edges), b)) || (a != 0 && b == tree_parent(
            adjacency_of(n, edges),
            a,
        )),
{
    let adj = adjacency_of(n, edges);
    lemma_adjacency_of_well_formed(n, edges);
    lemma_adjacency_of_edges(n, edges, a, b);
    let i: int = choose|i: int|
        0 <= i < edges.len() && (#[trigger] edges[i] == (a, b) || edges[i] == (b, a));
    lemma_every_edge_is_a_parent_link(n, edges, i);
    let v: usize = choose|v: usize|
        0 < v < n && (edges[i] == (tree_parent(adj, v), v) || edges[i] == (v, tree_parent(adj, v)));
    lemma_parent(n, edges, v);
}

/// Unfolding the tree distance at the deeper end, whichever end that is.
proof fn lemma_tree_distance_unfold(n: nat, edges: Seq<(usize, usize)>, u: usize, v: usize)
    requires
        is_tree(n, edges),
        u < n,
        v < n,
        u != v,
    ensures
        depth(adjacency_of(n, edges), u) >= depth(adjacency_of(n, edges), v) ==> u != 0
            && tree_distance(adjacency_of(n, edges), u, v) == 1 + tree_distance(
            adjacency_of(n, edges),
            tree_parent(adjacency_of(n, edges), u),
            v,
        ),
        depth(adjacency_of(n, edges), v) >= depth(adjacency_of(n, edges), u) ==> v != 0
            && tree_distance(adjacency_of(n, edges), u, v) == 1 + tree_distance(
            adjacency_of(n, edges),
            u,
            tree_parent(adjacency_of(n, edges), v),
        ),
{
    let adj = adjacency_of(n, edges);
    lemma_depth(n, edges, u);
    lemma_depth(n, edges, v);
    if u != 0 {
        lemma_parent(n, edges, u);
    }
    if v != 0 {
        lemma_parent(n, edges, v);
    }
    if depth(adj, u) == depth(adj, v) {
        let pu = tree_parent(adj, u);
        let pv = tree_parent(adj, v);
        assert(tree_distance(adj, pu, v) == 1 + tree_distance(adj, pu, pv));
        assert(tree_distance(adj, u, pv) == 1 + tree_distance(adj, pu, pv));
    }
}

proof fn lemma_tree_distance_symmetric(n: nat, edges: Seq<(usize, usize)>, u: usize, v: usize)
    requires
        is_tree(n, edges),
        u < n,
        v < n,
    ensures
        tree_distance(adjacency_of(n, edges), u, v) == tree_distance(adjacency_of(n, edges), v, u),
    decreases depth(adjacency_of(n, edges), u) + depth(adjacency_of(n, edges), v),
{
    let adj = adjacency_of(n, edges);
    if u != v {
        lemma_tree_distance_unfold(n, edges, u, v);
        lemma_tree_distance_unfold(n, edges, v, u);
        if depth(adj, u) >= depth(adj, v) {
            lemma_parent(n, edges, u);
            lemma_tree_distance_symmetric(n, edges, tree_parent(adj, u), v);
        } else {
            lemma_parent(n, edges, v);
            lemma_tree_distance_symmetric(n, edges, u, tree_parent(adj, v));
        }
    }
}

/// Moving one end of a path along a tree edge changes its length by one.
proof fn lemma_tree_distance_edge(n: nat, edges: Seq<(usize, usize)>, u: usize, x: usize)
    requires
        is_tree(n, edges),
        u < n,
        0 < x < n,
    ensures
        tree_distance(adjacency_of(n, edges), u, x) == tree_distance(
            adjacency_of(n, edges),
            u,
            tree_parent(adjacency_of(n, edges), x),
        ) + 1 || tree_distance(adjacency_of(n, edges), u, x) + 1 == tree_distance(
            adjacency_of(n, edges),
            u,
            tree_parent(adjacency_of(n, edges), x),
        ),
    decreases depth(adjacency_of(n, edges), u) + depth(adjacency_of(n, edges), x),
{
    let adj = adjacency_of(n, edges);
    lemma_parent(n, edges, x);
    let px = tree_parent(adj, x);
    if u == x {
        lemma_tree_distance_unfold(n, edges, x, px);
    } else if u == px {
        lemma_tree_distance_unfold(n, edges, px, x);
    } else if depth(adj, u) >= depth(adj, x) {
        lemma_tree_distance_unfold(n, edges, u, x);
        lemma_tree_distance_unfold(n, edges, u, px);
        lemma_parent(n, edges, u);
        lemma_tree_distance_edge(n, edges, tree_parent(adj, u), x);
    } else {
        lemma_tree_distance_unfold(n, edges, u, x);
    }
}

proof fn lemma_tree_distance_triangle(
    n: nat,
    edges: Seq<(usize, usize)>,
    u: usize,
    v: usize,
    w: usize,
)
    requires
        is_tree(n, edges),
        u < n,
        v < n,
        w < n,
    ensures
        tree_distance(adjacency_of(n, edges), u, w) <= tree_distance(adjacency_of(n, edges), u, v)
            + tree_distance(adjacency_of(n, edges), v, w),
    decreases depth(adjacency_of(n, edges), u) + depth(adjacency_of(n, edges), v) + depth(
        adjacency_of(n, edges),
        w,
    ),
{
    let adj = adjacency_of(n, edges);
    if u == w || u == v || v == w {
    } else if depth(adj, u) >= depth(adj, v) && depth(adj, u) >= depth(adj, w) {
        lemma_tree_distance_unfold(n, edges, u, w);
        lemma_tree_distance_unfold(n, edges, u, v);
        lemma_parent(n, edges, u);
        lemma_tree_distance_triangle(n, edges, tree_parent(adj, u), v, w);
    } else if depth(adj, w) >= depth(adj, u) && depth(adj, w) >= depth(adj, v) {
        lemma_tree_distance_unfold(n, edges, u, w);
        lemma_tree_distance_unfold(n, edges, v, w);
        lemma_parent(n, edges, w);
        lemma_tree_distance_triangle(n, edges, u, v, tree_parent(adj, w));
    } else {
        lemma_tree_distance_unfold(n, edges, u, v);
        lemma_tree_distance_unfold(n, edges, v, w);
        lemma_parent(n, edges, v);
        lemma_tree_distance_triangle(n, edges, u, tree_parent(adj, v), w);
    }
}

/// The four-point condition of tree metrics: of the three ways to pair four
/// nodes, the first pairing is never longer than both others.
proof fn lemma_tree_distance_four_point(
    n: nat,
    edges: Seq<(usize, usize)>,
    x: usize,
    y: usize,
    z: usize,
    w: usize,
)
    requires
        is_tree(n, edges),
        x < n,
        y < n,
        z < n,
        w < n,
    ensures
        ({
            let adj = adjacency_of(n, edges);
            tree_distance(adj, x, y) + tree_distance(adj, z, w) <= tree_distance(adj, x, z)
                + tree_distance(adj, y, w) || tree_distance(adj, x, y) + tree_distance(adj, z, w)
                <= tree_distance(adj, x, w) + tree_distance(adj, y, z)
        }),
    decreases depth(adjacency_of(n, edges), x) + depth(adjacency_of(n, edges), y) + depth(
        adjacency_of(n, edges),
        z,
    ) + depth(adjacency_of(n, edges), w),
{
    let adj = adjacency_of(n, edges);
    let dx = depth(adj, x);
    let dy = depth(adj, y);
    let dz = depth(adj, z);
    let dw = depth(adj, w);
    if x == y {
        lemma_tree_distance_triangle(n, edges, z, x, w);
        lemma_tree_distance_symmetric(n, edges, z, x);
    } else if z == w {
        lemma_tree_distance_triangle(n, edges, x, z, y);
        lemma_tree_distance_symmetric(n, edges, z, y);
    } else if x == z || y == w {
        lemma_tree_distance_symmetric(n, edges, x, y);
        lemma_tree_distance_symmetric(n, edges, z, w);
        lemma_tree_distance_symmetric(n, edges, y, z);
    } else if x == w || y == z {
        lemma_tree_distance_symmetric(n, edges, x, y);
        lemma_tree_distance_symmetric(n, edges, z, w);
        lemma_tree_distance_symmetric(n, edges, x, z);
    } else if dx >= dy && dx >= dz && dx >= dw {
        lemma_tree_distance_unfold(n, edges, x, y);
        lemma_tree_distance_unfold(n, edges, x, z);
        lemma_tree_distance_unfold(n, edges, x, w);
        lemma_parent(n, edges, x);
        lemma_tree_distance_four_point(n, edges, tree_parent(adj, x), y, z, w);
    } else if dy >= dx && dy >= dz && dy >= dw {
        lemma_tree_distance_unfold(n, edges, x, y);
        lemma_tree_distance_unfold(n, edges, y, w);
        lemma_tree_distance_unfold(n, edges, y, z);
        lemma_parent(n, edges, y);
        lemma_tree_distance_four_point(n, edges, x, tree_parent(adj, y), z, w);
    } else if dz >= dx && dz >= dy && dz >= dw {
        lemma_tree_distance_unfold(n, edges, z, w);
        lemma_tree_distance_unfold(n, edges, x, z);
        lemma_tree_distance_unfold(n, edges, y, z);
        lemma_parent(n, edges, z);
        lemma_tree_distance_four_point(n, edges, x, y, tree_parent(adj, z), w);
    } else {
        lemma_tree_distance_unfold(n, edges, z, w);
        lemma_tree_distance_unfold(n, edges, y, w);
        lemma_tree_distance_unfold(n, edges, x, w);
        lemma_parent(n, edges, w);
        lemma_tree_distance_four_point(n, edges, x, y, z, tree_parent(adj, w));
    }
}

/// A node reachable within `k` edges lies within tree distance `k`.
proof fn lemma_reachable_within_tree_distance(
    n: nat,
    edges: Seq<(usize, usize)>,
    s: usize,
    t: usize,
    k: nat,
)
    requires
        is_tree(n, edges),
        s < n,
        reachable_in(adjacency_of(n, edges), s, t, k),
    ensures
        t < n,
        tree_distance(adjacency_of(n, edges), s, t) <= k,
    decreases k,
{
    let adj = adjacency_of(n, edges);
    if t != s {
        lemma_reachable_predecessor(adj, s, t, k);
        let w: usize = choose|w: usize|
            #[trigger] reachable_in(adj, s, w, (k - 1) as nat) && has_edge(adj, w, t);
        lemma_reachable_within_tree_distance(n, edges, s, w, (k - 1) as nat);
        lemma_tree_edge(n, edges, w, t);
        if t != 0 && w == tree_parent(adj, t) {
            lemma_tree_distance_edge(n, edges, s, t);
        } else {
            lemma_tree_distance_edge(n, edges, s, w);
        }
    }
}

/// The tree path realises the tree distance in the graph.
proof fn lemma_tree_distance_reachable(n: nat, edges: Seq<(usize, usize)>, s: usize, t: usize)
    requires
        is_tree(n, edges),
        s < n,
        t < n,
    ensures
        reachable_in(adjacency_of(n, edges), s, t, tree_distance(adjacency_of(n, edges), s, t)),
    decreases depth(adjacency_of(n, edges), s) + depth(adjacency_of(n, edges), t),
{
    let adj = adjacency_of(n, edges);
    if s == t {
        lemma_reachable_self(adj, s);
    } else if depth(adj, s) >= depth(adj, t) {
        lemma_tree_distance_unfold(n, edges, s, t);
        lemma_parent(n, edges, s);
        let ps = tree_parent(adj, s);
        lemma_tree_distance_reachable(n, edges, ps, t);
        lemma_reachable_prepend(adj, s, ps, t, tree_distance(adj, ps, t));
    } else {
        lemma_tree_distance_unfold(n, edges, s, t);
        lemma_parent(n, edges, t);
        let pt = tree_parent(adj, t);
        lemma_tree_distance_reachable(n, edges, s, pt);
        lemma_reachable_extend(adj, s, pt, t, tree_distance(adj, s, pt));
    }
}

/// In a tree, graph distance and tree distance agree.
proof fn lemma_tree_distance_exact(n: nat, edges: Seq<(usize, usize)>, s: usize, t: usize, d: nat)
    requires
        is_tree(n, edges),
        s < n,
        is_distance(adjacency_of(n, edges), s, t, d),
    ensures
        t < n,
        d == tree_distance(adjacency_of(n, edges), s, t),
{
    let adj = adjacency_of(n, edges);
    lemma_reachable_within_tree_distance(n, edges, s, t, d);
    let td: nat = tree_distance(adj, s, t);
    if td < d {
        lemma_tree_distance_reachable(n, edges, s, t);
        lemma_reachable_monotone(adj, s, t, td, (d - 1) as nat);
    }
}

/// In a tree, the node that a breadth-first search from node 0 finds farthest,
/// and the node farthest from that one, span the tree's exact diameter: no two
/// nodes are farther apart than they are.
pub proof fn lemma_two_sweeps_span_diameter(
    n: nat,
    edges: Seq<(usize, usize)>,
    start: usize,
    end: usize,
    d: nat,
)
    requires
        is_tree(n, edges),
        is_farthest_node(adjacency_of(n, edges), 0, start),
        is_farthest(adjacency_of(n, edges), start, end, d),
    ensures
        is_diameter(adjacency_of(n, edges), start, end, d),
{
    let adj = adjacency_of(n, edges);
    lemma_adjacency_of_well_formed(n, edges);
    let d0 = choose|d0: nat| is_farthest(adj, 0, start, d0);
    lemma_tree_distance_exact(n, edges, 0, start, d0);
    lemma_tree_distance_exact(n, edges, start, end, d);
    assert forall|u: usize, v: usize| u < adj.len() && v < adj.len() implies #[trigger] reachable_in(
        adj,
        u,
        v,
        d,
    ) by {
        lemma_tree_distance_reachable(n, edges, 0, u);
        assert(reachable_in(adj, 0, u, d0));
        lemma_reachable_within_tree_distance(n, edges, 0, u, d0);
        lemma_tree_distance_reachable(n, edges, 0, v);
        assert(reachable_in(adj, 0, v, d0));
        lemma_reachable_within_tree_distance(n, edges, 0, v, d0);
        lemma_tree_distance_reachable(n, edges, start, u);
        assert(reachable_in(adj, start, u, d));
        lemma_reachable_within_tree_distance(n, edges, start, u, d);
        lemma_tree_distance_reachable(n, edges, start, v);
        assert(reachable_in(adj, start, v, d));
        lemma_reachable_within_tree_distance(n, edges, start, v, d);
        lemma_tree_distance_four_point(n, edges, u, v, 0, start);
        lemma_tree_distance_symmetric(n, edges, u, 0);
        lemma_tree_distance_symmetric(n, edges, v, 0);
        lemma_tree_distance_symmetric(n, edges, u, start);
        lemma_tree_distance_symmetric(n, edges, v, start);
        lemma_tree_distance_reachable(n, edges, u, v);
        lemma_reachable_monotone(adj, u, v, tree_distance(adj, u, v), d);
    }
}

/// A grown tree names only nodes below `n` in its edges.
pub proof fn lemma_grown_tree_edges_within(n: nat, edges: Seq<(usize, usize)>)
    requires
        is_grown_tree(n, edges),
    ensures
        edges_within(n, edges),
{
    assert forall|i: int| 0 <= i < edges.len() implies (#[trigger] edges[i]).0 < n && edges[i].1
        < n by {
        assert(edges[i].1 == i + 1 && edges[i].0 <= i);
    }
}

proof fn lemma_grown_tree_reaches(n: nat, edges: Seq<(usize, usize)>, v: usize)
    requires
        is_grown_tree(n, edges),
        v < n,
    ensures
        reachable_in(adjacency_of(n, edges), 0, v, v as nat),
    decreases v,
{
    let adj = adjacency_of(n, edges);
    if v == 0 {
        lemma_reachable_self(adj, 0);
    } else {
        lemma_grown_tree_edges_within(n, edges);
        let i: int = v - 1;
        assert(edges[i].1 == i + 1 && edges[i].0 <= i);
        let p: usize = edges[i].0;
        lemma_grown_tree_reaches(n, edges, p);
        assert(joins(edges, p, v));
        lemma_adjacency_of_edges(n, edges, p, v);
        lemma_reachable_extend(adj, 0, p, v, p as nat);
        lemma_reachable_monotone(adj, 0, v, (p + 1) as nat, v as nat);
    }
}

/// A tree grown one node at a time is a tree.
pub proof fn lemma_grown_tree_is_tree(n: nat, edges: Seq<(usize, usize)>)
    requires
        is_grown_tree(n, edges),
        n <= usize::MAX,
    ensures
        is_tree(n, edges),
{
    lemma_grown_tree_edges_within(n, edges);
    assert forall|v: usize| v < n implies #[trigger] connected_from(adjacency_of(n, edges), 0, v) by {
        lemma_grown_tree_reaches(n, edges, v);
    }
}

} // verus!
