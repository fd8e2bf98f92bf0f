//! Breadth-first search over an adjacency list: the farthest node from an
//! origin, and the two-sweep diameter of an edge list.

use std::collections::VecDeque;
use vstd::prelude::*;
use crate::tree::{is_tree, lemma_two_sweeps_span_diameter};

verus! {

/// The neighbour lists of an adjacency structure, as mathematical sequences.
pub open spec fn rows(adjacency: Seq<Vec<usize>>) -> Seq<Seq<usize>> {
    adjacency.map_values(|row: Vec<usize>| row@)
}

/// Every neighbour named in `adj` is itself a node of `adj`.
pub open spec fn well_formed(adj: Seq<Seq<usize>>) -> bool {
    forall|u: int, j: int| 0 <= u < adj.len() && 0 <= j < adj[u].len() ==> #[trigger] adj[u][j] < adj.len()
}

/// `adj` lists `v` among the neighbours of `u`.
pub open spec fn has_edge(adj: Seq<Seq<usize>>, u: usize, v: usize) -> bool {
    u < adj.len() && adj[u as int].contains(v)
}

/// The nodes that can be reached from `s` by following at most `k` edges of `adj`.
pub open spec fn reach_set(adj: Seq<Seq<usize>>, s: usize, k: nat) -> Set<usize>
    decreases k,
{
    if k == 0 {
        set![s]
    } else {
        let prev = reach_set(adj, s, (k - 1) as nat);
        Set::new(
            |t: usize|
                prev.contains(t) || exists|w: usize| #[trigger] prev.contains(w) && has_edge(adj, w, t),
        )
    }
}

/// `t` can be reached from `s` by following at most `k` edges of `adj`.
pub open spec fn reachable_in(adj: Seq<Seq<usize>>, s: usize, t: usize, k: nat) -> bool {
    reach_set(adj, s, k).contains(t)
}

/// The shortest path from `s` to `t` in `adj` has exactly `d` edges.
pub open spec fn is_distance(adj: Seq<Seq<usize>>, s: usize, t: usize, d: nat) -> bool {
    &&& reachable_in(adj, s, t, d)
    &&& d > 0 ==> !reachable_in(adj, s, t, (d - 1) as nat)
}

/// `far` is at shortest distance `d` from `origin`, no node reachable from
/// `origin` lies farther, and every reachable node with a larger index than
/// `far` lies strictly closer: among the farthest nodes, `far` is the last.
pub open spec fn is_farthest(adj: Seq<Seq<usize>>, origin: usize, far: usize, d: nat) -> bool {
    &&& far < adj.len()
    &&& is_distance(adj, origin, far, d)
    &&& forall|v: usize, k: nat|
        v < adj.len() && #[trigger] reachable_in(adj, origin, v, k) ==> reachable_in(
            adj,
            origin,
            v,
            d,
        )
    &&& forall|v: usize, k: nat|
        far < v < adj.len() && #[trigger] reachable_in(adj, origin, v, k) ==> d > 0
            && reachable_in(adj, origin, v, (d - 1) as nat)
}

/// `far` is the node that a breadth-first search from `origin` reports as farthest.
pub open spec fn is_farthest_node(adj: Seq<Seq<usize>>, origin: usize, far: usize) -> bool {
    exists|d: nat| is_farthest(adj, origin, far, d)
}

/// A path of at most `k` edges is also a path of at most `k + 1` edges.
pub proof fn lemma_reachable_step(adj: Seq<Seq<usize>>, s: usize, t: usize, k: nat)
    requires
        reachable_in(adj, s, t, k),
    ensures
        reachable_in(adj, s, t, k + 1),
{
    assert(reach_set(adj, s, ((k + 1) - 1) as nat).contains(t));
}

/// A node other than `s` that is reachable within `k` edges is entered by an
/// edge from a node reachable within `k - 1` edges.
pub proof fn lemma_reachable_predecessor(adj: Seq<Seq<usize>>, s: usize, t: usize, k: nat)
    requires
        reachable_in(adj, s, t, k),
        t != s,
    ensures
        k > 0,
        exists|w: usize| #[trigger] reachable_in(adj, s, w, (k - 1) as nat) && has_edge(adj, w, t),
    decreases k,
{
    if k == 0 {
        assert(set![s].contains(t));
    } else {
        let prev = reach_set(adj, s, (k - 1) as nat);
        if prev.contains(t) {
            lemma_reachable_predecessor(adj, s, t, (k - 1) as nat);
            let w: usize = choose|w: usize|
                #[trigger] reachable_in(adj, s, w, (k - 1 - 1) as nat) && has_edge(adj, w, t);
            lemma_reachable_step(adj, s, w, (k - 1 - 1) as nat);
            assert(reachable_in(adj, s, w, (k - 1) as nat));
        } else {
            let w: usize = choose|w: usize| #[trigger] prev.contains(w) && has_edge(adj, w, t);
            assert(reachable_in(adj, s, w, (k - 1) as nat));
        }
    }
}

/// Reachability within `k` edges implies reachability within any larger bound.
pub proof fn lemma_reachable_monotone(adj: Seq<Seq<usize>>, s: usize, t: usize, k: nat, bound: nat)
    requires
        reachable_in(adj, s, t, k),
        k <= bound,
    ensures
        reachable_in(adj, s, t, bound),
    decreases bound - k,
{
    if k < bound {
        lemma_reachable_step(adj, s, t, k);
        lemma_reachable_monotone(adj, s, t, k + 1, bound);
    }
}

/// A path to `w` followed by the edge from `w` to `t` is a path to `t`.
pub proof fn lemma_reachable_extend(adj: Seq<Seq<usize>>, s: usize, w: usize, t: usize, k: nat)
    requires
        reachable_in(adj, s, w, k),
        has_edge(adj, w, t),
    ensures
        reachable_in(adj, s, t, k + 1),
{
    let prev = reach_set(adj, s, ((k + 1) - 1) as nat);
    assert(prev.contains(w));
}

/// The origin is reachable from itself with no edges.
pub proof fn lemma_reachable_self(adj: Seq<Seq<usize>>, s: usize)
    ensures
        reachable_in(adj, s, s, 0),
{
    assert(set![s].contains(s));
}

/// The exact distance is no larger than any bound within which the node is reachable.
pub proof fn lemma_distance_at_most(adj: Seq<Seq<usize>>, s: usize, t: usize, d: nat, k: nat)
    requires
        is_distance(adj, s, t, d),
        reachable_in(adj, s, t, k),
    ensures
        d <= k,
{
    if k < d {
        lemma_reachable_monotone(adj, s, t, k, (d - 1) as nat);
    }
}

/// A path from `a` to `t`, preceded by the edge from `s` to `a`, is a path from `s` to `t`.
pub proof fn lemma_reachable_prepend(adj: Seq<Seq<usize>>, s: usize, a: usize, t: usize, k: nat)
    requires
        has_edge(adj, s, a),
        reachable_in(adj, a, t, k),
    ensures
        reachable_in(adj, s, t, k + 1),
    decreases k,
{
    if t == a {
        lemma_reachable_self(adj, s);
        lemma_reachable_extend(adj, s, s, a, 0);
        lemma_reachable_monotone(adj, s, t, 1, k + 1);
    } else {
        lemma_reachable_predecessor(adj, a, t, k);
        let w: usize = choose|w: usize|
            #[trigger] reachable_in(adj, a, w, (k - 1) as nat) && has_edge(adj, w, t);
        lemma_reachable_prepend(adj, s, a, w, (k - 1) as nat);
        lemma_reachable_extend(adj, s, w, t, k);
    }
}

/// `start` and `end` are exactly `d` edges apart, and every two nodes of `adj`
/// are at most `d` edges apart: `start` and `end` span the diameter.
pub open spec fn is_diameter(adj: Seq<Seq<usize>>, start: usize, end: usize, d: nat) -> bool {
    &&& start < adj.len()
    &&& end < adj.len()
    &&& is_distance(adj, start, end, d)
    &&& forall|u: usize, v: usize|
        u < adj.len() && v < adj.len() ==> #[trigger] reachable_in(adj, u, v, d)
}

/// Number of entries of a distance table that are still unvisited.
spec fn unvisited_count(d: Seq<usize>) -> nat
    decreases d.len(),
{
    if d.len() == 0 {
        0
    } else {
        unvisited_count(d.drop_last()) + if d.last() == usize::MAX {
            1nat
        } else {
            0nat
        }
    }
}

proof fn lemma_unvisited_count_all(d: Seq<usize>)
    requires
        forall|i: int| 0 <= i < d.len() ==> d[i] == usize::MAX,
    ensures
        unvisited_count(d) == d.len(),
    decreases d.len(),
{
    if d.len() > 0 {
        lemma_unvisited_count_all(d.drop_last());
    }
}

proof fn lemma_unvisited_count_mark(d: Seq<usize>, i: int, x: usize)
    requires
        0 <= i < d.len(),
        d[i] == usize::MAX,
        x != usize::MAX,
    ensures
        unvisited_count(d.update(i, x)) + 1 == unvisited_count(d),
    decreases d.len(),
{
    let e = d.update(i, x);
    if i == d.len() - 1 {
        assert(e.drop_last() =~= d.drop_last());
    } else {
        assert(e.drop_last() =~= d.drop_last().update(i, x));
        lemma_unvisited_count_mark(d.drop_last(), i, x);
    }
}

/// When the visited part of a distance table contains the origin and is closed
/// under edges, it contains every node reachable from the origin.
proof fn lemma_closed_contains_reachable(
    adj: Seq<Seq<usize>>,
    dist: Seq<usize>,
    s: usize,
    t: usize,
    k: nat,
)
    requires
        well_formed(adj),
        dist.len() == adj.len(),
        s < adj.len(),
        dist[s as int] != usize::MAX,
        forall|v: usize, j: int|
            v < adj.len() && dist[v as int] != usize::MAX && 0 <= j < adj[v as int].len()
                ==> dist[#[trigger] adj[v as int][j] as int] != usize::MAX,
        reachable_in(adj, s, t, k),
    ensures
        t < adj.len(),
        dist[t as int] != usize::MAX,
    decreases k,
{
    if t != s {
        lemma_reachable_predecessor(adj, s, t, k);
        let w: usize = choose|w: usize|
            #[trigger] reachable_in(adj, s, w, (k - 1) as nat) && has_edge(adj, w, t);
        lemma_closed_contains_reachable(adj, dist, s, w, (k - 1) as nat);
        let j: int = choose|j: int| 0 <= j < adj[w as int].len() && adj[w as int][j] == t;
        assert(dist[adj[w as int][j] as int] != usize::MAX);
    }
}

/// Breadth-first search from `origin`. Returns the farthest node reachable from
/// `origin` and its distance; among equally far nodes, the one with the largest
/// index.
pub fn farthest_node(origin: usize, adjacency: &[Vec<usize>]) -> (result: (usize, usize))
    requires
        origin < adjacency@.len(),
        adjacency@.len() < usize::MAX,
        well_formed(rows(adjacency@)),
    ensures
        is_farthest(rows(adjacency@), origin, result.0, result.1 as nat),
{
    let ghost adj = rows(adjacency@);
    let node_count: usize = adjacency.len();
    let mut distance: Vec<usize> = Vec::new();
    let mut i: usize = 0;
    while i < node_count
        invariant
            i <= node_count,
            distance@.len() == i,
            forall|j: int| 0 <= j < i ==> distance@[j] == usize::MAX,
        decreases node_count - i,
    {
        distance.push(usize::MAX);
        i += 1;
    }
    proof {
        lemma_unvisited_count_all(distance@);
        lemma_unvisited_count_mark(distance@, origin as int, 0);
    }
    let mut queue: VecDeque<usize> = VecDeque::new();
    queue.push_back(origin);
    distance.set(origin, 0);
    let ghost mut level: nat = 0;
    proof {
        lemma_reachable_self(adj, origin);
        assert(is_distance(adj, origin, origin, 0));
        assert(queue@[0] == origin);
        assert forall|v: usize|
            v < node_count && distance@[v as int] != usize::MAX implies v == origin by {
            if v != origin {
                assert(distance@[v as int] == usize::MAX);
            }
        }
    }
    while queue.len() > 0
        invariant
            adj == rows(adjacency@),
            well_formed(adj),
            node_count == adj.len(),
            node_count < usize::MAX,
            origin < node_count,
            distance@.len() == node_count,
            distance@[origin as int] == 0,
            forall|v: usize|
                v < node_count && distance@[v as int] != usize::MAX ==> is_distance(
                    adj,
                    origin,
                    v,
                    distance@[v as int] as nat,
                ),
            forall|v: usize|
                v < node_count && distance@[v as int] != usize::MAX ==> distance@[v as int]
                    + unvisited_count(distance@) < node_count,
            forall|a: int|
                0 <= a < queue@.len() ==> queue@[a] < node_count && distance@[queue@[a] as int]
                    != usize::MAX && level <= distance@[queue@[a] as int] <= level + 1,
            forall|a: int, b: int|
                0 <= a < b < queue@.len() ==> distance@[queue@[a] as int] <= distance@[queue@[b] as int],
            forall|v: usize, j: int|
                v < node_count && distance@[v as int] != usize::MAX && !queue@.contains(v) && 0 <= j
                    < adj[v as int].len() ==> distance@[#[trigger] adj[v as int][j] as int]
                    != usize::MAX,
            forall|v: usize, k: nat|
                v < node_count && #[trigger] reachable_in(adj, origin, v, k) && k < level
                    ==> distance@[v as int] != usize::MAX,
        decreases 2 * unvisited_count(distance@) + queue@.len(),
    {
        let ghost q0 = queue@;
        let ghost d0 = distance@;
        let node: usize = queue.pop_front().unwrap();
        let node_distance: usize = distance[node];
        proof {
            let new_level: nat = node_distance as nat;
            assert forall|v: usize, k: nat|
                v < node_count && #[trigger] reachable_in(adj, origin, v, k) && k
                    < new_level implies d0[v as int] != usize::MAX by {
                if k >= level && v != origin {
                    lemma_reachable_predecessor(adj, origin, v, k);
                    let w: usize = choose|w: usize|
                        #[trigger] reachable_in(adj, origin, w, (k - 1) as nat) && has_edge(
                            adj,
                            w,
                            v,
                        );
                    assert(d0[w as int] != usize::MAX);
                    lemma_distance_at_most(adj, origin, w, d0[w as int] as nat, (k - 1) as nat);
                    if q0.contains(w) {
                        let a: int = choose|a: int| 0 <= a < q0.len() && q0[a] == w;
                        assert(false);
                    }
                    let j: int = choose|j: int| 0 <= j < adj[w as int].len() && adj[w as int][j] == v;
                    assert(d0[adj[w as int][j] as int] != usize::MAX);
                }
            }
            level = new_level;
            assert forall|v: usize| #[trigger] q0.contains(v) && v != node implies queue@.contains(v) by {
                let a: int = choose|a: int| 0 <= a < q0.len() && q0[a] == v;
                assert(queue@[a - 1] == v);
            }
            assert forall|a: int|
                0 <= a < queue@.len() implies level <= distance@[#[trigger] queue@[a] as int] <= level + 1 by {
                assert(queue@[a] == q0[a + 1]);
            }
        }
        let neighbours = &adjacency[node];
        let mut j: usize = 0;
        while j < neighbours.len()
            invariant
                adj == rows(adjacency@),
                well_formed(adj),
                node_count == adj.len(),
                node_count < usize::MAX,
                origin < node_count,
                node < node_count,
                neighbours@ == adj[node as int],
                j <= neighbours@.len(),
                distance@.len() == node_count,
                distance@[origin as int] == 0,
                distance@[node as int] == node_distance,
                node_distance != usize::MAX,
                node_distance as nat == level,
                forall|v: usize|
                    v < node_count && distance@[v as int] != usize::MAX ==> is_distance(
                        adj,
                        origin,
                        v,
                        distance@[v as int] as nat,
                    ),
                forall|v: usize|
                    v < node_count && distance@[v as int] != usize::MAX ==> distance@[v as int]
                        + unvisited_count(distance@) < node_count,
                forall|a: int|
                    0 <= a < queue@.len() ==> queue@[a] < node_count && distance@[queue@[a] as int]
                        != usize::MAX && level <= distance@[queue@[a] as int] <= level + 1,
                forall|a: int, b: int|
                    0 <= a < b < queue@.len() ==> distance@[queue@[a] as int]
                        <= distance@[queue@[b] as int],
                forall|v: usize, jj: int|
                    v < node_count && v != node && distance@[v as int] != usize::MAX
                        && !queue@.contains(v) && 0 <= jj < adj[v as int].len()
                        ==> distance@[#[trigger] adj[v as int][jj] as int] != usize::MAX,
                forall|jj: int|
                    0 <= jj < j ==> distance@[#[trigger] adj[node as int][jj] as int] != usize::MAX,
                forall|v: usize, k: nat|
                    v < node_count && #[trigger] reachable_in(adj, origin, v, k) && k < level
                        ==> distance@[v as int] != usize::MAX,
                2 * unvisited_count(distance@) + queue@.len() < 2 * unvisited_count(d0) + q0.len(),
            decreases neighbours@.len() - j,
        {
            let next: usize = neighbours[j];
            if distance[next] == usize::MAX {
                let ghost dprev = distance@;
                let ghost qprev = queue@;
                proof {
                    assert(is_distance(adj, origin, node, level));
                    assert(node_distance + unvisited_count(dprev) < node_count);
                    assert(adj[node as int][j as int] == next);
                    assert(has_edge(adj, node, next));
                    lemma_reachable_extend(adj, origin, node, next, level);
                    if reachable_in(adj, origin, next, level) {
                        lemma_reachable_predecessor(adj, origin, next, level);
                        let w: usize = choose|w: usize|
                            #[trigger] reachable_in(adj, origin, w, (level - 1) as nat) && has_edge(
                                adj,
                                w,
                                next,
                            );
                        assert(dprev[w as int] != usize::MAX);
                        lemma_distance_at_most(
                            adj,
                            origin,
                            w,
                            dprev[w as int] as nat,
                            (level - 1) as nat,
                        );
                        if qprev.contains(w) {
                            let a: int = choose|a: int| 0 <= a < qprev.len() && qprev[a] == w;
                            assert(false);
                        }
                        let jw: int = choose|jw: int|
                            0 <= jw < adj[w as int].len() && adj[w as int][jw] == next;
                        assert(dprev[adj[w as int][jw] as int] != usize::MAX);
                    }
                    assert(is_distance(adj, origin, next, (node_distance + 1) as nat));
                    lemma_unvisited_count_mark(dprev, next as int, (node_distance + 1) as usize);
                }
                distance.set(next, node_distance + 1);
                queue.push_back(next);
                proof {
                    assert forall|v: usize, jj: int|
                        v < node_count && v != node && distance@[v as int] != usize::MAX
                            && !queue@.contains(v) && 0 <= jj < adj[v as int].len()
                            implies distance@[#[trigger] adj[v as int][jj] as int] != usize::MAX by {
                        if qprev.contains(v) {
                            let a: int = choose|a: int| 0 <= a < qprev.len() && qprev[a] == v;
                            assert(queue@[a] == v);
                        }
                        if v == next {
                            assert(queue@[queue@.len() - 1] == v);
                        }
                        assert(dprev[v as int] != usize::MAX);
                        assert(dprev[adj[v as int][jj] as int] != usize::MAX);
                    }
                }
            }
            j += 1;
        }
        proof {
            assert forall|v: usize, jj: int|
                v < node_count && distance@[v as int] != usize::MAX && !queue@.contains(v) && 0 <= jj
                    < adj[v as int].len() implies distance@[#[trigger] adj[v as int][jj] as int]
                    != usize::MAX by {
                if v == node {
                    assert(distance@[adj[node as int][jj] as int] != usize::MAX);
                }
            }
        }
    }
    proof {
        assert forall|v: usize, j: int|
            v < node_count && distance@[v as int] != usize::MAX && 0 <= j < adj[v as int].len()
                implies distance@[#[trigger] adj[v as int][j] as int] != usize::MAX by {
            assert(!queue@.contains(v));
        }
    }
    let mut best_node: usize = origin;
    let mut best_distance: usize = 0;
    let mut index: usize = 0;
    while index < node_count
        invariant
            index <= node_count,
            node_count == adj.len(),
            distance@.len() == node_count,
            best_node < node_count,
            distance@[best_node as int] == best_distance,
            best_distance != usize::MAX,
            forall|v: usize|
                v < index && distance@[v as int] != usize::MAX ==> distance@[v as int] <= best_distance,
            forall|v: usize|
                best_node < v < index && distance@[v as int] != usize::MAX ==> distance@[v as int]
                    < best_distance,
        decreases node_count - index,
    {
        let d: usize = distance[index];
        if d != usize::MAX && d >= best_distance {
            best_node = index;
            best_distance = d;
        }
        index += 1;
    }
    proof {
        assert forall|v: usize, k: nat|
            v < adj.len() && #[trigger] reachable_in(adj, origin, v, k) implies reachable_in(
                adj,
                origin,
                v,
                best_distance as nat,
            ) by {
            lemma_closed_contains_reachable(adj, distance@, origin, v, k);
            lemma_reachable_monotone(
                adj,
                origin,
                v,
                distance@[v as int] as nat,
                best_distance as nat,
            );
        }
        assert forall|v: usize, k: nat|
            best_node < v < adj.len() && #[trigger] reachable_in(adj, origin, v, k) implies best_distance
                > 0 && reachable_in(adj, origin, v, (best_distance - 1) as nat) by {
            lemma_closed_contains_reachable(adj, distance@, origin, v, k);
            lemma_reachable_monotone(
                adj,
                origin,
                v,
                distance@[v as int] as nat,
                (best_distance - 1) as nat,
            );
        }
    }
    (best_node, best_distance)
}

/// The neighbour lists that `graph_diameter` builds from an edge list: each
/// edge `(a, b)`, in order, appends `b` to the list of `a` and then `a` to the
/// list of `b`.
pub open spec fn adjacency_of(n: nat, edges: Seq<(usize, usize)>) -> Seq<Seq<usize>>
    decreases edges.len(),
{
    if edges.len() == 0 {
        Seq::new(n, |i: int| Seq::<usize>::empty())
    } else {
        let prev = adjacency_of(n, edges.drop_last());
        let a: int = edges.last().0 as int;
        let b: int = edges.last().1 as int;
        let with_a = prev.update(a, prev[a].push(b as usize));
        with_a.update(b, with_a[b].push(a as usize))
    }
}

/// Both endpoints of every edge are nodes below `n`.
pub open spec fn edges_within(n: nat, edges: Seq<(usize, usize)>) -> bool {
    forall|i: int| 0 <= i < edges.len() ==> (#[trigger] edges[i]).0 < n && edges[i].1 < n
}

/// The adjacency lists of an edge list over `n` nodes have `n` rows, and name
/// only nodes below `n`.
pub proof fn lemma_adjacency_of_well_formed(n: nat, edges: Seq<(usize, usize)>)
    requires
        edges_within(n, edges),
    ensures
        adjacency_of(n, edges).len() == n,
        well_formed(adjacency_of(n, edges)),
    decreases edges.len(),
{
    if edges.len() > 0 {
        let rest = edges.drop_last();
        assert(edges_within(n, rest)) by {
            assert forall|i: int| 0 <= i < rest.len() implies (#[trigger] rest[i]).0 < n && rest[i].1
                < n by {
                assert(rest[i] == edges[i]);
            }
        }
        lemma_adjacency_of_well_formed(n, rest);
        assert(edges[edges.len() - 1] == edges.last());
    }
}

/// Some edge of the list joins `u` and `v`, in either orientation.
pub open spec fn joins(edges: Seq<(usize, usize)>, u: usize, v: usize) -> bool {
    exists|i: int| 0 <= i < edges.len() && (#[trigger] edges[i] == (u, v) || edges[i] == (v, u))
}

/// The adjacency lists of an edge list name `v` as a neighbour of `u` exactly
/// when some edge joins them.
pub proof fn lemma_adjacency_of_edges(n: nat, edges: Seq<(usize, usize)>, u: usize, v: usize)
    requires
        edges_within(n, edges),
        u < n,
    ensures
        has_edge(adjacency_of(n, edges), u, v) <==> joins(edges, u, v),
    decreases edges.len(),
{
    lemma_adjacency_of_well_formed(n, edges);
    if edges.len() == 0 {
        assert(!adjacency_of(n, edges)[u as int].contains(v));
    } else {
        let rest = edges.drop_last();
        assert(edges_within(n, rest)) by {
            assert forall|i: int| 0 <= i < rest.len() implies (#[trigger] rest[i]).0 < n && rest[i].1
                < n by {
                assert(rest[i] == edges[i]);
            }
        }
        lemma_adjacency_of_edges(n, rest, u, v);
        lemma_adjacency_of_well_formed(n, rest);
        let prev = adjacency_of(n, rest);
        let last = edges[edges.len() - 1];
        assert(last == edges.last());
        let a: usize = last.0;
        let b: usize = last.1;
        let with_a = prev.update(a as int, prev[a as int].push(b));
        broadcast use vstd::seq_lib::lemma_seq_contains_after_push;
        assert(adjacency_of(n, edges)[u as int].contains(v) <==> (prev[u as int].contains(v) || (u
            == a && v == b) || (u == b && v == a)));
        if joins(edges, u, v) && !joins(rest, u, v) {
            let i: int = choose|i: int|
                0 <= i < edges.len() && (#[trigger] edges[i] == (u, v) || edges[i] == (v, u));
            if i < rest.len() {
                assert(rest[i] == edges[i]);
            }
        }
        if joins(rest, u, v) {
            let i: int = choose|i: int|
                0 <= i < rest.len() && (#[trigger] rest[i] == (u, v) || rest[i] == (v, u));
            assert(edges[i] == rest[i]);
        }
        if (u == a && v == b) || (u == b && v == a) {
            assert(edges[edges.len() - 1] == last);
        }
    }
}

/// Builds the undirected adjacency lists of an edge list over `node_count` nodes.
pub fn adjacency_lists(node_count: usize, edges: &[(usize, usize)]) -> (adjacency: Vec<Vec<usize>>)
    requires
        edges_within(node_count as nat, edges@),
    ensures
        rows(adjacency@) =~~= adjacency_of(node_count as nat, edges@),
{
    let mut adjacency: Vec<Vec<usize>> = Vec::new();
    let mut i: usize = 0;
    while i < node_count
        invariant
            i <= node_count,
            adjacency@.len() == i,
            forall|j: int| 0 <= j < i ==> (#[trigger] adjacency@[j])@ == Seq::<usize>::empty(),
        decreases node_count - i,
    {
        adjacency.push(Vec::new());
        i += 1;
    }
    assert(rows(adjacency@) =~~= adjacency_of(node_count as nat, edges@.take(0)));
    let mut e: usize = 0;
    while e < edges.len()
        invariant
            e <= edges@.len(),
            edges_within(node_count as nat, edges@),
            rows(adjacency@) =~~= adjacency_of(node_count as nat, edges@.take(e as int)),
            adjacency@.len() == node_count,
        decreases edges@.len() - e,
    {
        let (a, b) = edges[e];
        assert(edges@.take(e + 1).drop_last() =~= edges@.take(e as int));
        assert(edges@[e as int] == edges@.take(e + 1).last());
        adjacency[a].push(b);
        adjacency[b].push(a);
        e += 1;
    }
    assert(edges@.take(edges@.len() as int) =~= edges@);
    adjacency
}

/// Finds the two ends of a longest shortest path by two breadth-first sweeps:
/// the farthest node `start` from node 0, then the farthest node `end` from
/// `start`, with their distance.
pub fn graph_diameter(node_count: usize, edges: &[(usize, usize)]) -> (result: (usize, usize, usize))
    requires
        0 < node_count < usize::MAX,
        edges_within(node_count as nat, edges@),
    ensures
        is_farthest_node(adjacency_of(node_count as nat, edges@), 0, result.0),
        is_farthest(adjacency_of(node_count as nat, edges@), result.0, result.1, result.2 as nat),
        is_tree(node_count as nat, edges@) ==> is_diameter(
            adjacency_of(node_count as nat, edges@),
            result.0,
            result.1,
            result.2 as nat,
        ),
{
    let adjacency = adjacency_lists(node_count, edges);
    proof {
        lemma_adjacency_of_well_formed(node_count as nat, edges@);
    }
    let (start, first_distance) = farthest_node(0, &adjacency);
    let (end, distance) = farthest_node(start, &adjacency);
    proof {
        assert(rows(adjacency@) == adjacency_of(node_count as nat, edges@));
        assert(is_farthest(adjacency_of(node_count as nat, edges@), 0, start, first_distance as nat));
        if is_tree(node_count as nat, edges@) {
            lemma_two_sweeps_span_diameter(node_count as nat, edges@, start, end, distance as nat);
        }
    }
    (start, end, distance)
}

} // verus!
