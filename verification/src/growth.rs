//! The integer side of maze generation: drawing candidate lines, and growing
//! the tree of unit points from the lines that the geometry accepts.

use vstd::prelude::*;
use crate::graph::{
    edges_within, has_edge, is_distance, joins, lemma_adjacency_of_edges, lemma_reachable_extend,
    lemma_reachable_predecessor,
    adjacency_of, graph_diameter, is_diameter, is_farthest, is_farthest_node,
    lemma_adjacency_of_well_formed, lemma_reachable_monotone, lemma_reachable_self, reach_set, reachable_in,
};
use crate::random::{DrawRange, Draws};
use crate::tree::{is_grown_tree, lemma_grown_tree_edges_within, lemma_grown_tree_is_tree};

verus! {

/// Number of directions a line may take: the full turn in 15-degree steps.
pub const DIRECTION_STEPS: i32 = 24;

/// A candidate line: it starts at node `from_index`, points in direction
/// `angle_step` (in 15-degree steps) and is `length_units` units long.
pub struct Extension {
    pub from_index: usize,
    pub angle_step: i32,
    pub length_units: usize,
}

/// The state of a growing maze network: the tree of unit points laid down so
/// far, how many candidate lines were tried, and how many failed in a row.
pub struct Growth {
    node_count: usize,
    edges: Vec<(usize, usize)>,
    failures: usize,
    attempts: usize,
    failure_limit: usize,
}

/// The abstract state of a `Growth`.
pub struct GrowthView {
    pub node_count: nat,
    pub edges: Seq<(usize, usize)>,
    pub failures: nat,
    pub attempts: nat,
    pub failure_limit: nat,
}

/// The edges that a line of `length` units from node `from` adds to a network
/// of `base` nodes: a chain through the fresh nodes `base, base + 1, ...`, the
/// first of them attached to `from`.
pub open spec fn chain_edges(from: usize, base: nat, length: nat) -> Seq<(usize, usize)> {
    Seq::new(
        length,
        |i: int|
            (
                if i == 0 {
                    from
                } else {
                    (base + i - 1) as usize
                },
                (base + i) as usize,
            ),
    )
}

/// A line of `length` units is a path: its first edge joins `from` to the
/// first fresh node `base`, and each later edge joins a fresh node to the next.
pub proof fn lemma_chain_edges_form_a_path(from: usize, base: nat, length: nat)
    requires
        base + length <= usize::MAX,
    ensures
        chain_edges(from, base, length).len() == length,
        length > 0 ==> chain_edges(from, base, length)[0] == (from, base as usize),
        forall|k: int|
            0 < k < length ==> #[trigger] chain_edges(from, base, length)[k] == (
                (base + k - 1) as usize,
                (base + k) as usize,
            ),
{
}

/// How far past the old network a node lies along the new line: 0 for the old
/// nodes, `k + 1` for the fresh node `base + k`.
spec fn line_position(base: nat, v: usize) -> nat {
    if v >= base {
        (v - base + 1) as nat
    } else {
        0
    }
}

/// No edge of the grown network changes the line position by more than one, so
/// a node reachable from an old node within `j` edges lies at position `j` or less.
proof fn lemma_chain_position_bound(
    base: nat,
    old_edges: Seq<(usize, usize)>,
    from: usize,
    length: nat,
    t: usize,
    j: nat,
)
    requires
        edges_within(base, old_edges),
        from < base,
        base + length < usize::MAX,
        reachable_in(
            adjacency_of(base + length, old_edges + chain_edges(from, base, length)),
            from,
            t,
            j,
        ),
    ensures
        line_position(base, t) <= j,
    decreases j,
{
    let n = base + length;
    let edges = old_edges + chain_edges(from, base, length);
    let adj = adjacency_of(n, edges);
    if t != from {
        lemma_chain_edges_within(base, old_edges, from, length);
        lemma_reachable_predecessor(adj, from, t, j);
        let w: usize = choose|w: usize|
            #[trigger] reachable_in(adj, from, w, (j - 1) as nat) && has_edge(adj, w, t);
        lemma_chain_position_bound(base, old_edges, from, length, w, (j - 1) as nat);
        lemma_adjacency_of_well_formed(n, edges);
        lemma_adjacency_of_edges(n, edges, w, t);
        let i: int = choose|i: int|
            0 <= i < edges.len() && (#[trigger] edges[i] == (w, t) || edges[i] == (t, w));
        if i < old_edges.len() {
            assert(edges[i] == old_edges[i]);
        } else {
            assert(edges[i] == chain_edges(from, base, length)[i - old_edges.len()]);
        }
    }
}

proof fn lemma_chain_edges_within(
    base: nat,
    old_edges: Seq<(usize, usize)>,
    from: usize,
    length: nat,
)
    requires
        edges_within(base, old_edges),
        from < base,
        base + length < usize::MAX,
    ensures
        edges_within(base + length, old_edges + chain_edges(from, base, length)),
{
    let edges = old_edges + chain_edges(from, base, length);
    assert forall|i: int| 0 <= i < edges.len() implies (#[trigger] edges[i]).0 < base + length
        && edges[i].1 < base + length by {
        if i < old_edges.len() {
            assert(edges[i] == old_edges[i]);
        } else {
            assert(edges[i] == chain_edges(from, base, length)[i - old_edges.len()]);
        }
    }
}

/// The fresh node `base + k` of a line of `length` units lies exactly `k + 1`
/// edges from the node the line grows from.
pub proof fn lemma_chain_distance(
    base: nat,
    old_edges: Seq<(usize, usize)>,
    from: usize,
    length: nat,
    k: nat,
)
    requires
        edges_within(base, old_edges),
        from < base,
        base + length < usize::MAX,
        k < length,
    ensures
        is_distance(
            adjacency_of(base + length, old_edges + chain_edges(from, base, length)),
            from,
            (base + k) as usize,
            k + 1,
        ),
    decreases k,
{
    let n = base + length;
    let edges = old_edges + chain_edges(from, base, length);
    let adj = adjacency_of(n, edges);
    lemma_chain_edges_within(base, old_edges, from, length);
    let i: int = (old_edges.len() + k) as int;
    assert(edges[i] == chain_edges(from, base, length)[k as int]);
    if k == 0 {
        assert(joins(edges, from, base as usize));
        lemma_adjacency_of_edges(n, edges, from, base as usize);
        lemma_reachable_self(adj, from);
        lemma_reachable_extend(adj, from, from, base as usize, 0);
    } else {
        lemma_chain_distance(base, old_edges, from, length, (k - 1) as nat);
        let prev = (base + k - 1) as usize;
        assert(joins(edges, prev, (base + k) as usize));
        lemma_adjacency_of_edges(n, edges, prev, (base + k) as usize);
        lemma_reachable_extend(adj, from, prev, (base + k) as usize, k);
    }
    if reachable_in(adj, from, (base + k) as usize, k) {
        lemma_chain_position_bound(base, old_edges, from, length, (base + k) as usize, k);
    }
}

impl View for Growth {
    type V = GrowthView;

    closed spec fn view(&self) -> GrowthView {
        GrowthView {
            node_count: self.node_count as nat,
            edges: self.edges@,
            failures: self.failures as nat,
            attempts: self.attempts as nat,
            failure_limit: self.failure_limit as nat,
        }
    }
}

impl Growth {
    /// The network is a tree grown one node at a time, and the failure count
    /// has not passed the limit.
    pub open spec fn wf(&self) -> bool {
        &&& is_grown_tree(self@.node_count, self@.edges)
        &&& self@.node_count < usize::MAX
        &&& self@.failures <= self@.failure_limit
    }

    /// A network of the single starting point, with no attempt made yet.
    pub fn new(failure_limit: usize) -> (growth: Self)
        ensures
            growth.wf(),
            growth@.node_count == 1,
            growth@.edges == Seq::<(usize, usize)>::empty(),
            growth@.failures == 0,
            growth@.attempts == 0,
            growth@.failure_limit == failure_limit,
    {
        Growth { node_count: 1, edges: Vec::new(), failures: 0, attempts: 0, failure_limit }
    }

    /// Growth goes on until `failure_limit` candidate lines in a row have failed.
    pub fn is_running(&self) -> (running: bool)
        ensures
            running == (self@.failures < self@.failure_limit),
    {
        self.failures < self.failure_limit
    }

    /// Draws the next candidate line from the seeded generator, in this order:
    /// a start node among all existing nodes (`0..node_count`), one of the 24
    /// directions (`0..24`), and a length of `1..=max_length_units` units; the
    /// line is made of exactly these three values.
    pub fn propose(&self, draws: &mut Draws, max_length_units: usize) -> (extension: Extension)
        requires
            self.wf(),
            max_length_units >= 1,
        ensures
            final(draws).requests() == old(draws).requests() + seq![
                DrawRange::HalfOpen { low: 0, high: self@.node_count as usize },
                DrawRange::HalfOpen { low: 0, high: DIRECTION_STEPS as usize },
                DrawRange::Inclusive { low: 1, high: max_length_units },
            ],
            final(draws).values() == old(draws).values() + seq![
                extension.from_index,
                extension.angle_step as usize,
                extension.length_units,
            ],
            extension.from_index < self@.node_count,
            0 <= extension.angle_step < DIRECTION_STEPS,
            1 <= extension.length_units <= max_length_units,
    {
        let from_index: usize = draws.below(0, self.node_count);
        let angle_step: i32 = draws.below(0, DIRECTION_STEPS as usize) as i32;
        let length_units: usize = draws.through(1, max_length_units);
        Extension { from_index, angle_step, length_units }
    }

    /// Records one attempt. A clear line lays down one fresh node per unit,
    /// chained from its start node, and resets the failure count; a blocked
    /// line counts one more failure.
    pub fn record(&mut self, extension: Extension, clear: bool)
        requires
            old(self).wf(),
            old(self)@.failures < old(self)@.failure_limit,
            extension.from_index < old(self)@.node_count,
            old(self)@.attempts < usize::MAX,
            clear ==> old(self)@.node_count + extension.length_units < usize::MAX,
        ensures
            final(self).wf(),
            final(self)@.attempts == old(self)@.attempts + 1,
            final(self)@.failure_limit == old(self)@.failure_limit,
            clear ==> final(self)@.node_count == old(self)@.node_count + extension.length_units
                && final(self)@.edges == old(self)@.edges + chain_edges(
                extension.from_index,
                old(self)@.node_count,
                extension.length_units as nat,
            ) && final(self)@.failures == 0,
            !clear ==> final(self)@.node_count == old(self)@.node_count && final(self)@.edges
                == old(self)@.edges && final(self)@.failures == old(self)@.failures + 1,
            clear ==> final(self)@.edges.len() == old(self)@.edges.len() + extension.length_units,
            clear ==> forall|i: int|
                0 <= i < old(self)@.edges.len() ==> #[trigger] final(self)@.edges[i]
                    == old(self)@.edges[i],
            clear && extension.length_units > 0 ==> final(self)@.edges[old(self)@.edges.len() as int]
                == (extension.from_index, old(self)@.node_count as usize),
            clear ==> forall|k: int|
                0 < k < extension.length_units ==> #[trigger] final(self)@.edges[old(
                    self,
                )@.edges.len() + k] == (
                    (old(self)@.node_count + k - 1) as usize,
                    (old(self)@.node_count + k) as usize,
                ),
            clear ==> forall|k: int|
                0 <= k < extension.length_units ==> #[trigger] is_distance(
                    adjacency_of(final(self)@.node_count, final(self)@.edges),
                    extension.from_index,
                    (old(self)@.node_count + k) as usize,
                    (k + 1) as nat,
                ),
    {
        self.attempts = self.attempts + 1;
        if !clear {
            self.failures = self.failures + 1;
            return;
        }
        let ghost old_edges = self.edges@;
        let ghost base = self.node_count as nat;
        let from: usize = extension.from_index;
        let length_units: usize = extension.length_units;
        let mut previous: usize = from;
        let mut step: usize = 1;
        while step <= length_units
            invariant
                1 <= step <= length_units + 1,
                self.attempts == old(self)@.attempts + 1,
                self.failures == old(self)@.failures,
                self.failure_limit == old(self)@.failure_limit,
                base + length_units < usize::MAX,
                from < base,
                is_grown_tree(base, old_edges),
                self.node_count == base + step - 1,
                self.edges@ == old_edges + chain_edges(from, base, (step - 1) as nat),
                previous == if step == 1 {
                    from
                } else {
                    (self.node_count - 1) as usize
                },
            decreases length_units + 1 - step,
        {
            let next: usize = self.node_count;
            self.edges.push((previous, next));
            self.node_count = self.node_count + 1;
            previous = next;
            proof {
                assert(self.edges@ =~= old_edges + chain_edges(from, base, step as nat));
            }
            step += 1;
        }
        self.failures = 0;
        proof {
            lemma_chain_edges_form_a_path(from, base, length_units as nat);
            assert forall|k: int| 0 <= k < length_units implies #[trigger] is_distance(
                adjacency_of(self@.node_count, self@.edges),
                from,
                (base + k) as usize,
                (k + 1) as nat,
            ) by {
                lemma_grown_tree_edges_within(base, old_edges);
                lemma_chain_distance(base, old_edges, from, length_units as nat, k as nat);
            }
            let e = self.edges@;
            assert forall|i: int| 0 <= i < e.len() implies (#[trigger] e[i]).1 == i + 1 && e[i].0
                <= i by {
                if i < old_edges.len() {
                    assert(e[i] == old_edges[i]);
                } else {
                    assert(e[i] == chain_edges(from, base, length_units as nat)[i - old_edges.len()]);
                }
            }
        }
    }

    /// The start and exit of the maze: the two ends of the network's diameter.
    pub fn longest_route(&self) -> (route: (usize, usize, usize))
        requires
            self.wf(),
        ensures
            is_farthest_node(adjacency_of(self@.node_count, self@.edges), 0, route.0),
            is_farthest(adjacency_of(self@.node_count, self@.edges), route.0, route.1, route.2 as nat),
            is_diameter(adjacency_of(self@.node_count, self@.edges), route.0, route.1, route.2 as nat),
            self@.node_count > 1 ==> route.0 != route.1 && route.2 > 0,
    {
        proof {
            lemma_grown_tree_edges_within(self@.node_count, self@.edges);
            lemma_grown_tree_is_tree(self@.node_count, self@.edges);
        }
        let route = graph_diameter(self.node_count, self.edges.as_slice());
        proof {
            let adj = adjacency_of(self@.node_count, self@.edges);
            lemma_adjacency_of_well_formed(self@.node_count, self@.edges);
            if self@.node_count > 1 {
                assert(reachable_in(adj, 0, 1, route.2 as nat));
                if route.2 == 0 {
                    assert(reach_set(adj, 0, 0) == set![0usize]);
                    assert(!set![0usize].contains(1));
                }
                if route.0 == route.1 {
                    lemma_reachable_self(adj, route.0);
                    lemma_reachable_monotone(adj, route.0, route.0, 0, (route.2 - 1) as nat);
                }
            }
        }
        route
    }

    /// Number of unit points laid down so far.
    pub fn node_count(&self) -> (count: usize)
        ensures
            count == self@.node_count,
    {
        self.node_count
    }

    /// The segments between consecutive unit points, in the order laid down.
    pub fn edges(&self) -> (edges: &Vec<(usize, usize)>)
        ensures
            edges@ == self@.edges,
    {
        &self.edges
    }

    /// Number of candidate lines tried so far.
    pub fn attempts(&self) -> (attempts: usize)
        ensures
            attempts == self@.attempts,
    {
        self.attempts
    }
}

} // verus!
