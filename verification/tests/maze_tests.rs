use mazui::graph::{adjacency_lists, farthest_node, graph_diameter};
use mazui::growth::{Extension, Growth, DIRECTION_STEPS};
use mazui::random::Draws;
use rand::rngs::StdRng;
use rand::{Rng, SeedableRng};

#[test]
fn tree_diameter_is_exact() {
    // 0-1-2-3 with a short branch 1-4: diameter is 3 edges (0 to 3 or 4 to 3).
    let edges = [(0, 1), (1, 2), (2, 3), (1, 4)];
    let (start, end, distance) = graph_diameter(5, &edges);
    assert_eq!(distance, 3);
    assert!((start == 3 && matches!(end, 0 | 4)) || (end == 3 && matches!(start, 0 | 4)));
}

#[test]
fn diameter_sweeps_pick_last_of_equally_far_nodes() {
    let edges = [(0, 1), (1, 2), (2, 3), (1, 4)];
    assert_eq!(graph_diameter(5, &edges), (3, 4, 3));
}

#[test]
fn single_node_has_zero_diameter() {
    assert_eq!(graph_diameter(1, &[]), (0, 0, 0));
}

#[test]
fn adjacency_lists_are_undirected_in_edge_order() {
    let adjacency = adjacency_lists(4, &[(0, 1), (1, 2), (1, 3)]);
    assert_eq!(adjacency, vec![vec![1], vec![0, 2, 3], vec![1], vec![1]]);
}

#[test]
fn farthest_node_measures_shortest_paths() {
    // A cycle 0-1-2-3-4-0: node 2 and node 3 are both two edges from 0.
    let adjacency = adjacency_lists(5, &[(0, 1), (1, 2), (2, 3), (3, 4), (4, 0)]);
    assert_eq!(farthest_node(0, &adjacency), (3, 2));
    assert_eq!(farthest_node(2, &adjacency), (4, 2));
}

#[test]
fn farthest_node_ignores_unreachable_nodes() {
    let adjacency = adjacency_lists(4, &[(0, 1), (2, 3)]);
    assert_eq!(farthest_node(0, &adjacency), (1, 1));
    assert_eq!(farthest_node(3, &adjacency), (2, 1));
}

#[test]
fn farthest_node_from_isolated_origin_is_itself() {
    let adjacency = adjacency_lists(3, &[(1, 2)]);
    assert_eq!(farthest_node(0, &adjacency), (0, 0));
}

#[test]
fn directed_lists_are_followed_one_way() {
    let adjacency = vec![vec![1], vec![2], vec![]];
    assert_eq!(farthest_node(0, &adjacency), (2, 2));
    assert_eq!(farthest_node(2, &adjacency), (2, 0));
}

#[test]
fn new_growth_is_a_single_point() {
    let growth = Growth::new(5);
    assert_eq!(growth.node_count(), 1);
    assert!(growth.edges().is_empty());
    assert_eq!(growth.attempts(), 0);
    assert!(growth.is_running());
    assert!(!Growth::new(0).is_running());
}

#[test]
fn clear_line_adds_a_chain_of_unit_points() {
    let mut growth = Growth::new(3);
    growth.record(Extension { from_index: 0, angle_step: 0, length_units: 3 }, true);
    assert_eq!(growth.node_count(), 4);
    assert_eq!(growth.edges(), &vec![(0, 1), (1, 2), (2, 3)]);
    growth.record(Extension { from_index: 2, angle_step: 6, length_units: 2 }, true);
    assert_eq!(growth.node_count(), 6);
    assert_eq!(growth.edges(), &vec![(0, 1), (1, 2), (2, 3), (2, 4), (4, 5)]);
    assert_eq!(growth.attempts(), 2);
    assert_eq!(growth.longest_route(), (5, 0, 4));
}

#[test]
fn failures_end_growth_only_when_consecutive() {
    let mut growth = Growth::new(2);
    growth.record(Extension { from_index: 0, angle_step: 1, length_units: 1 }, false);
    assert!(growth.is_running());
    growth.record(Extension { from_index: 0, angle_step: 1, length_units: 1 }, true);
    growth.record(Extension { from_index: 1, angle_step: 1, length_units: 1 }, false);
    assert!(growth.is_running());
    growth.record(Extension { from_index: 1, angle_step: 1, length_units: 1 }, false);
    assert!(!growth.is_running());
    assert_eq!(growth.attempts(), 4);
    assert_eq!(growth.node_count(), 2);
    assert_eq!(growth.longest_route(), (1, 0, 1));
}

#[test]
fn proposals_stay_in_range_and_vary() {
    let mut growth = Growth::new(1000);
    growth.record(Extension { from_index: 0, angle_step: 0, length_units: 9 }, true);
    let mut rng = Draws::new(StdRng::seed_from_u64(7));
    let mut starts = std::collections::HashSet::new();
    let mut angles = std::collections::HashSet::new();
    let mut lengths = std::collections::HashSet::new();
    for _ in 0..500 {
        let extension = growth.propose(&mut rng, 4);
        assert!(extension.from_index < growth.node_count());
        assert!((0..DIRECTION_STEPS).contains(&extension.angle_step));
        assert!((1..=4).contains(&extension.length_units));
        starts.insert(extension.from_index);
        angles.insert(extension.angle_step);
        lengths.insert(extension.length_units);
    }
    assert_eq!(starts.len(), 10);
    assert_eq!(angles.len(), 24);
    assert_eq!(lengths.len(), 4);
}

#[test]
fn same_seed_draws_the_same_network() {
    let grow = |seed: u64| {
        let mut rng = Draws::new(StdRng::seed_from_u64(seed));
        let mut growth = Growth::new(20);
        while growth.is_running() {
            let extension = growth.propose(&mut rng, 5);
            let clear = growth.node_count() < 60
                && (extension.angle_step + extension.length_units as i32) % 3 != 0;
            growth.record(extension, clear);
        }
        (growth.edges().clone(), growth.attempts(), growth.longest_route())
    };
    assert_eq!(grow(11), grow(11));
}

#[test]
fn grown_network_endpoints_are_valid() {
    let mut rng = Draws::new(StdRng::seed_from_u64(3));
    let mut growth = Growth::new(10);
    while growth.is_running() {
        let extension = growth.propose(&mut rng, 10);
        let clear = growth.node_count() < 60 && extension.angle_step % 2 == 0;
        growth.record(extension, clear);
    }
    let (start, end, units) = growth.longest_route();
    assert!(start < growth.node_count());
    assert!(end < growth.node_count());
    assert!(growth.node_count() > 1);
    assert_ne!(start, end);
    assert!(units > 0);
}

#[test]
fn proposals_follow_the_seeded_generator() {
    let mut growth = Growth::new(10);
    growth.record(Extension { from_index: 0, angle_step: 0, length_units: 5 }, true);
    let mut draws = Draws::new(StdRng::seed_from_u64(21));
    let mut plain = StdRng::seed_from_u64(21);
    for _ in 0..50 {
        let extension = growth.propose(&mut draws, 7);
        assert_eq!(extension.from_index, plain.random_range(0..6usize));
        assert_eq!(extension.angle_step, plain.random_range(0..24i32));
        assert_eq!(extension.length_units, plain.random_range(1..=7usize));
    }
}

#[test]
fn diameter_of_trees_listed_in_any_order() {
    assert_eq!(graph_diameter(2, &[(1, 0)]), (1, 0, 1));
    // 0-1-3 and 1-4-2, with edges listed child first and out of order.
    assert_eq!(graph_diameter(5, &[(3, 1), (1, 0), (4, 1), (2, 4)]), (2, 3, 3));
}
