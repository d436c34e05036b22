use goblin_core::annealing::Rng;
use goblin_core::circle::{select_shape, PolygonShape};
use goblin_core::initial::all_pairs_bfs;
use goblin_core::labels::{choose_direction, classify_station, direction_at, label_order, placement_score, StationClass};
use goblin_core::operators::op_swap;
use goblin_core::preprocess::preprocess;
use goblin_core::render::compute_edge_render_data;
use goblin_core::types::{Edge, LabelDirection, Line, Network, Station};
use std::collections::HashMap;

fn station(id: u128, name: &str) -> Station {
    Station { id, name: name.to_string() }
}

fn edge(id: u128, source: u128, target: u128, lines: Vec<u128>) -> Edge {
    Edge { id, source, target, line_ids: lines }
}

fn line(id: u128, station_ids: Vec<u128>, is_loop: bool) -> Line {
    Line { id, name: "L".to_string(), code: None, color: "#f00".to_string(), station_ids, is_loop }
}

/// Two lines crossing at station 1: 2-1-3 and 4-1-5, plus station 6 on
/// its own and an edge from 5 to a node 9 that is not a station.
fn cross() -> Network {
    Network {
        stations: (1..=6).map(|i| station(i, &format!("S{}", i))).collect(),
        edges: vec![
            edge(100, 2, 1, vec![10]),
            edge(101, 1, 3, vec![10]),
            edge(102, 4, 1, vec![20]),
            edge(103, 1, 5, vec![20, 10]),
            edge(104, 5, 9, vec![]),
        ],
        lines: vec![line(10, vec![2, 1, 3], false), line(20, vec![4, 1, 5], false)],
    }
}

#[test]
fn bfs_gives_hop_distances() {
    let net = cross();
    let d = all_pairs_bfs(&net);
    assert_eq!(d.len(), 6);
    assert_eq!(d[&2][&1], 1);
    assert_eq!(d[&2][&3], 2);
    assert_eq!(d[&2][&9], 3);
    assert_eq!(d[&3][&2], 2);
    assert!(!d[&2].contains_key(&2));
    assert!(d[&6].is_empty());
    assert!(!d[&1].contains_key(&6));
    assert_eq!(d[&1].len(), 5);
}

#[test]
fn bfs_distances_are_symmetric_between_stations() {
    let net = cross();
    let d = all_pairs_bfs(&net);
    for s in 1..=6u128 {
        for t in 1..=6u128 {
            assert_eq!(d[&s].get(&t), d[&t].get(&s));
        }
    }
}

#[test]
fn preprocess_counts_degrees_and_lines() {
    let net = cross();
    let p = preprocess(&net, &vec![5, 42, 2]);
    assert_eq!(p.degree[&1], 4);
    assert_eq!(p.degree[&5], 2);
    assert_eq!(p.degree[&6], 0);
    assert_eq!(p.degree[&9], 1);
    assert_eq!(p.degree.len(), 7);
    assert_eq!(p.line_membership[&1], vec![10, 20]);
    assert_eq!(p.line_membership[&2], vec![10]);
    assert!(!p.line_membership.contains_key(&6));
    assert_eq!(p.transfer_stations.len(), 1);
    assert!(p.transfer_stations.contains(&1));
    assert!(p.circle_line_ids.is_empty());
    assert_eq!(p.anchor_set.len(), 2);
    assert!(p.anchor_set.contains(&5) && p.anchor_set.contains(&2));
}

#[test]
fn station_listed_twice_on_a_line_counts_twice() {
    let mut net = cross();
    net.lines.push(line(30, vec![6, 6], false));
    let p = preprocess(&net, &vec![]);
    assert_eq!(p.line_membership[&6], vec![30, 30]);
    assert!(p.transfer_stations.contains(&6));
}

#[test]
fn labels_placed_termini_first_then_transfers() {
    let net = cross();
    assert_eq!(classify_station(&net, 2), StationClass::Terminus);
    assert_eq!(classify_station(&net, 1), StationClass::Transfer);
    assert_eq!(classify_station(&net, 6), StationClass::Regular);
    assert_eq!(label_order(&net), vec![2, 3, 4, 5, 1, 6]);
}

#[test]
fn first_best_direction_wins() {
    let scores = vec![-100, 0, 0, -50, -150, 0, 0, 0];
    let (dir, idx, conflict) = choose_direction(&scores);
    assert_eq!(idx, 1);
    assert_eq!(dir, LabelDirection::N);
    assert!(!conflict);
    let all_bad = vec![-150, -100, -200, -100, -150, -300, -100, -100];
    let (dir, idx, conflict) = choose_direction(&all_bad);
    assert_eq!((dir, idx, conflict), (LabelDirection::N, 1, true));
    let tie = vec![-50; 8];
    assert_eq!(choose_direction(&tie), (LabelDirection::E, 0, false));
    assert_eq!(placement_score(1, 1), -150);
    assert_eq!(placement_score(0, 0), 0);
    assert_eq!(direction_at(7), LabelDirection::Sw);
}

#[test]
fn render_offsets_are_centred() {
    let net = cross();
    let r = compute_edge_render_data(&net);
    assert_eq!(r.len(), 5);
    assert_eq!(r[3].0, 103);
    assert_eq!(r[3].1.bundle_order, vec![20, 10]);
    // 4.5 units apart, centred: -2.25 and 2.25, in quarters.
    assert_eq!(r[3].1.line_offsets, vec![(20, -9), (10, 9)]);
    assert_eq!(r[0].1.line_offsets, vec![(10, 0)]);
    assert!(r[4].1.line_offsets.is_empty());
    let three = Network { stations: vec![], edges: vec![edge(1, 1, 2, vec![7, 8, 9])], lines: vec![] };
    let r = compute_edge_render_data(&three);
    let offs: Vec<f64> = r[0].1.line_offsets.iter().map(|(_, q)| *q as f64 / 4.0).collect();
    assert_eq!(offs, vec![-4.5, 0.0, 4.5]);
}

#[test]
fn swap_exchanges_and_swapping_again_restores() {
    let mut pos: HashMap<u128, (f64, f64)> = HashMap::new();
    pos.insert(1, (0.0, 0.0));
    pos.insert(2, (5.0, 7.0));
    let before = pos.clone();
    assert!(op_swap(&mut pos, 1, 2));
    assert_eq!(pos[&1], (5.0, 7.0));
    assert_eq!(pos[&2], (0.0, 0.0));
    assert!(op_swap(&mut pos, 1, 2));
    assert_eq!(pos, before);
    assert!(!op_swap(&mut pos, 1, 3));
    assert_eq!(pos, before);
}

#[test]
fn rng_is_xorshift64() {
    let mut r = Rng::new(42);
    let mut s: u64 = 42;
    for _ in 0..5 {
        s ^= s << 13;
        s ^= s >> 7;
        s ^= s << 17;
        assert_eq!(r.next_u64(), s);
    }
    let mut r = Rng::new(1);
    assert_eq!(r.next_u64(), 1082269761);
    let mut a = Rng::new(7);
    let mut b = Rng::new(7);
    let x = a.next_usize(10);
    let y = b.next_u64();
    assert_eq!(x as u64, y % 10);
    assert!(x < 10);
}

#[test]
fn shapes_by_station_count() {
    assert_eq!(select_shape(3), PolygonShape::Rectangle);
    assert_eq!(select_shape(8), PolygonShape::Rectangle);
    assert_eq!(select_shape(9), PolygonShape::Octagon);
    assert_eq!(select_shape(16), PolygonShape::Octagon);
    assert_eq!(select_shape(17), PolygonShape::ElongatedOctagon);
}

#[test]
fn degree_equals_adjacency_length_when_edges_join_stations() {
    let mut net = cross();
    net.edges.pop();
    let p = preprocess(&net, &vec![]);
    let (adj, errors) = goblin_core::builder::build(&net);
    assert!(errors.is_empty());
    for s in 1..=6u128 {
        assert_eq!(p.degree[&s], adj[&s].len());
    }
    assert_eq!(p.degree[&1], 4);
}

fn corners(s: PolygonShape) -> usize {
    match s {
        PolygonShape::Rectangle => 4,
        _ => 8,
    }
}

#[test]
fn more_stations_never_give_fewer_corners() {
    for k in 0..40usize {
        assert!(corners(select_shape(k)) <= corners(select_shape(k + 1)));
    }
}

#[test]
fn swap_pair_skips_the_first_index() {
    let mut rng = Rng::new(1);
    // Outputs 1082269761 and 1152992998833853505: 1082269761 % 5 = 1, and
    // 1152992998833853505 % 4 = 1, which skips past index 1 to 2.
    assert_eq!(rng.pick_pair(5), (1, 2));
    for seed in 1..200u64 {
        let mut rng = Rng::new(seed);
        let (i, j) = rng.pick_pair(3);
        assert!(i < 3 && j < 3 && i != j);
    }
}

#[test]
fn segment_is_short_and_inside_the_line() {
    let mut rng = Rng::new(1);
    assert_eq!(rng.pick_segment(7), (6, 7));
    for seed in 1..200u64 {
        let mut rng = Rng::new(seed);
        let (start, end) = rng.pick_segment(10);
        assert!(start < end && end <= 10 && end - start <= 4);
    }
}

#[test]
fn interior_position_has_two_neighbours() {
    let mut rng = Rng::new(1);
    assert_eq!(rng.pick_interior(6), 2);
    for seed in 1..200u64 {
        let mut rng = Rng::new(seed);
        let idx = rng.pick_interior(3);
        assert_eq!(idx, 1);
    }
}
