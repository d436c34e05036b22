use goblin_core::cycles::detect_line_cycles;
use goblin_core::types::{Edge, Line, Network, Station};
use uuid::Uuid;

fn new_id() -> u128 {
    Uuid::new_v4().as_u128()
}

fn station(id: u128, name: &str) -> Station {
    Station { id, name: name.to_string() }
}

fn edge(id: u128, source: u128, target: u128, line: u128) -> Edge {
    Edge { id, source, target, line_ids: vec![line] }
}

fn line(id: u128, name: &str, station_ids: Vec<u128>, is_loop: bool) -> Line {
    Line { id, name: name.to_string(), code: None, color: "#ff0000".to_string(), station_ids, is_loop }
}

fn linear_network() -> Network {
    let ids: Vec<u128> = (0..5).map(|_| new_id()).collect();
    let l1 = new_id();
    let stations = ids.iter().enumerate().map(|(i, id)| station(*id, &format!("S{}", i))).collect();
    let edges = (0..4).map(|i| edge(new_id(), ids[i], ids[i + 1], l1)).collect();
    Network { stations, edges, lines: vec![line(l1, "L1", ids, false)] }
}

fn cross_network() -> Network {
    let (center, n, s, w, e) = (new_id(), new_id(), new_id(), new_id(), new_id());
    let (l1, l2) = (new_id(), new_id());
    Network {
        stations: vec![station(center, "Center"), station(n, "N"), station(s, "S"), station(w, "W"), station(e, "E")],
        edges: vec![
            edge(new_id(), n, center, l1),
            edge(new_id(), center, s, l1),
            edge(new_id(), w, center, l2),
            edge(new_id(), center, e, l2),
        ],
        lines: vec![line(l1, "NS", vec![n, center, s], false), line(l2, "WE", vec![w, center, e], false)],
    }
}

fn circle_network() -> Network {
    let ids: Vec<u128> = (0..8).map(|_| new_id()).collect();
    let l1 = new_id();
    let stations = ids.iter().enumerate().map(|(i, id)| station(*id, &format!("S{}", i))).collect();
    let edges = (0..8).map(|i| edge(new_id(), ids[i], ids[(i + 1) % 8], l1)).collect();
    Network { stations, edges, lines: vec![line(l1, "Circle", ids, true)] }
}

#[test]
fn path_graph_has_no_cycles() {
    let net = linear_network();
    let cycles = detect_line_cycles(&net);
    assert!(cycles.is_empty(), "Linear network should have no cycles");
}

#[test]
fn explicit_loop_is_detected() {
    let net = circle_network();
    let cycles = detect_line_cycles(&net);
    assert_eq!(cycles.len(), 1);
}

#[test]
fn structural_loop_detected_without_flag() {
    let mut net = circle_network();
    net.lines[0].is_loop = false;
    let cycles = detect_line_cycles(&net);
    assert_eq!(cycles.len(), 1, "Structural check should detect the cycle even without is_loop=true");
}

#[test]
fn cross_network_has_no_cycles() {
    let net = cross_network();
    let cycles = detect_line_cycles(&net);
    assert!(cycles.is_empty());
}

#[test]
fn cycle_inside_line_found_by_search() {
    // The line a-b-c-d has no edge from a to d, but b, c and d form a
    // triangle that the search from a reaches.
    let (a, b, c, d) = (1u128, 2u128, 3u128, 4u128);
    let l = 50u128;
    let net = Network {
        stations: vec![station(a, "A"), station(b, "B"), station(c, "C"), station(d, "D")],
        edges: vec![edge(10, a, b, l), edge(11, b, c, l), edge(12, c, d, l), edge(13, d, b, l)],
        lines: vec![line(l, "L", vec![a, b, c, d], false)],
    };
    let cycles = detect_line_cycles(&net);
    assert!(cycles.contains(&l));
}

#[test]
fn double_edge_counts_as_cycle() {
    let (a, b, c) = (1u128, 2u128, 3u128);
    let l = 50u128;
    let net = Network {
        stations: vec![station(a, "A"), station(b, "B"), station(c, "C")],
        edges: vec![edge(10, a, b, l), edge(11, b, c, l), edge(12, b, a, l)],
        lines: vec![line(l, "L", vec![a, b, c], false)],
    };
    assert!(detect_line_cycles(&net).contains(&l));
}

#[test]
fn short_unflagged_line_is_never_circular() {
    let (a, b) = (1u128, 2u128);
    let l = 50u128;
    let net = Network {
        stations: vec![station(a, "A"), station(b, "B")],
        edges: vec![edge(10, a, b, l), edge(11, b, a, l)],
        lines: vec![line(l, "L", vec![a, b], false)],
    };
    assert!(detect_line_cycles(&net).is_empty());
}

#[test]
fn cycle_away_from_first_station_is_not_reached() {
    // The triangle b-c-d is not connected to the first station a within the line.
    let (a, b, c, d) = (1u128, 2u128, 3u128, 4u128);
    let l = 50u128;
    let net = Network {
        stations: vec![station(a, "A"), station(b, "B"), station(c, "C"), station(d, "D")],
        edges: vec![edge(11, b, c, l), edge(12, c, d, l), edge(13, d, b, l)],
        lines: vec![line(l, "L", vec![a, b, c, d], false)],
    };
    assert!(detect_line_cycles(&net).is_empty());
}
