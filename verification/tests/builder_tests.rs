use goblin_core::builder::{build, validation_response};
use goblin_core::types::{Edge, Line, Network, Station};
use uuid::Uuid;

fn new_id() -> u128 {
    Uuid::new_v4().as_u128()
}

fn make_station(id: u128, name: &str) -> Station {
    Station { id, name: name.to_string() }
}

fn make_edge(id: u128, source: u128, target: u128) -> Edge {
    Edge { id, source, target, line_ids: vec![] }
}

fn make_line(id: u128, name: &str, station_ids: Vec<u128>, is_loop: bool) -> Line {
    Line {
        id,
        name: name.to_string(),
        code: None,
        color: "#ff0000".to_string(),
        station_ids,
        is_loop,
    }
}

fn linear_network() -> Network {
    let ids: Vec<u128> = (0..5).map(|_| new_id()).collect();
    let names = ["A", "B", "C", "D", "E"];
    let stations = ids.iter().zip(names.iter()).map(|(id, n)| make_station(*id, n)).collect();
    let l1 = new_id();
    let mut edges = Vec::new();
    for i in 0..4 {
        let mut e = make_edge(new_id(), ids[i], ids[i + 1]);
        e.line_ids.push(l1);
        edges.push(e);
    }
    Network { stations, edges, lines: vec![make_line(l1, "L1", ids.clone(), false)] }
}

fn text(id: u128) -> String {
    Uuid::from_u128(id).to_string()
}

#[test]
fn valid_linear_network_has_no_errors() {
    let net = linear_network();
    let (_, errors) = build(&net);
    assert!(errors.is_empty(), "Expected no errors but got {} errors", errors.len());
}

#[test]
fn missing_station_in_edge_returns_error() {
    let mut net = linear_network();
    let ghost = new_id();
    let eid = new_id();
    let first = net.stations[0].id;
    net.edges.push(make_edge(eid, ghost, first));
    let (_, errors) = build(&net);
    assert!(errors.iter().any(|e| e.code == "EDGE_MISSING_SOURCE"));
}

#[test]
fn duplicate_edge_returns_error() {
    let mut net = linear_network();
    let (a, b) = (net.stations[0].id, net.stations[1].id);
    let existing = net
        .edges
        .iter()
        .find(|e| (e.source == a && e.target == b) || (e.source == b && e.target == a))
        .map(|e| (e.source, e.target));
    if let Some((s, t)) = existing {
        let dup_id = new_id();
        net.edges.push(make_edge(dup_id, s, t));
        let (_, errors) = build(&net);
        assert!(errors.iter().any(|e| e.code == "DUPLICATE_EDGE"));
    }
}

#[test]
fn line_with_missing_station_returns_error() {
    let mut net = linear_network();
    let ghost = new_id();
    net.lines[0].station_ids.push(ghost);
    let (_, errors) = build(&net);
    assert!(errors.iter().any(|e| e.code == "LINE_MISSING_STATION"));
}

#[test]
fn line_with_broken_path_returns_error() {
    let mut net = linear_network();
    let ghost = new_id();
    net.stations.push(make_station(ghost, "Ghost"));
    net.lines[0].station_ids.push(ghost);
    let (_, errors) = build(&net);
    assert!(errors.iter().any(|e| e.code == "LINE_PATH_BROKEN"));
}

#[test]
fn missing_endpoint_messages_name_edge_and_station() {
    let a = 1u128;
    let ghost_s = 0x1234_5678_9abc_def0_0fed_cba9_8765_4321u128;
    let ghost_t = 7u128;
    let eid = 0xa1a2a3a4b1b2c1c2d1d2d3d4d5d6d7d8u128;
    let net = Network {
        stations: vec![make_station(a, "A")],
        edges: vec![make_edge(eid, ghost_s, ghost_t)],
        lines: vec![],
    };
    let (adj, errors) = build(&net);
    assert_eq!(errors.len(), 2);
    assert_eq!(errors[0].code, "EDGE_MISSING_SOURCE");
    assert_eq!(
        errors[0].message,
        "Edge a1a2a3a4-b1b2-c1c2-d1d2-d3d4d5d6d7d8 references non-existent station 12345678-9abc-def0-0fed-cba987654321"
    );
    assert_eq!(errors[0].entity_id.as_deref(), Some("a1a2a3a4-b1b2-c1c2-d1d2-d3d4d5d6d7d8"));
    assert_eq!(errors[1].code, "EDGE_MISSING_TARGET");
    assert_eq!(
        errors[1].message,
        format!("Edge {} references non-existent station {}", text(eid), text(ghost_t))
    );
    assert_eq!(adj.len(), 1);
    assert!(adj[&a].is_empty());
}

#[test]
fn errors_come_in_order_edges_duplicates_lines() {
    let (a, b, c) = (11u128, 12u128, 13u128);
    let ghost = 99u128;
    let (e1, e2, e3) = (21u128, 22u128, 23u128);
    let (l1, l2) = (31u128, 32u128);
    let net = Network {
        stations: vec![make_station(a, "A"), make_station(b, "B"), make_station(c, "C")],
        edges: vec![make_edge(e1, a, b), make_edge(e2, b, a), make_edge(e3, c, ghost)],
        lines: vec![
            make_line(l1, "L1", vec![a, ghost, c], false),
            make_line(l2, "L2", vec![a, b, c], true),
        ],
    };
    let (_, errors) = build(&net);
    let codes: Vec<&str> = errors.iter().map(|e| e.code.as_str()).collect();
    assert_eq!(
        codes,
        vec![
            "EDGE_MISSING_TARGET",
            "DUPLICATE_EDGE",
            "LINE_MISSING_STATION",
            "LINE_PATH_BROKEN",
            "LINE_PATH_BROKEN",
            "LOOP_NOT_CLOSED",
        ]
    );
    assert_eq!(errors[1].message, format!("Duplicate edge between {} and {}", text(b), text(a)));
    assert_eq!(errors[1].entity_id, Some(text(e2)));
    assert_eq!(errors[2].message, format!("Line {} references non-existent station {}", text(l1), text(ghost)));
    assert_eq!(errors[3].message, format!("Line {} has no edge between {} and {}", text(l1), text(a), text(ghost)));
    assert_eq!(errors[4].message, format!("Line {} has no edge between {} and {}", text(l2), text(b), text(c)));
    assert_eq!(
        errors[5].message,
        format!("Loop line {} is not closed (no edge between first and last station)", text(l2))
    );
    assert_eq!(errors[5].entity_id, Some(text(l2)));
}

#[test]
fn adjacency_lists_both_directions_of_valid_edges() {
    let (a, b, c) = (1u128, 2u128, 3u128);
    let net = Network {
        stations: vec![make_station(a, "A"), make_station(b, "B"), make_station(c, "C")],
        edges: vec![make_edge(10, a, b), make_edge(11, b, c), make_edge(12, c, 77), make_edge(13, b, b)],
        lines: vec![],
    };
    let (adj, _) = build(&net);
    assert_eq!(adj.len(), 3);
    assert_eq!(adj[&a], vec![(b, 10)]);
    assert_eq!(adj[&b], vec![(a, 10), (c, 11), (b, 13), (b, 13)]);
    assert_eq!(adj[&c], vec![(b, 11)]);
}

#[test]
fn validation_response_reports_validity() {
    let net = linear_network();
    let r = validation_response(&net);
    assert!(r.valid);
    assert!(r.errors.is_empty());
    let mut bad = linear_network();
    bad.lines[0].is_loop = true;
    let r = validation_response(&bad);
    assert!(!r.valid);
    assert_eq!(r.errors.len(), 1);
    assert_eq!(r.errors[0].code, "LOOP_NOT_CLOSED");
}
