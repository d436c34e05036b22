use vstd::prelude::*;
use vstd::string::StringExecFns;
use std::collections::HashMap;
use std::collections::HashSet;
use crate::types::{Network, Edge, Line, ValidationError, ValidationResponse, ErrorView, errors_view, has_station, connected, station_set, station_id_set, edges_connect};
use crate::ident::{uuid_text, uuid_string};

verus! {

broadcast use vstd::std_specs::hash::group_hash_axioms;

/// The adjacency list of a network: for every station, the pairs
/// (neighbour, edge) of the edges that touch it.
pub type AdjacencyList = HashMap<u128, Vec<(u128, u128)>>;

// ---------------------------------------------------------------------
// The errors that validation reports, stated over the network.
// ---------------------------------------------------------------------

pub open spec fn missing_source_error(e: Edge) -> ErrorView {
    (
        "EDGE_MISSING_SOURCE"@,
        "Edge "@ + uuid_text(e.id) + " references non-existent station "@ + uuid_text(e.source),
        Some(uuid_text(e.id)),
    )
}

pub open spec fn missing_target_error(e: Edge) -> ErrorView {
    (
        "EDGE_MISSING_TARGET"@,
        "Edge "@ + uuid_text(e.id) + " references non-existent station "@ + uuid_text(e.target),
        Some(uuid_text(e.id)),
    )
}

pub open spec fn duplicate_error(e: Edge) -> ErrorView {
    (
        "DUPLICATE_EDGE"@,
        "Duplicate edge between "@ + uuid_text(e.source) + " and "@ + uuid_text(e.target),
        Some(uuid_text(e.id)),
    )
}

pub open spec fn line_missing_error(line_id: u128, sid: u128) -> ErrorView {
    (
        "LINE_MISSING_STATION"@,
        "Line "@ + uuid_text(line_id) + " references non-existent station "@ + uuid_text(sid),
        Some(uuid_text(line_id)),
    )
}

pub open spec fn path_broken_error(line_id: u128, a: u128, b: u128) -> ErrorView {
    (
        "LINE_PATH_BROKEN"@,
        "Line "@ + uuid_text(line_id) + " has no edge between "@ + uuid_text(a) + " and "@
            + uuid_text(b),
        Some(uuid_text(line_id)),
    )
}

pub open spec fn loop_open_error(line_id: u128) -> ErrorView {
    (
        "LOOP_NOT_CLOSED"@,
        "Loop line "@ + uuid_text(line_id)
            + " is not closed (no edge between first and last station)"@,
        Some(uuid_text(line_id)),
    )
}

/// The errors for one edge whose endpoints are not stations of the network.
pub open spec fn edge_presence_errors_of(net: &Network, e: Edge) -> Seq<ErrorView> {
    (if has_station(net, e.source) {
        Seq::empty()
    } else {
        seq![missing_source_error(e)]
    }) + (if has_station(net, e.target) {
        Seq::empty()
    } else {
        seq![missing_target_error(e)]
    })
}

/// The missing-endpoint errors of the first `n` edges.
pub open spec fn edge_presence_errors(net: &Network, n: int) -> Seq<ErrorView>
    decreases n,
{
    if n <= 0 {
        Seq::empty()
    } else {
        edge_presence_errors(net, n - 1) + edge_presence_errors_of(net, net.edges@[n - 1])
    }
}

/// The unordered pair of stations that an edge joins, smaller first.
pub open spec fn norm_pair(e: Edge) -> (u128, u128) {
    if e.source < e.target {
        (e.source, e.target)
    } else {
        (e.target, e.source)
    }
}

/// Whether edge `k` joins the same pair of stations as an earlier edge.
pub open spec fn is_duplicate(edges: Seq<Edge>, k: int) -> bool {
    exists|j: int| 0 <= j < k && norm_pair(#[trigger] edges[j]) == norm_pair(edges[k])
}

/// The duplicate-edge errors of the first `n` edges.
pub open spec fn duplicate_errors(net: &Network, n: int) -> Seq<ErrorView>
    decreases n,
{
    if n <= 0 {
        Seq::empty()
    } else {
        duplicate_errors(net, n - 1) + if is_duplicate(net.edges@, n - 1) {
            seq![duplicate_error(net.edges@[n - 1])]
        } else {
            Seq::empty()
        }
    }
}

/// The missing-station errors of the first `n` stations of a line.
pub open spec fn line_missing_errors(net: &Network, line: Line, n: int) -> Seq<ErrorView>
    decreases n,
{
    if n <= 0 {
        Seq::empty()
    } else {
        line_missing_errors(net, line, n - 1) + if has_station(net, line.station_ids@[n - 1]) {
            Seq::empty()
        } else {
            seq![line_missing_error(line.id, line.station_ids@[n - 1])]
        }
    }
}

/// The broken-path errors of the first `n` consecutive station pairs of a line.
pub open spec fn line_broken_errors(net: &Network, line: Line, n: int) -> Seq<ErrorView>
    decreases n,
{
    if n <= 0 {
        Seq::empty()
    } else {
        let a = line.station_ids@[n - 1];
        let b = line.station_ids@[n];
        line_broken_errors(net, line, n - 1) + if connected(net.edges@, a, b) {
            Seq::empty()
        } else {
            seq![path_broken_error(line.id, a, b)]
        }
    }
}

/// All the errors of one line: its missing stations, then the consecutive
/// pairs that no edge joins, then an unclosed loop.
pub open spec fn line_errors_of(net: &Network, line: Line) -> Seq<ErrorView> {
    let ids = line.station_ids@;
    line_missing_errors(net, line, ids.len() as int) + if ids.len() >= 2 {
        line_broken_errors(net, line, ids.len() - 1) + if line.is_loop && !connected(
            net.edges@,
            ids[0],
            ids[ids.len() - 1],
        ) {
            seq![loop_open_error(line.id)]
        } else {
            Seq::empty()
        }
    } else {
        Seq::empty()
    }
}

/// The errors of the first `n` lines.
pub open spec fn lines_errors(net: &Network, n: int) -> Seq<ErrorView>
    decreases n,
{
    if n <= 0 {
        Seq::empty()
    } else {
        lines_errors(net, n - 1) + line_errors_of(net, net.lines@[n - 1])
    }
}

/// Everything that validation reports about a network, in order: the
/// edges' missing endpoints, the duplicate edges, then each line's errors.
pub open spec fn build_errors(net: &Network) -> Seq<ErrorView> {
    edge_presence_errors(net, net.edges@.len() as int) + duplicate_errors(
        net,
        net.edges@.len() as int,
    ) + lines_errors(net, net.lines@.len() as int)
}

// ---------------------------------------------------------------------
// The adjacency list, stated over the network.
// ---------------------------------------------------------------------

/// The adjacency entries that one edge gives station `k`: only edges whose
/// both endpoints are stations count.
pub open spec fn adj_entries_of(net: &Network, e: Edge, k: u128) -> Seq<(u128, u128)> {
    if has_station(net, e.source) && has_station(net, e.target) {
        (if e.source == k {
            seq![(e.target, e.id)]
        } else {
            Seq::empty()
        }) + (if e.target == k {
            seq![(e.source, e.id)]
        } else {
            Seq::empty()
        })
    } else {
        Seq::empty()
    }
}

/// The adjacency entries of station `k` from the first `n` edges.
pub open spec fn adj_entries(net: &Network, k: u128, n: int) -> Seq<(u128, u128)>
    decreases n,
{
    if n <= 0 {
        Seq::empty()
    } else {
        adj_entries(net, k, n - 1) + adj_entries_of(net, net.edges@[n - 1], k)
    }
}

/// `adj` is the adjacency list of the network: one entry per station,
/// listing its neighbours along the network's valid edges in edge order.
pub open spec fn is_adjacency_of(adj: Map<u128, Vec<(u128, u128)>>, net: &Network) -> bool {
    &&& adj.dom() == station_set(net)
    &&& forall|k: u128|
        #[trigger] adj.contains_key(k) ==> adj[k]@ == adj_entries(net, k, net.edges@.len() as int)
}

// ---------------------------------------------------------------------
// Executable code.
// ---------------------------------------------------------------------

/// `prefix` followed by the text of the identifier `id`.
fn with_id(prefix: &str, id: u128) -> (s: String)
    ensures
        s@ == prefix@ + uuid_text(id),
{
    let mut s = String::from_str(prefix);
    let t = uuid_string(id);
    s.append(t.as_str());
    s
}

/// `s` followed by `middle` and the text of the identifier `id`.
fn append_id(s: &mut String, middle: &str, id: u128)
    ensures
        final(s)@ == old(s)@ + middle@ + uuid_text(id),
{
    s.append(middle);
    let t = uuid_string(id);
    s.append(t.as_str());
}

fn make_error(code: &str, message: String, entity: u128) -> (e: ValidationError)
    ensures
        e.view_error() == (code@, message@, Some(uuid_text(entity))),
{
    ValidationError { code: String::from_str(code), message, entity_id: Some(uuid_string(entity)) }
}

proof fn lemma_errors_view_push(v: Seq<ValidationError>, e: ValidationError)
    ensures
        errors_view(v.push(e)) == errors_view(v).push(e.view_error()),
{
    assert(errors_view(v.push(e)) =~= errors_view(v).push(e.view_error()));
}

/// Validates a network and builds its adjacency list.
///
/// The errors are exactly `build_errors(network)`, in that order; the
/// adjacency list holds one entry per station with its neighbours along
/// the edges whose both endpoints exist.
pub fn build(network: &Network) -> (res: (AdjacencyList, Vec<ValidationError>))
    ensures
        is_adjacency_of(res.0@, network),
        errors_view(res.1@) == build_errors(network),
{
    let ids = station_id_set(network);
    let mut errors: Vec<ValidationError> = Vec::new();
    let mut adj: AdjacencyList = HashMap::new();

    let mut i: usize = 0;
    while i < network.stations.len()
        invariant
            0 <= i <= network.stations@.len(),
            forall|k: u128|
                adj@.contains_key(k) <==> exists|j: int|
                    0 <= j < i && (#[trigger] network.stations@[j]).id == k,
            forall|k: u128| #[trigger] adj@.contains_key(k) ==> adj@[k]@ == Seq::<(u128, u128)>::empty(),
        decreases network.stations@.len() - i,
    {
        adj.insert(network.stations[i].id, Vec::new());
        proof {
            assert forall|k: u128|
                adj@.contains_key(k) <==> exists|j: int|
                    0 <= j < i + 1 && (#[trigger] network.stations@[j]).id == k by {
                if adj@.contains_key(k) && k != network.stations@[i as int].id {
                    let j = choose|j: int| 0 <= j < i && (#[trigger] network.stations@[j]).id == k;
                }
            }
        }
        i += 1;
    }
    assert(adj@.dom() =~= station_set(network));

    let n_edges = network.edges.len();
    let mut i: usize = 0;
    while i < n_edges
        invariant
            n_edges == network.edges@.len(),
            0 <= i <= n_edges,
            ids@ == station_set(network),
            adj@.dom() == station_set(network),
            forall|k: u128| #[trigger] adj@.contains_key(k) ==> adj@[k]@ == adj_entries(network, k, i as int),
            errors_view(errors@) == edge_presence_errors(network, i as int),
        decreases n_edges - i,
    {
        let edge = &network.edges[i];
        let has_s = ids.contains(&edge.source);
        let has_t = ids.contains(&edge.target);
        assert(has_s == has_station(network, edge.source));
        assert(has_t == has_station(network, edge.target));
        let ghost before = errors@;
        if !has_s {
            let mut m = with_id("Edge ", edge.id);
            append_id(&mut m, " references non-existent station ", edge.source);
            let err = make_error("EDGE_MISSING_SOURCE", m, edge.id);
            proof { lemma_errors_view_push(errors@, err); }
            errors.push(err);
        }
        let ghost mid = errors@;
        if !has_t {
            let mut m = with_id("Edge ", edge.id);
            append_id(&mut m, " references non-existent station ", edge.target);
            let err = make_error("EDGE_MISSING_TARGET", m, edge.id);
            proof { lemma_errors_view_push(errors@, err); }
            errors.push(err);
        }
        assert(errors_view(errors@) =~= errors_view(before) + edge_presence_errors_of(network, *edge));
        let ghost old_adj = adj@;
        if has_s && has_t {
            let mut v = adj.remove(&edge.source).unwrap();
            v.push((edge.target, edge.id));
            adj.insert(edge.source, v);
            let mut w = adj.remove(&edge.target).unwrap();
            w.push((edge.source, edge.id));
            adj.insert(edge.target, w);
        }
        proof {
            assert(adj@.dom() =~= old_adj.dom());
            assert forall|k: u128| #[trigger] adj@.contains_key(k) implies adj@[k]@ == adj_entries(
                network,
                k,
                i + 1,
            ) by {
                assert(adj_entries(network, k, i + 1) == adj_entries(network, k, i as int)
                    + adj_entries_of(network, network.edges@[i as int], k));
                assert(old_adj.contains_key(k));
                if has_s && has_t {
                    if k == edge.source || k == edge.target {
                        assert(adj@[k]@ =~= old_adj[k]@ + adj_entries_of(network, *edge, k));
                    } else {
                        assert(adj@[k]@ =~= old_adj[k]@ + adj_entries_of(network, *edge, k));
                    }
                } else {
                    assert(adj@[k]@ =~= old_adj[k]@ + adj_entries_of(network, *edge, k));
                }
            }
        }
        i += 1;
    }

    let ghost presence = errors@;
    let mut seen_pairs: Vec<(u128, u128)> = Vec::new();
    let mut i: usize = 0;
    while i < n_edges
        invariant
            n_edges == network.edges@.len(),
            0 <= i <= n_edges,
            seen_pairs@.len() == i,
            forall|j: int| 0 <= j < i ==> #[trigger] seen_pairs@[j] == norm_pair(network.edges@[j]),
            errors_view(errors@) == edge_presence_errors(network, n_edges as int)
                + duplicate_errors(network, i as int),
        decreases n_edges - i,
    {
        let edge = &network.edges[i];
        let pair = if edge.source < edge.target {
            (edge.source, edge.target)
        } else {
            (edge.target, edge.source)
        };
        let mut found = false;
        let mut j: usize = 0;
        while j < seen_pairs.len()
            invariant
                0 <= j <= seen_pairs@.len(),
                found <==> exists|q: int| 0 <= q < j && seen_pairs@[q] == pair,
            decreases seen_pairs@.len() - j,
        {
            if seen_pairs[j].0 == pair.0 && seen_pairs[j].1 == pair.1 {
                found = true;
            }
            j += 1;
        }
        proof {
            if found {
                let q = choose|q: int| 0 <= q < i && seen_pairs@[q] == pair;
                assert(norm_pair(network.edges@[q]) == norm_pair(network.edges@[i as int]));
                assert(is_duplicate(network.edges@, i as int));
            }
            if is_duplicate(network.edges@, i as int) {
                let q = choose|q: int|
                    0 <= q < i && norm_pair(#[trigger] network.edges@[q]) == norm_pair(
                        network.edges@[i as int],
                    );
                assert(seen_pairs@[q] == pair);
            }
        }
        let ghost before = errors@;
        if found {
            let mut m = with_id("Duplicate edge between ", edge.source);
            append_id(&mut m, " and ", edge.target);
            let err = make_error("DUPLICATE_EDGE", m, edge.id);
            proof { lemma_errors_view_push(errors@, err); }
            errors.push(err);
        }
        seen_pairs.push(pair);
        assert(errors_view(errors@) =~= edge_presence_errors(network, n_edges as int)
            + duplicate_errors(network, i + 1));
        i += 1;
    }

    let n_lines = network.lines.len();
    let mut li: usize = 0;
    while li < n_lines
        invariant
            n_lines == network.lines@.len(),
            0 <= li <= n_lines,
            ids@ == station_set(network),
            errors_view(errors@) == edge_presence_errors(network, n_edges as int)
                + duplicate_errors(network, n_edges as int) + lines_errors(network, li as int),
            n_edges == network.edges@.len(),
        decreases n_lines - li,
    {
        let line = &network.lines[li];
        let ghost start = errors_view(errors@);
        let n_st = line.station_ids.len();
        let mut k: usize = 0;
        while k < n_st
            invariant
                n_st == line.station_ids@.len(),
                0 <= k <= n_st,
                ids@ == station_set(network),
                errors_view(errors@) == start + line_missing_errors(network, *line, k as int),
            decreases n_st - k,
        {
            let sid = line.station_ids[k];
            if !ids.contains(&sid) {
                let mut m = with_id("Line ", line.id);
                append_id(&mut m, " references non-existent station ", sid);
                let err = make_error("LINE_MISSING_STATION", m, line.id);
                proof { lemma_errors_view_push(errors@, err); }
                errors.push(err);
            }
            assert(errors_view(errors@) =~= start + line_missing_errors(network, *line, k + 1));
            k += 1;
        }
        if n_st >= 2 {
            let ghost mid = errors_view(errors@);
            let mut k: usize = 0;
            while k + 1 < n_st
                invariant
                    n_st == line.station_ids@.len(),
                    n_st >= 2,
                    0 <= k <= n_st - 1,
                    errors_view(errors@) == mid + line_broken_errors(network, *line, k as int),
                decreases n_st - k,
            {
                let a = line.station_ids[k];
                let b = line.station_ids[k + 1];
                if !edges_connect(&network.edges, a, b) {
                    let mut m = with_id("Line ", line.id);
                    append_id(&mut m, " has no edge between ", a);
                    append_id(&mut m, " and ", b);
                    let err = make_error("LINE_PATH_BROKEN", m, line.id);
                    proof { lemma_errors_view_push(errors@, err); }
                    errors.push(err);
                }
                assert(errors_view(errors@) =~= mid + line_broken_errors(network, *line, k + 1));
                k += 1;
            }
            if line.is_loop {
                let first = line.station_ids[0];
                let last = line.station_ids[n_st - 1];
                if !edges_connect(&network.edges, first, last) {
                    let m = with_id("Loop line ", line.id);
                    let mut m = m;
                    m.append(" is not closed (no edge between first and last station)");
                    let err = make_error("LOOP_NOT_CLOSED", m, line.id);
                    proof { lemma_errors_view_push(errors@, err); }
                    errors.push(err);
                }
            }
        }
        assert(errors_view(errors@) =~= start + line_errors_of(network, *line));
        assert(lines_errors(network, li + 1) == lines_errors(network, li as int) + line_errors_of(
            network,
            network.lines@[li as int],
        ));
        li += 1;
    }
    (adj, errors)
}

/// Whether validation found nothing to report.
pub open spec fn is_valid_network(net: &Network) -> bool {
    build_errors(net).len() == 0
}

/// Answers a validation request: the network is valid exactly when
/// validation reports no error, and the reported errors are returned.
pub fn validation_response(network: &Network) -> (r: ValidationResponse)
    ensures
        r.valid == is_valid_network(network),
        errors_view(r.errors@) == build_errors(network),
{
    let (_adj, errors) = build(network);
    let valid = errors.len() == 0;
    ValidationResponse { valid, errors }
}

proof fn lemma_adj_entries_symmetric(net: &Network, u: u128, v: u128, eid: u128, n: int)
    requires
        0 <= n <= net.edges@.len(),
        adj_entries(net, u, n).contains((v, eid)),
    ensures
        adj_entries(net, v, n).contains((u, eid)),
    decreases n,
{
    if n > 0 {
        let prev_u = adj_entries(net, u, n - 1);
        let prev_v = adj_entries(net, v, n - 1);
        let e = net.edges@[n - 1];
        let all_u = adj_entries(net, u, n);
        let all_v = adj_entries(net, v, n);
        let k = choose|k: int| 0 <= k < all_u.len() && all_u[k] == (v, eid);
        if k < prev_u.len() {
            assert(prev_u[k] == (v, eid));
            lemma_adj_entries_symmetric(net, u, v, eid, n - 1);
            let j = choose|j: int| 0 <= j < prev_v.len() && prev_v[j] == (u, eid);
            assert(all_v[j] == (u, eid));
        } else {
            let tail = adj_entries_of(net, e, v);
            assert(all_v == prev_v + tail);
            if e.source == u && e.target == v && all_u[k] == (e.target, e.id) {
                assert(tail.contains((e.source, e.id))) by {
                    if e.source == v {
                        assert(tail[1] == (e.source, e.id));
                    } else {
                        assert(tail[0] == (e.source, e.id));
                    }
                }
                let j = choose|j: int| 0 <= j < tail.len() && tail[j] == (u, eid);
                assert(all_v[prev_v.len() + j] == (u, eid));
            } else {
                assert(e.target == u && e.source == v);
                assert(tail[0] == (e.target, e.id));
                assert(all_v[prev_v.len() as int] == (u, eid));
            }
        }
    }
}

/// The adjacency list is symmetric: when `v` is listed as a neighbour of
/// `u` along an edge, `u` is listed as a neighbour of `v` along the same edge.
pub proof fn adjacency_symmetric(net: &Network, adj: Map<u128, Vec<(u128, u128)>>, u: u128, v: u128, eid: u128)
    requires
        is_adjacency_of(adj, net),
        adj.contains_key(u),
        adj[u]@.contains((v, eid)),
    ensures
        adj.contains_key(v),
        adj[v]@.contains((u, eid)),
{
    lemma_adj_entries_symmetric(net, u, v, eid, net.edges@.len() as int);
    lemma_adj_entries_members(net, u, v, eid, net.edges@.len() as int);
}

/// A neighbour listed in the adjacency entries is a station.
proof fn lemma_adj_entries_members(net: &Network, u: u128, v: u128, eid: u128, n: int)
    requires
        0 <= n <= net.edges@.len(),
        adj_entries(net, u, n).contains((v, eid)),
    ensures
        has_station(net, v),
        station_set(net).contains(v),
    decreases n,
{
    if n > 0 {
        let prev = adj_entries(net, u, n - 1);
        let all = adj_entries(net, u, n);
        let k = choose|k: int| 0 <= k < all.len() && all[k] == (v, eid);
        if k < prev.len() {
            assert(prev[k] == (v, eid));
            lemma_adj_entries_members(net, u, v, eid, n - 1);
        }
    }
}

// ---------------------------------------------------------------------
// Unclosed loops.
// ---------------------------------------------------------------------

/// No error of `s` has the code of an unclosed loop.
spec fn no_loop_code(s: Seq<ErrorView>) -> bool {
    forall|i: int| 0 <= i < s.len() ==> (#[trigger] s[i]).0 != "LOOP_NOT_CLOSED"@
}

/// Line `k` is a loop of two or more stations whose ends no edge joins.
spec fn loop_left_open(net: &Network, k: int) -> bool {
    let ids = net.lines@[k].station_ids@;
    net.lines@[k].is_loop && ids.len() >= 2 && !connected(net.edges@, ids[0], ids[ids.len() - 1])
}

proof fn lemma_code_lengths()
    ensures
        "LOOP_NOT_CLOSED"@.len() == 15,
        "EDGE_MISSING_SOURCE"@.len() == 19,
        "EDGE_MISSING_TARGET"@.len() == 19,
        "DUPLICATE_EDGE"@.len() == 14,
        "LINE_MISSING_STATION"@.len() == 20,
        "LINE_PATH_BROKEN"@.len() == 16,
{
    reveal_strlit("LOOP_NOT_CLOSED");
    reveal_strlit("EDGE_MISSING_SOURCE");
    reveal_strlit("EDGE_MISSING_TARGET");
    reveal_strlit("DUPLICATE_EDGE");
    reveal_strlit("LINE_MISSING_STATION");
    reveal_strlit("LINE_PATH_BROKEN");
}

proof fn lemma_concat_no_loop(a: Seq<ErrorView>, b: Seq<ErrorView>)
    requires
        no_loop_code(a),
        no_loop_code(b),
    ensures
        no_loop_code(a + b),
{
    assert forall|i: int| 0 <= i < (a + b).len() implies (#[trigger] (a + b)[i]).0
        != "LOOP_NOT_CLOSED"@ by {
        if i < a.len() {
            assert((a + b)[i] == a[i]);
        } else {
            assert((a + b)[i] == b[i - a.len()]);
        }
    }
}

proof fn lemma_single_no_loop(e: ErrorView)
    requires
        e.0.len() != 15,
    ensures
        no_loop_code(seq![e]),
{
    lemma_code_lengths();
    assert forall|i: int| 0 <= i < seq![e].len() implies (#[trigger] seq![e][i]).0
        != "LOOP_NOT_CLOSED"@ by {
        assert(seq![e][i] == e);
    }
}

proof fn lemma_empty_no_loop()
    ensures
        no_loop_code(Seq::<ErrorView>::empty()),
{
}

proof fn lemma_presence_no_loop(net: &Network, n: int)
    ensures
        no_loop_code(edge_presence_errors(net, n)),
    decreases n,
{
    lemma_code_lengths();
    if n > 0 {
        lemma_presence_no_loop(net, n - 1);
        let e = net.edges@[n - 1];
        lemma_empty_no_loop();
        lemma_single_no_loop(missing_source_error(e));
        lemma_single_no_loop(missing_target_error(e));
        let a: Seq<ErrorView> = if has_station(net, e.source) {
            Seq::empty()
        } else {
            seq![missing_source_error(e)]
        };
        let b: Seq<ErrorView> = if has_station(net, e.target) {
            Seq::empty()
        } else {
            seq![missing_target_error(e)]
        };
        lemma_concat_no_loop(a, b);
        lemma_concat_no_loop(edge_presence_errors(net, n - 1), a + b);
    }
}

proof fn lemma_duplicates_no_loop(net: &Network, n: int)
    ensures
        no_loop_code(duplicate_errors(net, n)),
    decreases n,
{
    lemma_code_lengths();
    if n > 0 {
        lemma_duplicates_no_loop(net, n - 1);
        lemma_empty_no_loop();
        lemma_single_no_loop(duplicate_error(net.edges@[n - 1]));
        let t: Seq<ErrorView> = if is_duplicate(net.edges@, n - 1) {
            seq![duplicate_error(net.edges@[n - 1])]
        } else {
            Seq::empty()
        };
        lemma_concat_no_loop(duplicate_errors(net, n - 1), t);
    }
}

proof fn lemma_missing_no_loop(net: &Network, line: Line, n: int)
    ensures
        no_loop_code(line_missing_errors(net, line, n)),
    decreases n,
{
    lemma_code_lengths();
    if n > 0 {
        lemma_missing_no_loop(net, line, n - 1);
        lemma_empty_no_loop();
        lemma_single_no_loop(line_missing_error(line.id, line.station_ids@[n - 1]));
        let t: Seq<ErrorView> = if has_station(net, line.station_ids@[n - 1]) {
            Seq::empty()
        } else {
            seq![line_missing_error(line.id, line.station_ids@[n - 1])]
        };
        lemma_concat_no_loop(line_missing_errors(net, line, n - 1), t);
    }
}

proof fn lemma_broken_no_loop(net: &Network, line: Line, n: int)
    ensures
        no_loop_code(line_broken_errors(net, line, n)),
    decreases n,
{
    lemma_code_lengths();
    if n > 0 {
        lemma_broken_no_loop(net, line, n - 1);
        lemma_empty_no_loop();
        let a = line.station_ids@[n - 1];
        let b = line.station_ids@[n];
        lemma_single_no_loop(path_broken_error(line.id, a, b));
        let t: Seq<ErrorView> = if connected(net.edges@, a, b) {
            Seq::empty()
        } else {
            seq![path_broken_error(line.id, a, b)]
        };
        lemma_concat_no_loop(line_broken_errors(net, line, n - 1), t);
    }
}

/// Within the errors of line `k`, the unclosed-loop errors are those of an
/// open loop, and an open loop has one.
proof fn lemma_line_loop_errors(net: &Network, k: int)
    requires
        0 <= k < net.lines@.len(),
    ensures
        forall|i: int|
            0 <= i < line_errors_of(net, net.lines@[k]).len() && (#[trigger] line_errors_of(
                net,
                net.lines@[k],
            )[i]).0 == "LOOP_NOT_CLOSED"@ ==> loop_left_open(net, k) && line_errors_of(
                net,
                net.lines@[k],
            )[i] == loop_open_error(net.lines@[k].id),
        loop_left_open(net, k) ==> line_errors_of(net, net.lines@[k]).contains(
            loop_open_error(net.lines@[k].id),
        ),
{
    let line = net.lines@[k];
    let ids = line.station_ids@;
    let all = line_errors_of(net, line);
    let m = line_missing_errors(net, line, ids.len() as int);
    lemma_missing_no_loop(net, line, ids.len() as int);
    lemma_code_lengths();
    if ids.len() >= 2 {
        let br = line_broken_errors(net, line, ids.len() - 1);
        lemma_broken_no_loop(net, line, ids.len() - 1);
        let open = line.is_loop && !connected(net.edges@, ids[0], ids[ids.len() - 1]);
        let tail: Seq<ErrorView> = if open {
            seq![loop_open_error(line.id)]
        } else {
            Seq::empty()
        };
        assert(all == m + (br + tail));
        assert forall|i: int|
            0 <= i < all.len() && (#[trigger] all[i]).0 == "LOOP_NOT_CLOSED"@ implies loop_left_open(
            net,
            k,
        ) && all[i] == loop_open_error(line.id) by {
            if i < m.len() {
                assert(all[i] == m[i]);
            } else if i < m.len() + br.len() {
                assert(all[i] == br[i - m.len()]);
            } else {
                assert(all[i] == tail[i - m.len() - br.len()]);
            }
        }
        if open {
            assert(all[(m.len() + br.len()) as int] == loop_open_error(line.id));
        }
    } else {
        assert(all == m + Seq::<ErrorView>::empty());
        assert forall|i: int|
            0 <= i < all.len() && (#[trigger] all[i]).0 == "LOOP_NOT_CLOSED"@ implies loop_left_open(
            net,
            k,
        ) && all[i] == loop_open_error(line.id) by {
            assert(all[i] == m[i]);
        }
    }
}

proof fn lemma_lines_loop_errors(net: &Network, n: int)
    requires
        0 <= n <= net.lines@.len(),
    ensures
        forall|i: int|
            0 <= i < lines_errors(net, n).len() && (#[trigger] lines_errors(net, n)[i]).0
                == "LOOP_NOT_CLOSED"@ ==> exists|k: int|
                0 <= k < n && loop_left_open(net, k) && lines_errors(net, n)[i] == loop_open_error(
                    (#[trigger] net.lines@[k]).id,
                ),
        forall|k: int|
            0 <= k < n && loop_left_open(net, k) ==> lines_errors(net, n).contains(
                loop_open_error((#[trigger] net.lines@[k]).id),
            ),
    decreases n,
{
    if n > 0 {
        lemma_lines_loop_errors(net, n - 1);
        lemma_line_loop_errors(net, n - 1);
        let prev = lines_errors(net, n - 1);
        let cur = line_errors_of(net, net.lines@[n - 1]);
        let all = lines_errors(net, n);
        assert(all == prev + cur);
        assert forall|i: int|
            0 <= i < all.len() && (#[trigger] all[i]).0 == "LOOP_NOT_CLOSED"@ implies exists|k: int|
            0 <= k < n && loop_left_open(net, k) && all[i] == loop_open_error(
                (#[trigger] net.lines@[k]).id,
            ) by {
            if i < prev.len() {
                assert(all[i] == prev[i]);
                let k = choose|k: int|
                    0 <= k < n - 1 && loop_left_open(net, k) && prev[i] == loop_open_error(
                        (#[trigger] net.lines@[k]).id,
                    );
                assert(net.lines@[k] == net.lines@[k]);
            } else {
                assert(all[i] == cur[i - prev.len()]);
                assert(net.lines@[n - 1] == net.lines@[n - 1]);
            }
        }
        assert forall|k: int|
            0 <= k < n && loop_left_open(net, k) implies all.contains(
            loop_open_error((#[trigger] net.lines@[k]).id),
        ) by {
            let e = loop_open_error(net.lines@[k].id);
            if k < n - 1 {
                let j = choose|j: int| 0 <= j < prev.len() && prev[j] == e;
                assert(all[j] == e);
            } else {
                let j = choose|j: int| 0 <= j < cur.len() && cur[j] == e;
                assert(all[prev.len() + j] == e);
            }
        }
    }
}

/// Validation reports an unclosed loop exactly for the loop lines of two
/// or more stations whose first and last stations no edge joins: every
/// `LOOP_NOT_CLOSED` error belongs to such a line, and every such line
/// gets one.
pub proof fn loop_errors_exactly(net: &Network)
    ensures
        forall|i: int|
            0 <= i < build_errors(net).len() && (#[trigger] build_errors(net)[i]).0
                == "LOOP_NOT_CLOSED"@ ==> exists|k: int|
                0 <= k < net.lines@.len() && {
                    let ids = (#[trigger] net.lines@[k]).station_ids@;
                    &&& net.lines@[k].is_loop
                    &&& ids.len() >= 2
                    &&& !connected(net.edges@, ids[0], ids[ids.len() - 1])
                    &&& build_errors(net)[i] == loop_open_error(net.lines@[k].id)
                },
        forall|k: int|
            0 <= k < net.lines@.len() && (#[trigger] net.lines@[k]).is_loop
                && net.lines@[k].station_ids@.len() >= 2 && !connected(
                net.edges@,
                net.lines@[k].station_ids@[0],
                net.lines@[k].station_ids@[net.lines@[k].station_ids@.len() - 1],
            ) ==> build_errors(net).contains(loop_open_error(net.lines@[k].id)),
{
    let ne = net.edges@.len() as int;
    let nl = net.lines@.len() as int;
    let pre = edge_presence_errors(net, ne) + duplicate_errors(net, ne);
    let le = lines_errors(net, nl);
    let all = build_errors(net);
    lemma_presence_no_loop(net, ne);
    lemma_duplicates_no_loop(net, ne);
    lemma_concat_no_loop(edge_presence_errors(net, ne), duplicate_errors(net, ne));
    lemma_lines_loop_errors(net, nl);
    assert(all == pre + le);
    assert forall|i: int|
        0 <= i < all.len() && (#[trigger] all[i]).0 == "LOOP_NOT_CLOSED"@ implies exists|k: int|
        0 <= k < net.lines@.len() && {
            let ids = (#[trigger] net.lines@[k]).station_ids@;
            &&& net.lines@[k].is_loop
            &&& ids.len() >= 2
            &&& !connected(net.edges@, ids[0], ids[ids.len() - 1])
            &&& all[i] == loop_open_error(net.lines@[k].id)
        } by {
        if i < pre.len() {
            assert(all[i] == pre[i]);
        } else {
            assert(all[i] == le[i - pre.len()]);
            let k = choose|k: int|
                0 <= k < nl && loop_left_open(net, k) && le[i - pre.len()] == loop_open_error(
                    (#[trigger] net.lines@[k]).id,
                );
            assert(net.lines@[k] == net.lines@[k]);
        }
    }
    assert forall|k: int|
        0 <= k < net.lines@.len() && (#[trigger] net.lines@[k]).is_loop
            && net.lines@[k].station_ids@.len() >= 2 && !connected(
            net.edges@,
            net.lines@[k].station_ids@[0],
            net.lines@[k].station_ids@[net.lines@[k].station_ids@.len() - 1],
        ) implies all.contains(loop_open_error(net.lines@[k].id)) by {
        assert(loop_left_open(net, k));
        let e = loop_open_error(net.lines@[k].id);
        let j = choose|j: int| 0 <= j < le.len() && le[j] == e;
        assert(all[pre.len() + j] == e);
    }
}

// ---------------------------------------------------------------------
// Every reported error has its cause, and every cause is reported.
// ---------------------------------------------------------------------

/// No station of the network has the identifier `x`.
pub open spec fn no_station(net: &Network, x: u128) -> bool {
    forall|i: int| 0 <= i < net.stations@.len() ==> (#[trigger] net.stations@[i]).id != x
}

/// Edges `a` and `b` join the same two stations, in either direction.
pub open spec fn same_stations(a: Edge, b: Edge) -> bool {
    (a.source == b.source && a.target == b.target) || (a.source == b.target && a.target
        == b.source)
}

/// `e` is one of the errors that validation may report on `net`, together
/// with its cause: an edge whose source or target is not a station; an
/// edge that joins the same two stations as an earlier edge; a station of
/// a line that is not a station of the network; two consecutive stations
/// of a line that no edge joins; a loop line whose first and last stations
/// no edge joins.
pub open spec fn error_justified(net: &Network, e: ErrorView) -> bool {
    let edges = net.edges@;
    let lines = net.lines@;
    ||| exists|k: int|
        0 <= k < edges.len() && e == missing_source_error(#[trigger] edges[k]) && no_station(
            net,
            edges[k].source,
        )
    ||| exists|k: int|
        0 <= k < edges.len() && e == missing_target_error(#[trigger] edges[k]) && no_station(
            net,
            edges[k].target,
        )
    ||| exists|j: int, k: int|
        #![trigger edges[j], edges[k]]
        0 <= j < k < edges.len() && e == duplicate_error(edges[k]) && same_stations(
            edges[j],
            edges[k],
        )
    ||| exists|k: int, j: int|
        #![trigger lines[k].station_ids@[j]]
        0 <= k < lines.len() && 0 <= j < lines[k].station_ids@.len() && e == line_missing_error(
            lines[k].id,
            lines[k].station_ids@[j],
        ) && no_station(net, lines[k].station_ids@[j])
    ||| exists|k: int, j: int|
        #![trigger lines[k].station_ids@[j]]
        0 <= k < lines.len() && 0 <= j && j + 1 < lines[k].station_ids@.len() && e
            == path_broken_error(lines[k].id, lines[k].station_ids@[j], lines[k].station_ids@[j + 1])
            && !connected(edges, lines[k].station_ids@[j], lines[k].station_ids@[j + 1])
    ||| exists|k: int|
        0 <= k < lines.len() && {
            let ids = (#[trigger] lines[k]).station_ids@;
            &&& lines[k].is_loop
            &&& ids.len() >= 2
            &&& !connected(edges, ids[0], ids[ids.len() - 1])
            &&& e == loop_open_error(lines[k].id)
        }
}

spec fn all_justified(net: &Network, s: Seq<ErrorView>) -> bool {
    forall|i: int| 0 <= i < s.len() ==> error_justified(net, #[trigger] s[i])
}

proof fn lemma_no_station(net: &Network, x: u128)
    ensures
        no_station(net, x) <==> !has_station(net, x),
{
    if !no_station(net, x) {
        let i = choose|i: int| 0 <= i < net.stations@.len() && (#[trigger] net.stations@[i]).id == x;
    }
}

proof fn lemma_concat_justified(net: &Network, a: Seq<ErrorView>, b: Seq<ErrorView>)
    requires
        all_justified(net, a),
        all_justified(net, b),
    ensures
        all_justified(net, a + b),
{
    assert forall|i: int| 0 <= i < (a + b).len() implies error_justified(net, #[trigger] (a + b)[i]) by {
        if i < a.len() {
            assert((a + b)[i] == a[i]);
        } else {
            assert((a + b)[i] == b[i - a.len()]);
        }
    }
}

proof fn lemma_single_justified(net: &Network, e: ErrorView)
    requires
        error_justified(net, e),
    ensures
        all_justified(net, seq![e]),
{
    assert forall|i: int| 0 <= i < seq![e].len() implies error_justified(net, #[trigger] seq![e][i]) by {
        assert(seq![e][i] == e);
    }
}

proof fn lemma_presence_justified(net: &Network, n: int)
    requires
        n <= net.edges@.len(),
    ensures
        all_justified(net, edge_presence_errors(net, n)),
    decreases n,
{
    if n > 0 {
        lemma_presence_justified(net, n - 1);
        let k = n - 1;
        let e = net.edges@[k];
        lemma_no_station(net, e.source);
        lemma_no_station(net, e.target);
        let a: Seq<ErrorView> = if has_station(net, e.source) {
            Seq::empty()
        } else {
            assert(error_justified(net, missing_source_error(net.edges@[k])));
            lemma_single_justified(net, missing_source_error(e));
            seq![missing_source_error(e)]
        };
        let b: Seq<ErrorView> = if has_station(net, e.target) {
            Seq::empty()
        } else {
            assert(error_justified(net, missing_target_error(net.edges@[k])));
            lemma_single_justified(net, missing_target_error(e));
            seq![missing_target_error(e)]
        };
        lemma_concat_justified(net, a, b);
        lemma_concat_justified(net, edge_presence_errors(net, n - 1), a + b);
    }
}

proof fn lemma_norm_pair(a: Edge, b: Edge)
    ensures
        (norm_pair(a) == norm_pair(b)) <==> same_stations(a, b),
{
}

proof fn lemma_duplicates_justified(net: &Network, n: int)
    requires
        n <= net.edges@.len(),
    ensures
        all_justified(net, duplicate_errors(net, n)),
    decreases n,
{
    if n > 0 {
        lemma_duplicates_justified(net, n - 1);
        let k = n - 1;
        let t: Seq<ErrorView> = if is_duplicate(net.edges@, k) {
            let j = choose|j: int|
                0 <= j < k && norm_pair(#[trigger] net.edges@[j]) == norm_pair(net.edges@[k]);
            lemma_norm_pair(net.edges@[j], net.edges@[k]);
            assert(error_justified(net, duplicate_error(net.edges@[k])));
            lemma_single_justified(net, duplicate_error(net.edges@[k]));
            seq![duplicate_error(net.edges@[k])]
        } else {
            Seq::empty()
        };
        lemma_concat_justified(net, duplicate_errors(net, n - 1), t);
    }
}

proof fn lemma_missing_justified(net: &Network, k: int, n: int)
    requires
        0 <= k < net.lines@.len(),
        n <= net.lines@[k].station_ids@.len(),
    ensures
        all_justified(net, line_missing_errors(net, net.lines@[k], n)),
    decreases n,
{
    if n > 0 {
        let line = net.lines@[k];
        lemma_missing_justified(net, k, n - 1);
        let j = n - 1;
        lemma_no_station(net, line.station_ids@[j]);
        let t: Seq<ErrorView> = if has_station(net, line.station_ids@[j]) {
            Seq::empty()
        } else {
            let e = line_missing_error(net.lines@[k].id, net.lines@[k].station_ids@[j]);
            assert(error_justified(net, e));
            lemma_single_justified(net, e);
            seq![e]
        };
        lemma_concat_justified(net, line_missing_errors(net, line, n - 1), t);
    }
}

proof fn lemma_broken_justified(net: &Network, k: int, n: int)
    requires
        0 <= k < net.lines@.len(),
        n < net.lines@[k].station_ids@.len(),
    ensures
        all_justified(net, line_broken_errors(net, net.lines@[k], n)),
    decreases n,
{
    if n > 0 {
        let line = net.lines@[k];
        lemma_broken_justified(net, k, n - 1);
        let j = n - 1;
        let a = line.station_ids@[j];
        let b = line.station_ids@[j + 1];
        let t: Seq<ErrorView> = if connected(net.edges@, a, b) {
            Seq::empty()
        } else {
            let e = path_broken_error(
                net.lines@[k].id,
                net.lines@[k].station_ids@[j],
                net.lines@[k].station_ids@[j + 1],
            );
            assert(error_justified(net, e));
            lemma_single_justified(net, e);
            seq![e]
        };
        lemma_concat_justified(net, line_broken_errors(net, line, n - 1), t);
    }
}

proof fn lemma_line_justified(net: &Network, k: int)
    requires
        0 <= k < net.lines@.len(),
    ensures
        all_justified(net, line_errors_of(net, net.lines@[k])),
{
    let line = net.lines@[k];
    let ids = line.station_ids@;
    lemma_missing_justified(net, k, ids.len() as int);
    let m = line_missing_errors(net, line, ids.len() as int);
    if ids.len() >= 2 {
        lemma_broken_justified(net, k, ids.len() - 1);
        let br = line_broken_errors(net, line, ids.len() - 1);
        let tail: Seq<ErrorView> = if line.is_loop && !connected(net.edges@, ids[0], ids[ids.len() - 1]) {
            let e = loop_open_error(net.lines@[k].id);
            assert(error_justified(net, e));
            lemma_single_justified(net, e);
            seq![e]
        } else {
            Seq::empty()
        };
        lemma_concat_justified(net, br, tail);
        lemma_concat_justified(net, m, br + tail);
        assert(line_errors_of(net, line) == m + (br + tail));
    } else {
        assert(line_errors_of(net, line) == m + Seq::<ErrorView>::empty());
    }
}

proof fn lemma_lines_justified(net: &Network, n: int)
    requires
        n <= net.lines@.len(),
    ensures
        all_justified(net, lines_errors(net, n)),
    decreases n,
{
    if n > 0 {
        lemma_lines_justified(net, n - 1);
        lemma_line_justified(net, n - 1);
        lemma_concat_justified(net, lines_errors(net, n - 1), line_errors_of(net, net.lines@[n - 1]));
    }
}

/// Every error that validation reports has its cause in the network (see
/// `error_justified`): nothing is reported about a network without a
/// problem of the reported kind.
pub proof fn errors_are_justified(net: &Network)
    ensures
        forall|i: int|
            0 <= i < build_errors(net).len() ==> error_justified(net, #[trigger] build_errors(net)[i]),
{
    let ne = net.edges@.len() as int;
    lemma_presence_justified(net, ne);
    lemma_duplicates_justified(net, ne);
    lemma_lines_justified(net, net.lines@.len() as int);
    lemma_concat_justified(net, edge_presence_errors(net, ne), duplicate_errors(net, ne));
    lemma_concat_justified(
        net,
        edge_presence_errors(net, ne) + duplicate_errors(net, ne),
        lines_errors(net, net.lines@.len() as int),
    );
}

proof fn lemma_contains_concat(a: Seq<ErrorView>, b: Seq<ErrorView>, e: ErrorView)
    requires
        a.contains(e) || b.contains(e),
    ensures
        (a + b).contains(e),
{
    if a.contains(e) {
        let i = choose|i: int| 0 <= i < a.len() && a[i] == e;
        assert((a + b)[i] == e);
    } else {
        let i = choose|i: int| 0 <= i < b.len() && b[i] == e;
        assert((a + b)[a.len() + i] == e);
    }
}

proof fn lemma_single_contains(e: ErrorView)
    ensures
        seq![e].contains(e),
{
    assert(seq![e][0] == e);
}

proof fn lemma_presence_complete(net: &Network, n: int, k: int)
    requires
        0 <= k < n <= net.edges@.len(),
    ensures
        no_station(net, net.edges@[k].source) ==> edge_presence_errors(net, n).contains(
            missing_source_error(net.edges@[k]),
        ),
        no_station(net, net.edges@[k].target) ==> edge_presence_errors(net, n).contains(
            missing_target_error(net.edges@[k]),
        ),
    decreases n,
{
    let prev = edge_presence_errors(net, n - 1);
    let e = net.edges@[n - 1];
    let a: Seq<ErrorView> = if has_station(net, e.source) {
        Seq::empty()
    } else {
        seq![missing_source_error(e)]
    };
    let b: Seq<ErrorView> = if has_station(net, e.target) {
        Seq::empty()
    } else {
        seq![missing_target_error(e)]
    };
    assert(edge_presence_errors(net, n) == prev + (a + b));
    lemma_no_station(net, e.source);
    lemma_no_station(net, e.target);
    lemma_single_contains(missing_source_error(e));
    lemma_single_contains(missing_target_error(e));
    if k < n - 1 {
        lemma_presence_complete(net, n - 1, k);
        if no_station(net, net.edges@[k].source) {
            lemma_contains_concat(prev, a + b, missing_source_error(net.edges@[k]));
        }
        if no_station(net, net.edges@[k].target) {
            lemma_contains_concat(prev, a + b, missing_target_error(net.edges@[k]));
        }
    } else {
        if no_station(net, e.source) {
            lemma_contains_concat(a, b, missing_source_error(e));
            lemma_contains_concat(prev, a + b, missing_source_error(e));
        }
        if no_station(net, e.target) {
            lemma_contains_concat(a, b, missing_target_error(e));
            lemma_contains_concat(prev, a + b, missing_target_error(e));
        }
    }
}

proof fn lemma_duplicates_complete(net: &Network, n: int, j: int, k: int)
    requires
        0 <= j < k < n <= net.edges@.len(),
        same_stations(net.edges@[j], net.edges@[k]),
    ensures
        duplicate_errors(net, n).contains(duplicate_error(net.edges@[k])),
    decreases n,
{
    let prev = duplicate_errors(net, n - 1);
    let t: Seq<ErrorView> = if is_duplicate(net.edges@, n - 1) {
        seq![duplicate_error(net.edges@[n - 1])]
    } else {
        Seq::empty()
    };
    assert(duplicate_errors(net, n) == prev + t);
    if k < n - 1 {
        lemma_duplicates_complete(net, n - 1, j, k);
        lemma_contains_concat(prev, t, duplicate_error(net.edges@[k]));
    } else {
        lemma_norm_pair(net.edges@[j], net.edges@[k]);
        assert(is_duplicate(net.edges@, k));
        lemma_single_contains(duplicate_error(net.edges@[k]));
        lemma_contains_concat(prev, t, duplicate_error(net.edges@[k]));
    }
}

proof fn lemma_missing_complete(net: &Network, line: Line, n: int, j: int)
    requires
        0 <= j < n <= line.station_ids@.len(),
        no_station(net, line.station_ids@[j]),
    ensures
        line_missing_errors(net, line, n).contains(line_missing_error(line.id, line.station_ids@[j])),
    decreases n,
{
    let prev = line_missing_errors(net, line, n - 1);
    let x = line.station_ids@[n - 1];
    let t: Seq<ErrorView> = if has_station(net, x) {
        Seq::empty()
    } else {
        seq![line_missing_error(line.id, x)]
    };
    assert(line_missing_errors(net, line, n) == prev + t);
    let e = line_missing_error(line.id, line.station_ids@[j]);
    if j < n - 1 {
        lemma_missing_complete(net, line, n - 1, j);
    } else {
        lemma_no_station(net, x);
        lemma_single_contains(e);
    }
    lemma_contains_concat(prev, t, e);
}

proof fn lemma_broken_complete(net: &Network, line: Line, n: int, j: int)
    requires
        0 <= j < n < line.station_ids@.len(),
        !connected(net.edges@, line.station_ids@[j], line.station_ids@[j + 1]),
    ensures
        line_broken_errors(net, line, n).contains(
            path_broken_error(line.id, line.station_ids@[j], line.station_ids@[j + 1]),
        ),
    decreases n,
{
    let prev = line_broken_errors(net, line, n - 1);
    let a = line.station_ids@[n - 1];
    let b = line.station_ids@[n];
    let t: Seq<ErrorView> = if connected(net.edges@, a, b) {
        Seq::empty()
    } else {
        seq![path_broken_error(line.id, a, b)]
    };
    assert(line_broken_errors(net, line, n) == prev + t);
    let e = path_broken_error(line.id, line.station_ids@[j], line.station_ids@[j + 1]);
    if j < n - 1 {
        lemma_broken_complete(net, line, n - 1, j);
    } else {
        lemma_single_contains(e);
    }
    lemma_contains_concat(prev, t, e);
}

proof fn lemma_line_complete(net: &Network, line: Line, e: ErrorView)
    requires
        line_missing_errors(net, line, line.station_ids@.len() as int).contains(e) || (
        line.station_ids@.len() >= 2 && line_broken_errors(
            net,
            line,
            line.station_ids@.len() - 1,
        ).contains(e)),
    ensures
        line_errors_of(net, line).contains(e),
{
    let ids = line.station_ids@;
    let m = line_missing_errors(net, line, ids.len() as int);
    if ids.len() >= 2 {
        let br = line_broken_errors(net, line, ids.len() - 1);
        let tail: Seq<ErrorView> = if line.is_loop && !connected(net.edges@, ids[0], ids[ids.len() - 1]) {
            seq![loop_open_error(line.id)]
        } else {
            Seq::empty()
        };
        assert(line_errors_of(net, line) == m + (br + tail));
        if !m.contains(e) {
            lemma_contains_concat(br, tail, e);
        }
        lemma_contains_concat(m, br + tail, e);
    } else {
        assert(line_errors_of(net, line) == m + Seq::<ErrorView>::empty());
        lemma_contains_concat(m, Seq::<ErrorView>::empty(), e);
    }
}

proof fn lemma_lines_complete(net: &Network, n: int, k: int, e: ErrorView)
    requires
        0 <= k < n <= net.lines@.len(),
        line_errors_of(net, net.lines@[k]).contains(e),
    ensures
        lines_errors(net, n).contains(e),
    decreases n,
{
    if k < n - 1 {
        lemma_lines_complete(net, n - 1, k, e);
    }
    lemma_contains_concat(lines_errors(net, n - 1), line_errors_of(net, net.lines@[n - 1]), e);
}

proof fn lemma_in_build_errors(net: &Network, e: ErrorView)
    requires
        edge_presence_errors(net, net.edges@.len() as int).contains(e) || duplicate_errors(
            net,
            net.edges@.len() as int,
        ).contains(e) || lines_errors(net, net.lines@.len() as int).contains(e),
    ensures
        build_errors(net).contains(e),
{
    let ne = net.edges@.len() as int;
    let a = edge_presence_errors(net, ne);
    let b = duplicate_errors(net, ne);
    let c = lines_errors(net, net.lines@.len() as int);
    if a.contains(e) || b.contains(e) {
        lemma_contains_concat(a, b, e);
    }
    lemma_contains_concat(a + b, c, e);
}

/// Every problem of the network is reported: an edge whose source or
/// target is not a station, an edge that joins the same two stations as
/// an earlier one, a station of a line that is not a station of the
/// network, and two consecutive stations of a line that no edge joins
/// each give their error.
pub proof fn problems_are_reported(net: &Network)
    ensures
        forall|k: int|
            0 <= k < net.edges@.len() && no_station(net, (#[trigger] net.edges@[k]).source)
                ==> build_errors(net).contains(missing_source_error(net.edges@[k])),
        forall|k: int|
            0 <= k < net.edges@.len() && no_station(net, (#[trigger] net.edges@[k]).target)
                ==> build_errors(net).contains(missing_target_error(net.edges@[k])),
        forall|j: int, k: int|
            0 <= j < k < net.edges@.len() && same_stations(
                #[trigger] net.edges@[j],
                #[trigger] net.edges@[k],
            ) ==> build_errors(net).contains(duplicate_error(net.edges@[k])),
        forall|k: int, j: int|
            0 <= k < net.lines@.len() && 0 <= j < net.lines@[k].station_ids@.len() && no_station(
                net,
                #[trigger] net.lines@[k].station_ids@[j],
            ) ==> build_errors(net).contains(
                line_missing_error(net.lines@[k].id, net.lines@[k].station_ids@[j]),
            ),
        forall|k: int, j: int|
            0 <= k < net.lines@.len() && 0 <= j && j + 1 < net.lines@[k].station_ids@.len()
                && !connected(
                net.edges@,
                #[trigger] net.lines@[k].station_ids@[j],
                net.lines@[k].station_ids@[j + 1],
            ) ==> build_errors(net).contains(
                path_broken_error(
                    net.lines@[k].id,
                    net.lines@[k].station_ids@[j],
                    net.lines@[k].station_ids@[j + 1],
                ),
            ),
{
    let ne = net.edges@.len() as int;
    let nl = net.lines@.len() as int;
    assert forall|k: int|
        0 <= k < net.edges@.len() && no_station(net, (#[trigger] net.edges@[k]).source) implies build_errors(
        net,
    ).contains(missing_source_error(net.edges@[k])) by {
        lemma_presence_complete(net, ne, k);
        lemma_in_build_errors(net, missing_source_error(net.edges@[k]));
    }
    assert forall|k: int|
        0 <= k < net.edges@.len() && no_station(net, (#[trigger] net.edges@[k]).target) implies build_errors(
        net,
    ).contains(missing_target_error(net.edges@[k])) by {
        lemma_presence_complete(net, ne, k);
        lemma_in_build_errors(net, missing_target_error(net.edges@[k]));
    }
    assert forall|j: int, k: int|
        0 <= j < k < net.edges@.len() && same_stations(
            #[trigger] net.edges@[j],
            #[trigger] net.edges@[k],
        ) implies build_errors(net).contains(duplicate_error(net.edges@[k])) by {
        lemma_duplicates_complete(net, ne, j, k);
        lemma_in_build_errors(net, duplicate_error(net.edges@[k]));
    }
    assert forall|k: int, j: int|
        0 <= k < net.lines@.len() && 0 <= j < net.lines@[k].station_ids@.len() && no_station(
            net,
            #[trigger] net.lines@[k].station_ids@[j],
        ) implies build_errors(net).contains(
        line_missing_error(net.lines@[k].id, net.lines@[k].station_ids@[j]),
    ) by {
        let line = net.lines@[k];
        let e = line_missing_error(line.id, line.station_ids@[j]);
        lemma_missing_complete(net, line, line.station_ids@.len() as int, j);
        lemma_line_complete(net, line, e);
        lemma_lines_complete(net, nl, k, e);
        lemma_in_build_errors(net, e);
    }
    assert forall|k: int, j: int|
        0 <= k < net.lines@.len() && 0 <= j && j + 1 < net.lines@[k].station_ids@.len()
            && !connected(
            net.edges@,
            #[trigger] net.lines@[k].station_ids@[j],
            net.lines@[k].station_ids@[j + 1],
        ) implies build_errors(net).contains(
        path_broken_error(
            net.lines@[k].id,
            net.lines@[k].station_ids@[j],
            net.lines@[k].station_ids@[j + 1],
        ),
    ) by {
        let line = net.lines@[k];
        let e = path_broken_error(line.id, line.station_ids@[j], line.station_ids@[j + 1]);
        lemma_broken_complete(net, line, line.station_ids@.len() - 1, j);
        lemma_line_complete(net, line, e);
        lemma_lines_complete(net, nl, k, e);
        lemma_in_build_errors(net, e);
    }
}

} // verus!
