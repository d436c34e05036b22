use vstd::prelude::*;
use std::collections::HashMap;
use std::collections::HashSet;
use crate::types::{Network, Edge, Line, connected, edges_connect};

verus! {

broadcast use vstd::std_specs::hash::group_hash_axioms;

/// Edge `e` joins two stations of the line whose stations are `ids`.
pub open spec fn edge_within(e: Edge, ids: Seq<u128>) -> bool {
    ids.contains(e.source) && ids.contains(e.target)
}

/// The neighbours of `x` along the first `n` edges that join two stations
/// of the line, in edge order (an edge seen from both of its ends).
pub open spec fn line_adj_entries(edges: Seq<Edge>, ids: Seq<u128>, x: u128, n: int) -> Seq<u128>
    decreases n,
{
    if n <= 0 {
        Seq::empty()
    } else {
        let e = edges[n - 1];
        line_adj_entries(edges, ids, x, n - 1) + if edge_within(e, ids) {
            (if e.source == x {
                seq![e.target]
            } else {
                Seq::empty()
            }) + (if e.target == x {
                seq![e.source]
            } else {
                Seq::empty()
            })
        } else {
            Seq::empty()
        }
    }
}

/// For each neighbour that `line_adj_entries` lists, the index of the edge
/// that put it there.
pub open spec fn line_adj_prov(edges: Seq<Edge>, ids: Seq<u128>, x: u128, n: int) -> Seq<int>
    decreases n,
{
    if n <= 0 {
        Seq::empty()
    } else {
        let e = edges[n - 1];
        line_adj_prov(edges, ids, x, n - 1) + if edge_within(e, ids) {
            (if e.source == x {
                seq![n - 1]
            } else {
                Seq::empty()
            }) + (if e.target == x {
                seq![n - 1]
            } else {
                Seq::empty()
            })
        } else {
            Seq::empty()
        }
    }
}

/// Edge `e` joins `x` and `y` (in either direction).
pub open spec fn joins(e: Edge, x: u128, y: u128) -> bool {
    (e.source == x && e.target == y) || (e.source == y && e.target == x)
}

/// Some edge among the line's own edges joins `x` and `y`.
pub open spec fn joined_within(edges: Seq<Edge>, ids: Seq<u128>, x: u128, y: u128) -> bool {
    exists|k: int| 0 <= k < edges.len() && edge_within(edges[k], ids) && joins(#[trigger] edges[k], x, y)
}

/// A walk of `n` steps from `s` to `t` along the edges that join two
/// stations of the line.
pub open spec fn line_walk(edges: Seq<Edge>, ids: Seq<u128>, s: u128, t: u128, n: nat) -> bool
    decreases n,
{
    if n == 0 {
        s == t
    } else {
        exists|m: u128|
            line_walk(edges, ids, s, m, (n - 1) as nat) && #[trigger] joined_within(edges, ids, m, t)
    }
}

/// `t` is in the part of the line's subgraph that `s` belongs to.
pub open spec fn line_reachable(edges: Seq<Edge>, ids: Seq<u128>, s: u128, t: u128) -> bool {
    exists|n: nat| #[trigger] line_walk(edges, ids, s, t, n)
}

/// The stations connected to `start` within the line's subgraph.
pub open spec fn line_component(edges: Seq<Edge>, ids: Seq<u128>, start: u128) -> Set<u128> {
    Set::new(|x: u128| line_reachable(edges, ids, start, x))
}

/// The indices of the line's edges inside that component.
pub open spec fn component_edges(edges: Seq<Edge>, ids: Seq<u128>, start: u128) -> Set<int> {
    Set::new(
        |k: int|
            0 <= k < edges.len() && edge_within(edges[k], ids) && line_reachable(
                edges,
                ids,
                start,
                edges[k].source,
            ),
    )
}

/// The component of `start` holds a cycle: it has at least as many edges
/// as stations (a connected graph without a cycle is a tree, with one edge
/// fewer than it has nodes; an edge from a station to itself, or two edges
/// between the same stations, make a cycle).
pub open spec fn component_has_cycle(edges: Seq<Edge>, ids: Seq<u128>, start: u128) -> bool {
    component_edges(edges, ids, start).len() >= line_component(edges, ids, start).len()
}

proof fn lemma_prov(edges: Seq<Edge>, ids: Seq<u128>, x: u128, n: int)
    requires
        0 <= n <= edges.len(),
    ensures
        line_adj_prov(edges, ids, x, n).len() == line_adj_entries(edges, ids, x, n).len(),
        forall|i: int|
            0 <= i < line_adj_prov(edges, ids, x, n).len() ==> {
                let k = #[trigger] line_adj_prov(edges, ids, x, n)[i];
                &&& 0 <= k < n
                &&& edge_within(edges[k], ids)
                &&& joins(edges[k], x, line_adj_entries(edges, ids, x, n)[i])
            },
        forall|k: int|
            0 <= k < n && edge_within(edges[k], ids) && (#[trigger] edges[k]).source == x ==> exists|i: int|
                0 <= i < line_adj_prov(edges, ids, x, n).len() && line_adj_prov(edges, ids, x, n)[i]
                    == k && line_adj_entries(edges, ids, x, n)[i] == edges[k].target,
        forall|k: int|
            0 <= k < n && edge_within(edges[k], ids) && (#[trigger] edges[k]).target == x ==> exists|i: int|
                0 <= i < line_adj_prov(edges, ids, x, n).len() && line_adj_prov(edges, ids, x, n)[i]
                    == k && line_adj_entries(edges, ids, x, n)[i] == edges[k].source,
        forall|i: int, j: int|
            0 <= i < line_adj_prov(edges, ids, x, n).len() && 0 <= j < line_adj_prov(
                edges,
                ids,
                x,
                n,
            ).len() && i != j && line_adj_entries(edges, ids, x, n)[i] != x
                && line_adj_entries(edges, ids, x, n)[i] == line_adj_entries(edges, ids, x, n)[j]
                ==> #[trigger] line_adj_prov(edges, ids, x, n)[i] != #[trigger] line_adj_prov(
                edges,
                ids,
                x,
                n,
            )[j],
    decreases n,
{
    if n > 0 {
        lemma_prov(edges, ids, x, n - 1);
        let pp = line_adj_prov(edges, ids, x, n - 1);
        let pe = line_adj_entries(edges, ids, x, n - 1);
        let p = line_adj_prov(edges, ids, x, n);
        let en = line_adj_entries(edges, ids, x, n);
        let e = edges[n - 1];
        assert forall|i: int| 0 <= i < pp.len() implies p[i] == pp[i] && en[i] == pe[i] by {}
        assert forall|i: int|
            0 <= i < p.len() implies {
                let k = #[trigger] p[i];
                &&& 0 <= k < n
                &&& edge_within(edges[k], ids)
                &&& joins(edges[k], x, en[i])
            } by {
            if i < pp.len() {
                assert(pp[i] == p[i]);
            }
        }
        assert forall|k: int|
            0 <= k < n && edge_within(edges[k], ids) && (#[trigger] edges[k]).source == x implies exists|i: int|
                0 <= i < p.len() && p[i] == k && en[i] == edges[k].target by {
            if k < n - 1 {
                let i = choose|i: int| 0 <= i < pp.len() && pp[i] == k && pe[i] == edges[k].target;
                assert(p[i] == k && en[i] == edges[k].target);
            } else {
                assert(p[pp.len() as int] == k);
            }
        }
        assert forall|k: int|
            0 <= k < n && edge_within(edges[k], ids) && (#[trigger] edges[k]).target == x implies exists|i: int|
                0 <= i < p.len() && p[i] == k && en[i] == edges[k].source by {
            if k < n - 1 {
                let i = choose|i: int| 0 <= i < pp.len() && pp[i] == k && pe[i] == edges[k].source;
                assert(p[i] == k && en[i] == edges[k].source);
            } else {
                if e.source == x {
                    assert(p[pp.len() as int + 1] == k);
                } else {
                    assert(p[pp.len() as int] == k);
                }
            }
        }
        assert forall|i: int, j: int|
            0 <= i < p.len() && 0 <= j < p.len() && i != j && en[i] != x && en[i] == en[j] implies #[trigger] p[i]
                != #[trigger] p[j] by {
            if i < pp.len() && j < pp.len() {
                assert(pp[i] == p[i] && pp[j] == p[j]);
            } else if i < pp.len() {
                assert(pp[i] == p[i]);
            } else if j < pp.len() {
                assert(pp[j] == p[j]);
            } else {
                // Both entries come from the last edge: it is a loop at `x`,
                // whose entries are `x` itself.
                assert(e.source == x && e.target == x);
            }
        }
    }
}

/// `adj` is the adjacency list of the subgraph that a line spans: one
/// entry per station of the line, with its neighbours in edge order.
pub open spec fn is_line_adjacency(adj: Map<u128, Vec<u128>>, edges: Seq<Edge>, ids: Seq<u128>) -> bool {
    &&& forall|x: u128| adj.contains_key(x) <==> ids.contains(x)
    &&& forall|x: u128|
        #[trigger] adj.contains_key(x) ==> adj[x]@ == line_adj_entries(edges, ids, x, edges.len() as int)
}

/// Every neighbour listed in `adj` has a list of its own.
pub open spec fn adjacency_closed(adj: Map<u128, Vec<u128>>) -> bool {
    forall|x: u128, y: u128| adj.contains_key(x) && #[trigger] adj[x]@.contains(y) ==> adj.contains_key(y)
}

proof fn lemma_line_adj_entries_within(edges: Seq<Edge>, ids: Seq<u128>, x: u128, y: u128, n: int)
    requires
        0 <= n <= edges.len(),
        line_adj_entries(edges, ids, x, n).contains(y),
    ensures
        ids.contains(y),
    decreases n,
{
    if n > 0 {
        let prev = line_adj_entries(edges, ids, x, n - 1);
        let e = edges[n - 1];
        let all = line_adj_entries(edges, ids, x, n);
        let k = choose|k: int| 0 <= k < all.len() && all[k] == y;
        if k < prev.len() {
            assert(prev[k] == y);
            lemma_line_adj_entries_within(edges, ids, x, y, n - 1);
        }
    }
}

/// Builds the adjacency list of the subgraph spanned by a line.
fn line_adjacency(network: &Network, line: &Line) -> (adj: HashMap<u128, Vec<u128>>)
    ensures
        is_line_adjacency(adj@, network.edges@, line.station_ids@),
        adjacency_closed(adj@),
{
    let ids = &line.station_ids;
    let mut station_set: HashSet<u128> = HashSet::new();
    let mut adj: HashMap<u128, Vec<u128>> = HashMap::new();
    let mut i: usize = 0;
    while i < ids.len()
        invariant
            0 <= i <= ids@.len(),
            forall|x: u128|
                station_set@.contains(x) <==> exists|j: int| 0 <= j < i && #[trigger] ids@[j] == x,
            forall|x: u128|
                adj@.contains_key(x) <==> exists|j: int| 0 <= j < i && #[trigger] ids@[j] == x,
            forall|x: u128| #[trigger] adj@.contains_key(x) ==> adj@[x]@ == Seq::<u128>::empty(),
        decreases ids@.len() - i,
    {
        station_set.insert(ids[i]);
        adj.insert(ids[i], Vec::new());
        proof {
            assert forall|x: u128|
                station_set@.contains(x) implies exists|j: int| 0 <= j < i + 1 && #[trigger] ids@[j] == x by {
                if x == ids@[i as int] {
                } else {
                    let j = choose|j: int| 0 <= j < i && #[trigger] ids@[j] == x;
                }
            }
            assert forall|x: u128|
                adj@.contains_key(x) implies exists|j: int| 0 <= j < i + 1 && #[trigger] ids@[j] == x by {
                if x == ids@[i as int] {
                } else {
                    let j = choose|j: int| 0 <= j < i && #[trigger] ids@[j] == x;
                }
            }
        }
        i += 1;
    }
    let ghost sids = line.station_ids@;
    let n_edges = network.edges.len();
    let mut k: usize = 0;
    while k < n_edges
        invariant
            n_edges == network.edges@.len(),
            sids == line.station_ids@,
            0 <= k <= n_edges,
            forall|x: u128| station_set@.contains(x) <==> sids.contains(x),
            forall|x: u128| adj@.contains_key(x) <==> sids.contains(x),
            forall|x: u128|
                #[trigger] adj@.contains_key(x) ==> adj@[x]@ == line_adj_entries(
                    network.edges@,
                    sids,
                    x,
                    k as int,
                ),
        decreases n_edges - k,
    {
        let edge = &network.edges[k];
        let ghost old_adj = adj@;
        let inside = station_set.contains(&edge.source) && station_set.contains(&edge.target);
        assert(inside ==> sids.contains(edge.source) && sids.contains(edge.target));
        assert(inside ==> old_adj.contains_key(edge.source) && old_adj.contains_key(edge.target));
        if inside {
            let mut v = match adj.remove(&edge.source) {
                Some(v) => v,
                None => Vec::new(),
            };
            v.push(edge.target);
            adj.insert(edge.source, v);
            let mut w = match adj.remove(&edge.target) {
                Some(w) => w,
                None => Vec::new(),
            };
            w.push(edge.source);
            adj.insert(edge.target, w);
        }
        proof {
            assert forall|x: u128| #[trigger] adj@.contains_key(x) implies adj@[x]@ == line_adj_entries(
                network.edges@,
                sids,
                x,
                k + 1,
            ) by {
                assert(old_adj.contains_key(x));
                assert(adj@[x]@ =~= line_adj_entries(network.edges@, sids, x, k + 1));
            }
        }
        k += 1;
    }
    proof {
        assert forall|x: u128, y: u128| adj@.contains_key(x) && #[trigger] adj@[x]@.contains(y) implies adj@.contains_key(y) by {
            lemma_line_adj_entries_within(network.edges@, sids, x, y, n_edges as int);
        }
    }
    adj
}

// ---------------------------------------------------------------------
// The search for a cycle, and what it finds.
// ---------------------------------------------------------------------

/// Node `u` may push its entry pointing to `y`: every entry except those
/// back to the node that `u` was reached from.
pub open spec fn pushable(tp: Map<u128, (u128, int)>, start: u128, u: u128, y: u128) -> bool {
    u == start || y != tp[u].0
}

/// A stack item that entry `i` of node `u` pushed.
pub open spec fn src_ok(
    adj: Map<u128, Vec<u128>>,
    tp: Map<u128, (u128, int)>,
    start: u128,
    order: Seq<u128>,
    item: (u128, Option<u128>),
    src: (u128, int),
) -> bool {
    let (u, i) = src;
    &&& order.contains(u)
    &&& 0 <= i < adj[u]@.len()
    &&& item == (adj[u]@[i], Some(u))
    &&& pushable(tp, start, u, adj[u]@[i])
}

/// Visited node `x` was first reached through entry `tp[x]`, of a node
/// visited earlier.
pub open spec fn tree_ok(
    adj: Map<u128, Vec<u128>>,
    tp: Map<u128, (u128, int)>,
    start: u128,
    order: Seq<u128>,
    idx: Map<u128, int>,
    x: u128,
) -> bool {
    let (p, i) = tp[x];
    &&& tp.contains_key(x)
    &&& order.contains(p)
    &&& idx[p] < idx[x]
    &&& 0 <= i < adj[p]@.len()
    &&& adj[p]@[i] == x
    &&& pushable(tp, start, p, x)
}

/// Entry `i` of node `u` was pushed: it is on the stack, or it was popped
/// and reached its target for the first time.
pub open spec fn was_pushed(
    tp: Map<u128, (u128, int)>,
    start: u128,
    order: Seq<u128>,
    srcs: Seq<(u128, int)>,
    u: u128,
    i: int,
) -> bool {
    (exists|q: int| 0 <= q < srcs.len() && srcs[q] == (u, i)) || (exists|x: u128|
        order.contains(x) && x != start && #[trigger] tp[x] == (u, i))
}

/// The state of the search: `order` lists the visited nodes, `idx` their
/// positions, `tp` how each was reached, and `srcs` the entry behind each
/// stack item. Entries of `cur.0` from `cur.1` on may still be unpushed.
pub open spec fn dfs_ok(
    adj: Map<u128, Vec<u128>>,
    edges: Seq<Edge>,
    ids: Seq<u128>,
    start: u128,
    order: Seq<u128>,
    idx: Map<u128, int>,
    tp: Map<u128, (u128, int)>,
    stack: Seq<(u128, Option<u128>)>,
    srcs: Seq<(u128, int)>,
    cur: Option<(u128, int)>,
) -> bool {
    &&& is_line_adjacency(adj, edges, ids)
    &&& ids.contains(start)
    &&& order.no_duplicates()
    &&& forall|x: u128|
        #[trigger] order.contains(x) ==> idx.contains_key(x) && 0 <= idx[x] < order.len()
            && order[idx[x]] == x
    &&& order.len() > 0 ==> order[0] == start
    &&& order.len() == 0 ==> stack == seq![(start, None::<u128>)] && srcs.len() == 0
    &&& order.len() > 0 ==> srcs.len() == stack.len()
    &&& forall|q: int| 0 <= q < srcs.len() ==> src_ok(adj, tp, start, order, stack[q], #[trigger] srcs[q])
    &&& forall|q1: int, q2: int|
        0 <= q1 < srcs.len() && 0 <= q2 < srcs.len() && q1 != q2 ==> #[trigger] srcs[q1]
            != #[trigger] srcs[q2]
    &&& forall|x: u128|
        #[trigger] order.contains(x) && x != start ==> tree_ok(adj, tp, start, order, idx, x)
    &&& forall|q: int, x: u128|
        0 <= q < srcs.len() && #[trigger] order.contains(x) && x != start ==> #[trigger] srcs[q]
            != tp[x]
    &&& forall|u: u128, i: int|
        #[trigger] order.contains(u) && 0 <= i < adj[u]@.len() && pushable(tp, start, u, adj[u]@[i])
            && !(cur matches Some(c) && u == c.0 && i >= c.1) ==> #[trigger] was_pushed(
            tp,
            start,
            order,
            srcs,
            u,
            i,
        )
    &&& forall|x: u128| #[trigger] order.contains(x) ==> line_reachable(edges, ids, start, x)
}

proof fn lemma_entry_joins(adj: Map<u128, Vec<u128>>, edges: Seq<Edge>, ids: Seq<u128>, u: u128, i: int)
    requires
        is_line_adjacency(adj, edges, ids),
        adj.contains_key(u),
        0 <= i < adj[u]@.len(),
    ensures
        0 <= line_adj_prov(edges, ids, u, edges.len() as int)[i] < edges.len(),
        edge_within(edges[line_adj_prov(edges, ids, u, edges.len() as int)[i]], ids),
        joins(edges[line_adj_prov(edges, ids, u, edges.len() as int)[i]], u, adj[u]@[i]),
        joined_within(edges, ids, u, adj[u]@[i]),
{
    lemma_prov(edges, ids, u, edges.len() as int);
    let p = line_adj_prov(edges, ids, u, edges.len() as int);
    assert(p[i] == p[i]);
    let k = p[i];
    assert(edge_within(edges[k], ids) && joins(edges[k], u, adj[u]@[i]));
}

proof fn lemma_walk_extend(edges: Seq<Edge>, ids: Seq<u128>, s: u128, m: u128, t: u128)
    requires
        line_reachable(edges, ids, s, m),
        joined_within(edges, ids, m, t),
    ensures
        line_reachable(edges, ids, s, t),
{
    let n = choose|n: nat| #[trigger] line_walk(edges, ids, s, m, n);
    assert(line_walk(edges, ids, s, t, n + 1));
}

/// A node reachable within the line's subgraph is a station of the line.
proof fn lemma_walk_in_ids(edges: Seq<Edge>, ids: Seq<u128>, s: u128, t: u128, n: nat)
    requires
        ids.contains(s),
        line_walk(edges, ids, s, t, n),
    ensures
        ids.contains(t),
    decreases n,
{
    if n > 0 {
        let m = choose|m: u128|
            line_walk(edges, ids, s, m, (n - 1) as nat) && #[trigger] joined_within(edges, ids, m, t);
        let k = choose|k: int|
            0 <= k < edges.len() && edge_within(edges[k], ids) && joins(#[trigger] edges[k], m, t);
    }
}

proof fn lemma_component_finite(edges: Seq<Edge>, ids: Seq<u128>, start: u128)
    requires
        ids.contains(start),
    ensures
        line_component(edges, ids, start).finite(),
        line_component(edges, ids, start).contains(start),
        component_edges(edges, ids, start).finite(),
{
    let c = line_component(edges, ids, start);
    assert(c.subset_of(ids.to_set())) by {
        assert forall|x: u128| c.contains(x) implies ids.to_set().contains(x) by {
            let n = choose|n: nat| #[trigger] line_walk(edges, ids, start, x, n);
            lemma_walk_in_ids(edges, ids, start, x, n);
        }
    }
    vstd::seq_lib::seq_to_set_is_finite(ids);
    vstd::set_lib::lemma_set_subset_finite(ids.to_set(), c);
    assert(line_walk(edges, ids, start, start, 0));
    vstd::set_lib::lemma_int_range(0, edges.len() as int);
    let r = vstd::set_lib::set_int_range(0, edges.len() as int);
    assert(component_edges(edges, ids, start).subset_of(r));
    vstd::set_lib::lemma_set_subset_finite(r, component_edges(edges, ids, start));
}

/// A shortest walk: `n` steps and no fewer.
proof fn lemma_shortest(edges: Seq<Edge>, ids: Seq<u128>, s: u128, t: u128, n: nat) -> (d: nat)
    requires
        line_walk(edges, ids, s, t, n),
    ensures
        d <= n,
        line_walk(edges, ids, s, t, d),
        forall|k: nat| k < d ==> !#[trigger] line_walk(edges, ids, s, t, k),
    decreases n,
{
    if exists|k: nat| k < n && #[trigger] line_walk(edges, ids, s, t, k) {
        let k = choose|k: nat| k < n && #[trigger] line_walk(edges, ids, s, t, k);
        lemma_shortest(edges, ids, s, t, k)
    } else {
        n
    }
}

/// The search ended without reaching any node twice: the component is a
/// tree, with one edge fewer than it has nodes.
proof fn lemma_no_revisit_means_tree(
    adj: Map<u128, Vec<u128>>,
    edges: Seq<Edge>,
    ids: Seq<u128>,
    start: u128,
    order: Seq<u128>,
    idx: Map<u128, int>,
    tp: Map<u128, (u128, int)>,
)
    requires
        order.len() > 0,
        dfs_ok(adj, edges, ids, start, order, idx, tp, Seq::empty(), Seq::empty(), None),
    ensures
        !component_has_cycle(edges, ids, start),
{
    let srcs = Seq::<(u128, int)>::empty();
    let c = line_component(edges, ids, start);
    lemma_component_finite(edges, ids, start);
    let vis = order.to_set();
    // Every neighbour of a visited node is visited.
    assert forall|u: u128, i: int|
        order.contains(u) && 0 <= i < adj[u]@.len() implies order.contains(adj[u]@[i]) by {
        if pushable(tp, start, u, adj[u]@[i]) {
            assert(was_pushed(tp, start, order, srcs, u, i));
            let x = choose|x: u128| order.contains(x) && x != start && #[trigger] tp[x] == (u, i);
            assert(tree_ok(adj, tp, start, order, idx, x));
        } else {
            assert(tree_ok(adj, tp, start, order, idx, u));
        }
    }
    // The component is the visited set.
    assert forall|x: u128| c.contains(x) implies order.contains(x) by {
        let n = choose|n: nat| #[trigger] line_walk(edges, ids, start, x, n);
        lemma_walk_visited(adj, edges, ids, start, order, x, n);
    }
    assert forall|x: u128| order.contains(x) implies c.contains(x) by {}
    assert(c =~= vis);
    order.unique_seq_to_set();
    // Every edge of the component is the tree edge of one of its nodes.
    let others = vis.remove(start);
    let tree_edge = |x: u128| line_adj_prov(edges, ids, tp[x].0, edges.len() as int)[tp[x].1];
    let ce = component_edges(edges, ids, start);
    assert forall|k: int| ce.contains(k) implies others.map(tree_edge).contains(k) by {
        let e = edges[k];
        let a = e.source;
        let b = e.target;
        assert(c.contains(a));
        let n = choose|n: nat| #[trigger] line_walk(edges, ids, start, a, n);
        lemma_walk_in_ids(edges, ids, start, a, n);
        assert(ids.contains(b));
        assert(adj.contains_key(a) && adj.contains_key(b));
        lemma_prov(edges, ids, a, edges.len() as int);
        lemma_prov(edges, ids, b, edges.len() as int);
        let pa = line_adj_prov(edges, ids, a, edges.len() as int);
        let pb = line_adj_prov(edges, ids, b, edges.len() as int);
        assert(edges[k].source == a);
        let ia = choose|ia: int|
            0 <= ia < pa.len() && pa[ia] == k && line_adj_entries(edges, ids, a, edges.len() as int)[ia]
                == b;
        assert(edges[k].target == b);
        let ib = choose|ib: int|
            0 <= ib < pb.len() && pb[ib] == k && line_adj_entries(edges, ids, b, edges.len() as int)[ib]
                == a;
        assert(adj[a]@[ia] == b);
        assert(adj[b]@[ib] == a);
        assert(order.contains(a) && order.contains(b));
        if pushable(tp, start, a, b) {
            assert(was_pushed(tp, start, order, srcs, a, ia));
            let x = choose|x: u128| order.contains(x) && x != start && #[trigger] tp[x] == (a, ia);
            assert(tree_ok(adj, tp, start, order, idx, x));
            assert(x == b);
            if a == b {
                assert(idx[a] < idx[a]);
            }
            assert(others.contains(b));
            assert(tree_edge(b) == k);
        } else {
            // `b` is the node that `a` was reached from, so `a` is not the one
            // `b` was reached from.
            assert(a != start);
            assert(tree_ok(adj, tp, start, order, idx, a));
            assert(tp[a].0 == b);
            if b != start {
                assert(tree_ok(adj, tp, start, order, idx, b));
                if tp[b].0 == a {
                    assert(idx[a] < idx[b]);
                    assert(idx[b] < idx[a]);
                }
            }
            assert(pushable(tp, start, b, a));
            assert(was_pushed(tp, start, order, srcs, b, ib));
            let x = choose|x: u128| order.contains(x) && x != start && #[trigger] tp[x] == (b, ib);
            assert(tree_ok(adj, tp, start, order, idx, x));
            assert(x == a);
            assert(others.contains(a));
            assert(tree_edge(a) == k);
        }
    }
    vstd::set_lib::lemma_map_size_bound(others, others.map(tree_edge), tree_edge);
    vstd::set_lib::lemma_len_subset(ce, others.map(tree_edge));
    assert(vis.contains(start));
}

proof fn lemma_walk_visited(
    adj: Map<u128, Vec<u128>>,
    edges: Seq<Edge>,
    ids: Seq<u128>,
    start: u128,
    order: Seq<u128>,
    x: u128,
    n: nat,
)
    requires
        is_line_adjacency(adj, edges, ids),
        ids.contains(start),
        order.contains(start),
        forall|u: u128, i: int|
            order.contains(u) && 0 <= i < adj[u]@.len() ==> order.contains(#[trigger] adj[u]@[i]),
        line_walk(edges, ids, start, x, n),
    ensures
        order.contains(x),
    decreases n,
{
    if n > 0 {
        let m = choose|m: u128|
            line_walk(edges, ids, start, m, (n - 1) as nat) && #[trigger] joined_within(edges, ids, m, x);
        lemma_walk_visited(adj, edges, ids, start, order, m, (n - 1) as nat);
        let k = choose|k: int|
            0 <= k < edges.len() && edge_within(edges[k], ids) && joins(#[trigger] edges[k], m, x);
        assert(ids.contains(m)) by {
            lemma_walk_in_ids(edges, ids, start, m, (n - 1) as nat);
        }
        assert(adj.contains_key(m));
        lemma_prov(edges, ids, m, edges.len() as int);
        let pm = line_adj_prov(edges, ids, m, edges.len() as int);
        if edges[k].source == m {
            let i = choose|i: int|
                0 <= i < pm.len() && pm[i] == k && line_adj_entries(edges, ids, m, edges.len() as int)[i]
                    == edges[k].target;
            assert(adj[m]@[i] == x);
        } else {
            let i = choose|i: int|
                0 <= i < pm.len() && pm[i] == k && line_adj_entries(edges, ids, m, edges.len() as int)[i]
                    == edges[k].source;
            assert(adj[m]@[i] == x);
        }
    }
}

/// The length of a shortest walk from `start` to `w` within the line.
pub open spec fn dist_to(edges: Seq<Edge>, ids: Seq<u128>, start: u128, w: u128) -> nat {
    choose|d: nat|
        #[trigger] line_walk(edges, ids, start, w, d) && forall|k: nat|
            k < d ==> !#[trigger] line_walk(edges, ids, start, w, k)
}

/// The node before `w` on a shortest walk from `start`.
pub open spec fn pred_node(edges: Seq<Edge>, ids: Seq<u128>, start: u128, w: u128) -> u128 {
    choose|m: u128|
        line_walk(edges, ids, start, m, (dist_to(edges, ids, start, w) - 1) as nat)
            && #[trigger] joined_within(edges, ids, m, w)
}

/// The edge between `pred_node(w)` and `w`.
pub open spec fn pred_edge(edges: Seq<Edge>, ids: Seq<u128>, start: u128, w: u128) -> int {
    choose|k: int|
        0 <= k < edges.len() && edge_within(edges[k], ids) && joins(
            #[trigger] edges[k],
            pred_node(edges, ids, start, w),
            w,
        )
}

proof fn lemma_pred(edges: Seq<Edge>, ids: Seq<u128>, start: u128, w: u128)
    requires
        line_reachable(edges, ids, start, w),
        w != start,
    ensures
        dist_to(edges, ids, start, w) >= 1,
        line_walk(edges, ids, start, w, dist_to(edges, ids, start, w)),
        forall|k: nat|
            k < dist_to(edges, ids, start, w) ==> !#[trigger] line_walk(edges, ids, start, w, k),
        line_walk(
            edges,
            ids,
            start,
            pred_node(edges, ids, start, w),
            (dist_to(edges, ids, start, w) - 1) as nat,
        ),
        0 <= pred_edge(edges, ids, start, w) < edges.len(),
        edge_within(edges[pred_edge(edges, ids, start, w)], ids),
        joins(edges[pred_edge(edges, ids, start, w)], pred_node(edges, ids, start, w), w),
{
    let n = choose|n: nat| #[trigger] line_walk(edges, ids, start, w, n);
    let d0 = lemma_shortest(edges, ids, start, w, n);
    assert(line_walk(edges, ids, start, w, d0) && forall|k: nat|
        k < d0 ==> !#[trigger] line_walk(edges, ids, start, w, k));
    let d = dist_to(edges, ids, start, w);
    assert(line_walk(edges, ids, start, w, d));
    assert(d != 0);
    let m = pred_node(edges, ids, start, w);
    assert(joined_within(edges, ids, m, w));
    let k = pred_edge(edges, ids, start, w);
}

proof fn lemma_joins_same_edge(e: Edge, a1: u128, b1: u128, a2: u128, b2: u128)
    requires
        joins(e, a1, b1),
        joins(e, a2, b2),
    ensures
        (a1 == a2 && b1 == b2) || (a1 == b2 && b1 == a2),
{
}

/// The edge that the injection from nodes to edges assigns to `w`: the
/// revisiting entry's edge for `start`, the edge through which a visited
/// node was first reached, and the last edge of a shortest walk otherwise.
pub open spec fn cyc_edge(
    edges: Seq<Edge>,
    ids: Seq<u128>,
    start: u128,
    order: Seq<u128>,
    tp: Map<u128, (u128, int)>,
    u: u128,
    i: int,
    w: u128,
) -> int {
    if w == start {
        line_adj_prov(edges, ids, u, edges.len() as int)[i]
    } else if order.contains(w) {
        line_adj_prov(edges, ids, tp[w].0, edges.len() as int)[tp[w].1]
    } else {
        pred_edge(edges, ids, start, w)
    }
}

/// The two nodes that `cyc_edge(.., w)` joins.
pub open spec fn cyc_ends(
    adj: Map<u128, Vec<u128>>,
    edges: Seq<Edge>,
    ids: Seq<u128>,
    start: u128,
    order: Seq<u128>,
    tp: Map<u128, (u128, int)>,
    u: u128,
    i: int,
    w: u128,
) -> (u128, u128) {
    if w == start {
        (u, adj[u]@[i])
    } else if order.contains(w) {
        (tp[w].0, w)
    } else {
        (pred_node(edges, ids, start, w), w)
    }
}

/// The conditions under which the search pops an entry `(u, i)` that leads
/// to a visited node.
pub open spec fn revisit_state(
    adj: Map<u128, Vec<u128>>,
    edges: Seq<Edge>,
    ids: Seq<u128>,
    start: u128,
    order: Seq<u128>,
    idx: Map<u128, int>,
    tp: Map<u128, (u128, int)>,
    stack: Seq<(u128, Option<u128>)>,
    srcs: Seq<(u128, int)>,
    u: u128,
    i: int,
) -> bool {
    &&& order.len() > 0
    &&& srcs.len() > 0
    &&& dfs_ok(adj, edges, ids, start, order, idx, tp, stack, srcs, None)
    &&& srcs[srcs.len() - 1] == (u, i)
    &&& order.contains(stack[stack.len() - 1].0)
}

proof fn lemma_cyc_edge_props(
    adj: Map<u128, Vec<u128>>,
    edges: Seq<Edge>,
    ids: Seq<u128>,
    start: u128,
    order: Seq<u128>,
    idx: Map<u128, int>,
    tp: Map<u128, (u128, int)>,
    stack: Seq<(u128, Option<u128>)>,
    srcs: Seq<(u128, int)>,
    u: u128,
    i: int,
    w: u128,
)
    requires
        revisit_state(adj, edges, ids, start, order, idx, tp, stack, srcs, u, i),
        line_component(edges, ids, start).contains(w),
    ensures
        0 <= cyc_edge(edges, ids, start, order, tp, u, i, w) < edges.len(),
        edge_within(edges[cyc_edge(edges, ids, start, order, tp, u, i, w)], ids),
        joins(
            edges[cyc_edge(edges, ids, start, order, tp, u, i, w)],
            cyc_ends(adj, edges, ids, start, order, tp, u, i, w).0,
            cyc_ends(adj, edges, ids, start, order, tp, u, i, w).1,
        ),
        component_edges(edges, ids, start).contains(cyc_edge(edges, ids, start, order, tp, u, i, w)),
{
    let last = srcs.len() - 1;
    assert(src_ok(adj, tp, start, order, stack[last], srcs[last]));
    let ends = cyc_ends(adj, edges, ids, start, order, tp, u, i, w);
    let k = cyc_edge(edges, ids, start, order, tp, u, i, w);
    if w == start {
        lemma_in_ids_if_visited(adj, edges, ids, start, order, u);
        lemma_entry_joins(adj, edges, ids, u, i);
        assert(line_reachable(edges, ids, start, u));
        assert(line_reachable(edges, ids, start, adj[u]@[i]));
    } else if order.contains(w) {
        assert(tree_ok(adj, tp, start, order, idx, w));
        let p = tp[w].0;
        lemma_in_ids_if_visited(adj, edges, ids, start, order, p);
        lemma_entry_joins(adj, edges, ids, p, tp[w].1);
        assert(line_reachable(edges, ids, start, p));
        assert(line_reachable(edges, ids, start, w));
    } else {
        lemma_pred(edges, ids, start, w);
        assert(line_reachable(edges, ids, start, pred_node(edges, ids, start, w)));
    }
    assert(line_reachable(edges, ids, start, ends.0));
    assert(line_reachable(edges, ids, start, ends.1));
    assert(line_reachable(edges, ids, start, edges[k].source));
}

proof fn lemma_inj_unvisited(
    edges: Seq<Edge>,
    ids: Seq<u128>,
    start: u128,
    w1: u128,
    w2: u128,
)
    requires
        line_reachable(edges, ids, start, w1),
        line_reachable(edges, ids, start, w2),
        w1 != start,
        w2 != start,
    ensures
        !(pred_node(edges, ids, start, w1) == w2 && pred_node(edges, ids, start, w2) == w1),
{
    lemma_pred(edges, ids, start, w1);
    lemma_pred(edges, ids, start, w2);
    let d1 = dist_to(edges, ids, start, w1);
    let d2 = dist_to(edges, ids, start, w2);
    if pred_node(edges, ids, start, w1) == w2 && pred_node(edges, ids, start, w2) == w1 {
        if d2 <= d1 - 1 {
            assert(!line_walk(edges, ids, start, w1, (d2 - 1) as nat));
        } else {
            assert(!line_walk(edges, ids, start, w2, (d1 - 1) as nat));
        }
    }
}

proof fn lemma_inj_start(
    adj: Map<u128, Vec<u128>>,
    edges: Seq<Edge>,
    ids: Seq<u128>,
    start: u128,
    order: Seq<u128>,
    idx: Map<u128, int>,
    tp: Map<u128, (u128, int)>,
    stack: Seq<(u128, Option<u128>)>,
    srcs: Seq<(u128, int)>,
    u: u128,
    i: int,
    w: u128,
)
    requires
        revisit_state(adj, edges, ids, start, order, idx, tp, stack, srcs, u, i),
        order.contains(w),
        w != start,
        cyc_edge(edges, ids, start, order, tp, u, i, w) == cyc_edge(
            edges,
            ids,
            start,
            order,
            tp,
            u,
            i,
            start,
        ),
    ensures
        ({
            let p = tp[w].0;
            let v = adj[u]@[i];
            !((u == p && v == w) || (u == w && v == p))
        }),
{
    let last = srcs.len() - 1;
    assert(src_ok(adj, tp, start, order, stack[last], srcs[last]));
    assert(tree_ok(adj, tp, start, order, idx, w));
    let v = adj[u]@[i];
    let p = tp[w].0;
    let j = tp[w].1;
    if u == p && v == w {
        assert(order.contains(w) && w != start);
        assert(srcs[last] != tp[w]);
        assert(i != j);
        if v == u {
            assert(idx[p] < idx[w]);
        } else {
            lemma_in_ids_if_visited(adj, edges, ids, start, order, u);
            lemma_prov(edges, ids, u, edges.len() as int);
            assert(adj[u]@[i] == adj[u]@[j]);
            assert(line_adj_prov(edges, ids, u, edges.len() as int)[i] != line_adj_prov(
                edges,
                ids,
                u,
                edges.len() as int,
            )[j]);
        }
    } else {
        assert(pushable(tp, start, u, v));
    }
}

proof fn lemma_cyc_edge_injective(
    adj: Map<u128, Vec<u128>>,
    edges: Seq<Edge>,
    ids: Seq<u128>,
    start: u128,
    order: Seq<u128>,
    idx: Map<u128, int>,
    tp: Map<u128, (u128, int)>,
    stack: Seq<(u128, Option<u128>)>,
    srcs: Seq<(u128, int)>,
    u: u128,
    i: int,
    w1: u128,
    w2: u128,
)
    requires
        revisit_state(adj, edges, ids, start, order, idx, tp, stack, srcs, u, i),
        line_component(edges, ids, start).contains(w1),
        line_component(edges, ids, start).contains(w2),
        cyc_edge(edges, ids, start, order, tp, u, i, w1) == cyc_edge(
            edges,
            ids,
            start,
            order,
            tp,
            u,
            i,
            w2,
        ),
    ensures
        w1 == w2,
{
    if w1 != w2 {
        let last = srcs.len() - 1;
        assert(src_ok(adj, tp, start, order, stack[last], srcs[last]));
        lemma_cyc_edge_props(adj, edges, ids, start, order, idx, tp, stack, srcs, u, i, w1);
        lemma_cyc_edge_props(adj, edges, ids, start, order, idx, tp, stack, srcs, u, i, w2);
        let k = cyc_edge(edges, ids, start, order, tp, u, i, w1);
        let e1 = cyc_ends(adj, edges, ids, start, order, tp, u, i, w1);
        let e2 = cyc_ends(adj, edges, ids, start, order, tp, u, i, w2);
        lemma_joins_same_edge(edges[k], e1.0, e1.1, e2.0, e2.1);
        let in1 = order.contains(w1);
        let in2 = order.contains(w2);
        if !in1 && !in2 {
            lemma_inj_unvisited(edges, ids, start, w1, w2);
        } else if !in1 || !in2 {
            if !in1 {
                if w2 != start {
                    assert(tree_ok(adj, tp, start, order, idx, w2));
                }
            } else {
                if w1 != start {
                    assert(tree_ok(adj, tp, start, order, idx, w1));
                }
            }
        } else if w1 != start && w2 != start {
            assert(tree_ok(adj, tp, start, order, idx, w1));
            assert(tree_ok(adj, tp, start, order, idx, w2));
        } else if w1 == start {
            lemma_inj_start(adj, edges, ids, start, order, idx, tp, stack, srcs, u, i, w2);
        } else {
            lemma_inj_start(adj, edges, ids, start, order, idx, tp, stack, srcs, u, i, w1);
        }
    }
}

/// The search popped an entry that leads to a node it had visited: the
/// component holds a cycle, with at least as many edges as nodes.
proof fn lemma_revisit_means_cycle(
    adj: Map<u128, Vec<u128>>,
    edges: Seq<Edge>,
    ids: Seq<u128>,
    start: u128,
    order: Seq<u128>,
    idx: Map<u128, int>,
    tp: Map<u128, (u128, int)>,
    stack: Seq<(u128, Option<u128>)>,
    srcs: Seq<(u128, int)>,
)
    requires
        order.len() > 0,
        srcs.len() > 0,
        dfs_ok(adj, edges, ids, start, order, idx, tp, stack, srcs, None),
        order.contains(stack[stack.len() - 1].0),
    ensures
        component_has_cycle(edges, ids, start),
{
    let c = line_component(edges, ids, start);
    lemma_component_finite(edges, ids, start);
    let ce = component_edges(edges, ids, start);
    let u = srcs[srcs.len() - 1].0;
    let i = srcs[srcs.len() - 1].1;
    assert(revisit_state(adj, edges, ids, start, order, idx, tp, stack, srcs, u, i));
    let g = |w: u128| cyc_edge(edges, ids, start, order, tp, u, i, w);
    assert forall|w1: u128, w2: u128|
        c.contains(w1) && c.contains(w2) && #[trigger] g(w1) == #[trigger] g(w2) implies w1 == w2 by {
        lemma_cyc_edge_injective(adj, edges, ids, start, order, idx, tp, stack, srcs, u, i, w1, w2);
    }
    let img = c.map(g);
    assert(img.subset_of(ce)) by {
        assert forall|k: int| img.contains(k) implies ce.contains(k) by {
            let w = choose|w: u128| c.contains(w) && g(w) == k;
            lemma_cyc_edge_props(adj, edges, ids, start, order, idx, tp, stack, srcs, u, i, w);
        }
    }
    vstd::set_lib::lemma_map_size(c, img, g);
    vstd::set_lib::lemma_len_subset(img, ce);
}

proof fn lemma_last_index(order: Seq<u128>, idx: Map<u128, int>, node: u128)
    requires
        order.len() > 0,
        order[order.len() - 1] == node,
        order.no_duplicates(),
        forall|x: u128|
            #[trigger] order.contains(x) ==> idx.contains_key(x) && 0 <= idx[x] < order.len()
                && order[idx[x]] == x,
    ensures
        idx[node] == order.len() - 1,
{
    assert(order.contains(node));
}

proof fn lemma_in_ids_if_visited(
    adj: Map<u128, Vec<u128>>,
    edges: Seq<Edge>,
    ids: Seq<u128>,
    start: u128,
    order: Seq<u128>,
    x: u128,
)
    requires
        ids.contains(start),
        is_line_adjacency(adj, edges, ids),
        forall|y: u128| #[trigger] order.contains(y) ==> line_reachable(edges, ids, start, y),
        order.contains(x),
    ensures
        ids.contains(x),
        adj.contains_key(x),
{
    assert(line_reachable(edges, ids, start, x));
    let n = choose|n: nat| #[trigger] line_walk(edges, ids, start, x, n);
    lemma_walk_in_ids(edges, ids, start, x, n);
}

/// Popping an unvisited node and visiting it keeps the search state sound.
proof fn visit_step(
    adj: Map<u128, Vec<u128>>,
    edges: Seq<Edge>,
    ids: Seq<u128>,
    start: u128,
    order: Seq<u128>,
    idx: Map<u128, int>,
    tp: Map<u128, (u128, int)>,
    stack: Seq<(u128, Option<u128>)>,
    srcs: Seq<(u128, int)>,
)
    requires
        dfs_ok(adj, edges, ids, start, order, idx, tp, stack, srcs, None),
        stack.len() > 0,
        !order.contains(stack[stack.len() - 1].0),
    ensures
        ({
            let n = order.len() as int;
            let node = stack[stack.len() - 1].0;
            let parent = stack[stack.len() - 1].1;
            let tp2 = if n > 0 {
                tp.insert(node, srcs[srcs.len() - 1])
            } else {
                tp
            };
            let srcs2 = if n > 0 {
                srcs.drop_last()
            } else {
                srcs
            };
            &&& dfs_ok(
                adj,
                edges,
                ids,
                start,
                order.push(node),
                idx.insert(node, n),
                tp2,
                stack.drop_last(),
                srcs2,
                Some((node, 0int)),
            )
            &&& (node == start <==> parent is None)
            &&& (node != start ==> parent == Some(tp2[node].0))
            &&& forall|q: int| 0 <= q < srcs2.len() ==> (#[trigger] srcs2[q]).0 != node
        }),
{
    let n = order.len() as int;
    let node = stack[stack.len() - 1].0;
    let parent = stack[stack.len() - 1].1;
    let tp2 = if n > 0 {
        tp.insert(node, srcs[srcs.len() - 1])
    } else {
        tp
    };
    let srcs2 = if n > 0 {
        srcs.drop_last()
    } else {
        srcs
    };
    let order2 = order.push(node);
    let idx2 = idx.insert(node, n);
    let stack2 = stack.drop_last();
    let cur2 = Some((node, 0int));
    if n == 0 {
        assert(stack == seq![(start, None::<u128>)]);
        assert(node == start);
    } else {
        assert(order.contains(start));
        assert(node != start);
        let last = srcs.len() - 1;
        assert(src_ok(adj, tp, start, order, stack[last], srcs[last]));
    }
    assert forall|x: u128| #[trigger] order2.contains(x) <==> (order.contains(x) || x == node) by {
        if order2.contains(x) {
            let k = choose|k: int| 0 <= k < order2.len() && order2[k] == x;
            if k < n {
                assert(order[k] == x);
            }
        }
        if order.contains(x) {
            let k = choose|k: int| 0 <= k < order.len() && order[k] == x;
            assert(order2[k] == x);
        }
        if x == node {
            assert(order2[n] == x);
        }
    }
    assert(order2.no_duplicates()) by {
        assert forall|a: int, b: int| 0 <= a < order2.len() && 0 <= b < order2.len() && a != b implies order2[a]
            != order2[b] by {
            if a == n {
                assert(order.contains(order2[b]));
            } else if b == n {
                assert(order.contains(order2[a]));
            }
        }
    }
    assert forall|x: u128| #[trigger] order2.contains(x) implies idx2.contains_key(x) && 0 <= idx2[x]
        < order2.len() && order2[idx2[x]] == x by {
        if x != node {
            assert(order.contains(x));
        }
    }
    assert forall|q: int| 0 <= q < srcs2.len() implies src_ok(adj, tp2, start, order2, stack2[q], #[trigger] srcs2[q]) by {
        assert(srcs2[q] == srcs[q]);
        assert(stack2[q] == stack[q]);
        assert(src_ok(adj, tp, start, order, stack[q], srcs[q]));
        assert(order.contains(srcs[q].0));
        assert(srcs[q].0 != node);
    }
    assert forall|q: int| 0 <= q < srcs2.len() implies (#[trigger] srcs2[q]).0 != node by {
        assert(srcs2[q] == srcs[q]);
        assert(src_ok(adj, tp, start, order, stack[q], srcs[q]));
    }
    assert forall|q1: int, q2: int|
        0 <= q1 < srcs2.len() && 0 <= q2 < srcs2.len() && q1 != q2 implies #[trigger] srcs2[q1]
            != #[trigger] srcs2[q2] by {
        assert(srcs2[q1] == srcs[q1] && srcs2[q2] == srcs[q2]);
    }
    assert forall|x: u128| #[trigger] order2.contains(x) && x != start implies tree_ok(
        adj,
        tp2,
        start,
        order2,
        idx2,
        x,
    ) by {
        if x == node {
            let last = srcs.len() - 1;
            let u = srcs[last].0;
            assert(tp2[node] == srcs[last]);
            assert(order.contains(u));
            assert(u != node);
        } else {
            assert(order.contains(x));
            assert(tree_ok(adj, tp, start, order, idx, x));
            assert(tp2[x] == tp[x]);
            let p = tp[x].0;
            assert(order.contains(p));
            assert(p != node);
        }
    }
    assert forall|q: int, x: u128|
        0 <= q < srcs2.len() && #[trigger] order2.contains(x) && x != start implies #[trigger] srcs2[q]
            != tp2[x] by {
        assert(srcs2[q] == srcs[q]);
        if x != node {
            assert(order.contains(x));
        }
    }
    assert forall|u: u128, i: int|
        #[trigger] order2.contains(u) && 0 <= i < adj[u]@.len() && pushable(tp2, start, u, adj[u]@[i])
            && !(cur2 matches Some(c) && u == c.0 && i >= c.1) implies #[trigger] was_pushed(
        tp2,
        start,
        order2,
        srcs2,
        u,
        i,
    ) by {
        assert(u != node);
        assert(order.contains(u));
        assert(pushable(tp, start, u, adj[u]@[i]));
        assert(was_pushed(tp, start, order, srcs, u, i));
        if exists|q: int| 0 <= q < srcs.len() && srcs[q] == (u, i) {
            let q = choose|q: int| 0 <= q < srcs.len() && srcs[q] == (u, i);
            if q == srcs.len() - 1 {
                assert(tp2[node] == (u, i));
                assert(order2.contains(node));
            } else {
                assert(srcs2[q] == (u, i));
            }
        } else {
            let x = choose|x: u128| order.contains(x) && x != start && #[trigger] tp[x] == (u, i);
            assert(tp2[x] == tp[x]);
            assert(order2.contains(x));
        }
    }
    assert forall|x: u128| #[trigger] order2.contains(x) implies line_reachable(edges, ids, start, x) by {
        if x == node {
            if n == 0 {
                assert(line_walk(edges, ids, start, start, 0));
            } else {
                let last = srcs.len() - 1;
                let u = srcs[last].0;
                lemma_in_ids_if_visited(adj, edges, ids, start, order, u);
                lemma_entry_joins(adj, edges, ids, u, srcs[last].1);
                lemma_walk_extend(edges, ids, start, u, node);
            }
        } else {
            assert(order.contains(x));
        }
    }
    if n > 0 {
        assert(order2[0] == order[0]);
    }
}

/// Pushing entry `j` of the node being visited keeps the search state sound.
proof fn push_step(
    adj: Map<u128, Vec<u128>>,
    edges: Seq<Edge>,
    ids: Seq<u128>,
    start: u128,
    order: Seq<u128>,
    idx: Map<u128, int>,
    tp: Map<u128, (u128, int)>,
    stack: Seq<(u128, Option<u128>)>,
    srcs: Seq<(u128, int)>,
    node: u128,
    j: int,
)
    requires
        dfs_ok(adj, edges, ids, start, order, idx, tp, stack, srcs, Some((node, j))),
        order.len() > 0,
        order[order.len() - 1] == node,
        adj.contains_key(node),
        0 <= j < adj[node]@.len(),
        pushable(tp, start, node, adj[node]@[j]),
        forall|q: int| 0 <= q < srcs.len() && (#[trigger] srcs[q]).0 == node ==> srcs[q].1 < j,
    ensures
        dfs_ok(
            adj,
            edges,
            ids,
            start,
            order,
            idx,
            tp,
            stack.push((adj[node]@[j], Some(node))),
            srcs.push((node, j)),
            Some((node, j + 1)),
        ),
        forall|q: int|
            0 <= q < srcs.push((node, j)).len() && (#[trigger] srcs.push((node, j))[q]).0 == node
                ==> srcs.push((node, j))[q].1 < j + 1,
{
    let stack2 = stack.push((adj[node]@[j], Some(node)));
    let srcs2 = srcs.push((node, j));
    let cur2 = Some((node, j + 1));
    assert(order.contains(node));
    lemma_last_index(order, idx, node);
    assert forall|q: int| 0 <= q < srcs2.len() implies src_ok(adj, tp, start, order, stack2[q], #[trigger] srcs2[q]) by {
        if q < srcs.len() {
            assert(srcs2[q] == srcs[q] && stack2[q] == stack[q]);
        }
    }
    assert forall|q1: int, q2: int|
        0 <= q1 < srcs2.len() && 0 <= q2 < srcs2.len() && q1 != q2 implies #[trigger] srcs2[q1]
            != #[trigger] srcs2[q2] by {
        if q1 < srcs.len() && q2 < srcs.len() {
            assert(srcs2[q1] == srcs[q1] && srcs2[q2] == srcs[q2]);
        } else if q1 < srcs.len() {
            assert(srcs2[q1] == srcs[q1]);
        } else {
            assert(srcs2[q2] == srcs[q2]);
        }
    }
    assert forall|q: int, x: u128|
        0 <= q < srcs2.len() && #[trigger] order.contains(x) && x != start implies #[trigger] srcs2[q]
            != tp[x] by {
        if q < srcs.len() {
            assert(srcs2[q] == srcs[q]);
        } else {
            assert(tree_ok(adj, tp, start, order, idx, x));
            assert(idx[tp[x].0] < idx[x]);
        }
    }
    assert forall|u: u128, i: int|
        #[trigger] order.contains(u) && 0 <= i < adj[u]@.len() && pushable(tp, start, u, adj[u]@[i])
            && !(cur2 matches Some(c) && u == c.0 && i >= c.1) implies #[trigger] was_pushed(
        tp,
        start,
        order,
        srcs2,
        u,
        i,
    ) by {
        if u == node && i == j {
            assert(srcs2[srcs.len() as int] == (u, i));
        } else {
            assert(was_pushed(tp, start, order, srcs, u, i));
            if exists|q: int| 0 <= q < srcs.len() && srcs[q] == (u, i) {
                let q = choose|q: int| 0 <= q < srcs.len() && srcs[q] == (u, i);
                assert(srcs2[q] == (u, i));
            }
        }
    }
    assert forall|q: int|
        0 <= q < srcs2.len() && (#[trigger] srcs2[q]).0 == node implies srcs2[q].1 < j + 1 by {
        if q < srcs.len() {
            assert(srcs2[q] == srcs[q]);
        }
    }
}

/// Skipping the entry back to the parent keeps the search state sound.
proof fn skip_step(
    adj: Map<u128, Vec<u128>>,
    edges: Seq<Edge>,
    ids: Seq<u128>,
    start: u128,
    order: Seq<u128>,
    idx: Map<u128, int>,
    tp: Map<u128, (u128, int)>,
    stack: Seq<(u128, Option<u128>)>,
    srcs: Seq<(u128, int)>,
    node: u128,
    j: int,
)
    requires
        dfs_ok(adj, edges, ids, start, order, idx, tp, stack, srcs, Some((node, j))),
        adj.contains_key(node),
        0 <= j < adj[node]@.len(),
        !pushable(tp, start, node, adj[node]@[j]),
    ensures
        dfs_ok(adj, edges, ids, start, order, idx, tp, stack, srcs, Some((node, j + 1))),
{
    let cur2 = Some((node, j + 1));
    assert forall|u: u128, i: int|
        #[trigger] order.contains(u) && 0 <= i < adj[u]@.len() && pushable(tp, start, u, adj[u]@[i])
            && !(cur2 matches Some(c) && u == c.0 && i >= c.1) implies #[trigger] was_pushed(
        tp,
        start,
        order,
        srcs,
        u,
        i,
    ) by {
        if u == node && i == j {
        } else {
        }
    }
}

/// After all entries of the node are handled, none is outstanding.
proof fn finish_step(
    adj: Map<u128, Vec<u128>>,
    edges: Seq<Edge>,
    ids: Seq<u128>,
    start: u128,
    order: Seq<u128>,
    idx: Map<u128, int>,
    tp: Map<u128, (u128, int)>,
    stack: Seq<(u128, Option<u128>)>,
    srcs: Seq<(u128, int)>,
    node: u128,
)
    requires
        dfs_ok(adj, edges, ids, start, order, idx, tp, stack, srcs, Some((node, adj[node]@.len() as int))),
    ensures
        dfs_ok(adj, edges, ids, start, order, idx, tp, stack, srcs, None),
{
    let cur: Option<(u128, int)> = None;
    assert forall|u: u128, i: int|
        #[trigger] order.contains(u) && 0 <= i < adj[u]@.len() && pushable(tp, start, u, adj[u]@[i])
            && !(cur matches Some(c) && u == c.0 && i >= c.1) implies #[trigger] was_pushed(
        tp,
        start,
        order,
        srcs,
        u,
        i,
    ) by {
    }
}

/// Depth-first search from `start` that tracks the node each node was
/// reached from; reports whether some node is reached a second time, which
/// happens exactly when the component of `start` holds a cycle.
fn has_cycle_dfs(
    adj: &HashMap<u128, Vec<u128>>,
    start: u128,
    Ghost(edges): Ghost<Seq<Edge>>,
    Ghost(ids): Ghost<Seq<u128>>,
) -> (r: bool)
    requires
        is_line_adjacency(adj@, edges, ids),
        adjacency_closed(adj@),
        ids.contains(start),
    ensures
        r == component_has_cycle(edges, ids, start),
{
    let ghost universe = adj@.dom();
    let mut visited: HashSet<u128> = HashSet::new();
    let mut stack: Vec<(u128, Option<u128>)> = Vec::new();
    stack.push((start, None));
    let ghost mut order: Seq<u128> = Seq::empty();
    let ghost mut idx: Map<u128, int> = Map::empty();
    let ghost mut tp: Map<u128, (u128, int)> = Map::empty();
    let ghost mut srcs: Seq<(u128, int)> = Seq::empty();
    proof {
        vstd::std_specs::hash::axiom_hashmap_view_finite_dom(*adj);
        assert(stack@ =~= seq![(start, None::<u128>)]);
    }
    loop
        invariant
            adjacency_closed(adj@),
            universe == adj@.dom(),
            universe.finite(),
            visited@.subset_of(universe),
            forall|i: int| 0 <= i < stack@.len() ==> universe.contains(#[trigger] stack@[i].0),
            forall|x: u128| visited@.contains(x) <==> order.contains(x),
            dfs_ok(adj@, edges, ids, start, order, idx, tp, stack@, srcs, None),
        decreases universe.len() - visited@.len(), stack@.len(),
    {
        proof {
            vstd::set_lib::lemma_len_subset(visited@, universe);
        }
        let ghost old_stack = stack@;
        match stack.pop() {
            None => {
                proof {
                    assert(old_stack.len() == 0);
                    if order.len() == 0 {
                        assert(old_stack == seq![(start, None::<u128>)]);
                        assert(old_stack.len() == 1);
                    }
                    assert(stack@ =~= Seq::<(u128, Option<u128>)>::empty());
                    assert(srcs =~= Seq::<(u128, int)>::empty());
                    lemma_no_revisit_means_tree(adj@, edges, ids, start, order, idx, tp);
                }
                return false;
            },
            Some((node, parent)) => {
                if visited.contains(&node) {
                    proof {
                        assert(visited@.contains(node));
                        assert(order.contains(node));
                        assert(order.len() > 0);
                        assert(old_stack[old_stack.len() - 1].0 == node);
                        lemma_revisit_means_cycle(adj@, edges, ids, start, order, idx, tp, old_stack, srcs);
                    }
                    return true;
                }
                proof {
                    visit_step(adj@, edges, ids, start, order, idx, tp, old_stack, srcs);
                }
                visited.insert(node);
                let ghost old_order = order;
                proof {
                    let n = order.len() as int;
                    if n > 0 {
                        let src = srcs[srcs.len() - 1];
                        tp = tp.insert(node, src);
                        srcs = srcs.drop_last();
                    }
                    order = order.push(node);
                    idx = idx.insert(node, n);
                    vstd::set_lib::lemma_len_subset(visited@, universe);
                    assert forall|x: u128| visited@.contains(x) <==> order.contains(x) by {
                        assert(order == old_order.push(node));
                        if order.contains(x) && x != node {
                            let k = choose|k: int| 0 <= k < order.len() && order[k] == x;
                            assert(old_order[k] == x);
                            assert(old_order.contains(x));
                        }
                        if x == node {
                            assert(order[order.len() - 1] == x);
                        }
                        if visited@.contains(x) && x != node {
                            assert(old_order.contains(x));
                            let k = choose|k: int| 0 <= k < old_order.len() && old_order[k] == x;
                            assert(order[k] == x);
                        }
                    }
                }
                assert(adj@.contains_key(node));
                let neighbors = match adj.get(&node) {
                    Some(v) => v,
                    None => {
                        assert(false);
                        return false;
                    },
                };
                let mut j: usize = 0;
                while j < neighbors.len()
                    invariant
                        adjacency_closed(adj@),
                        universe == adj@.dom(),
                        universe.finite(),
                        adj@.contains_key(node),
                        adj@[node] == *neighbors,
                        visited@.subset_of(universe),
                        forall|i: int| 0 <= i < stack@.len() ==> universe.contains(#[trigger] stack@[i].0),
                        forall|x: u128| visited@.contains(x) <==> order.contains(x),
                        0 <= j <= neighbors@.len(),
                        order.len() > 0,
                        order[order.len() - 1] == node,
                        node == start <==> parent is None,
                        node != start ==> parent == Some(tp[node].0),
                        forall|q: int| 0 <= q < srcs.len() && (#[trigger] srcs[q]).0 == node ==> srcs[q].1 < j,
                        dfs_ok(adj@, edges, ids, start, order, idx, tp, stack@, srcs, Some((node, j as int))),
                    decreases neighbors@.len() - j,
                {
                    let neighbor = neighbors[j];
                    assert(neighbors@.contains(neighbor));
                    let differs = match parent {
                        Some(p) => neighbor != p,
                        None => true,
                    };
                    let ghost pre_stack = stack@;
                    if differs {
                        stack.push((neighbor, Some(node)));
                        proof {
                            push_step(adj@, edges, ids, start, order, idx, tp, pre_stack, srcs, node, j as int);
                            srcs = srcs.push((node, j as int));
                        }
                    } else {
                        proof {
                            skip_step(adj@, edges, ids, start, order, idx, tp, pre_stack, srcs, node, j as int);
                        }
                    }
                    j += 1;
                }
                proof {
                    finish_step(adj@, edges, ids, start, order, idx, tp, stack@, srcs, node);
                }
            },
        }
    }
}

/// Whether the line is drawn as a circle: it is marked as a loop; or it
/// has three or more stations, its first and last differ, and an edge
/// joins them.
pub open spec fn closes_by_flag_or_edge(net: &Network, line: Line) -> bool {
    let ids = line.station_ids@;
    line.is_loop || (ids.len() >= 3 && ids[0] != ids[ids.len() - 1] && connected(
        net.edges@,
        ids[0],
        ids[ids.len() - 1],
    ))
}

/// Whether the line is drawn as a circle: it closes by its flag or by an
/// edge, or it has three or more stations and the search from its first
/// station finds a cycle among the line's own edges.
pub open spec fn is_circle_line(net: &Network, line: Line) -> bool {
    let ids = line.station_ids@;
    closes_by_flag_or_edge(net, line) || (ids.len() >= 3 && component_has_cycle(
        net.edges@,
        ids,
        ids[0],
    ))
}

/// `s` is the set of ids of the network's circular lines.
pub open spec fn is_circle_line_set(s: Set<u128>, network: &Network) -> bool {
    forall|id: u128|
        #[trigger] s.contains(id) <==> exists|k: int|
            0 <= k < network.lines@.len() && (#[trigger] network.lines@[k]).id == id
                && is_circle_line(network, network.lines@[k])
}

/// The lines that are drawn as circles: those marked as loops, those whose
/// first and last stations are joined by an edge, and those whose own edges
/// hold a cycle reachable from their first station.
pub fn detect_line_cycles(network: &Network) -> (r: HashSet<u128>)
    ensures
        is_circle_line_set(r@, network),
{
    let mut circle_lines: HashSet<u128> = HashSet::new();
    let n_lines = network.lines.len();
    let mut li: usize = 0;
    while li < n_lines
        invariant
            n_lines == network.lines@.len(),
            0 <= li <= n_lines,
            forall|id: u128|
                #[trigger] circle_lines@.contains(id) <==> exists|k: int|
                    0 <= k < li && (#[trigger] network.lines@[k]).id == id && is_circle_line(
                        network,
                        network.lines@[k],
                    ),
        decreases n_lines - li,
    {
        let line = &network.lines[li];
        let ghost before = circle_lines@;
        let mut done = false;
        if line.is_loop {
            circle_lines.insert(line.id);
            done = true;
        }
        let len = line.station_ids.len();
        if !done && len >= 3 {
            let first = line.station_ids[0];
            let last = line.station_ids[len - 1];
            if first != last {
                let has_closing_edge = edges_connect(&network.edges, first, last);
                if has_closing_edge {
                    circle_lines.insert(line.id);
                    done = true;
                }
            }
        }
        if !done && len >= 3 {
            let adj = line_adjacency(network, line);
            assert(line.station_ids@.contains(line.station_ids@[0]));
            if has_cycle_dfs(&adj, line.station_ids[0], Ghost(network.edges@), Ghost(line.station_ids@)) {
                circle_lines.insert(line.id);
            }
        }
        proof {
            assert(circle_lines@ == if is_circle_line(network, *line) {
                before.insert(line.id)
            } else {
                before
            });
            assert forall|id: u128|
                #[trigger] circle_lines@.contains(id) <==> exists|k: int|
                    0 <= k < li + 1 && (#[trigger] network.lines@[k]).id == id && is_circle_line(
                        network,
                        network.lines@[k],
                    ) by {
                if before.contains(id) {
                    let k = choose|k: int|
                        0 <= k < li && (#[trigger] network.lines@[k]).id == id && is_circle_line(
                            network,
                            network.lines@[k],
                        );
                }
                if exists|k: int|
                    0 <= k < li + 1 && (#[trigger] network.lines@[k]).id == id && is_circle_line(
                        network,
                        network.lines@[k],
                    ) {
                    let k = choose|k: int|
                        0 <= k < li + 1 && (#[trigger] network.lines@[k]).id == id && is_circle_line(
                            network,
                            network.lines@[k],
                        );
                    if k < li {
                        assert(before.contains(id));
                    }
                }
            }
        }
        li += 1;
    }
    circle_lines
}


/// A line marked as a loop is always drawn as a circle.
pub proof fn loop_lines_are_circles(net: &Network, s: Set<u128>, k: int)
    requires
        is_circle_line_set(s, net),
        0 <= k < net.lines@.len(),
        net.lines@[k].is_loop,
    ensures
        s.contains(net.lines@[k].id),
{
    assert(is_circle_line(net, net.lines@[k]));
}

/// Only lines of the network are drawn as circles, and a line with fewer
/// than three stations only when it is marked as a loop.
pub proof fn circles_are_flagged_or_long(net: &Network, s: Set<u128>, id: u128)
    requires
        is_circle_line_set(s, net),
        s.contains(id),
    ensures
        exists|k: int|
            0 <= k < net.lines@.len() && (#[trigger] net.lines@[k]).id == id && (net.lines@[k].is_loop
                || net.lines@[k].station_ids@.len() >= 3),
{
    let k = choose|k: int|
        0 <= k < net.lines@.len() && (#[trigger] net.lines@[k]).id == id && is_circle_line(
            net,
            net.lines@[k],
        );
}

/// A line of three or more stations whose own edges form a cycle through
/// its first station is drawn as a circle, whether or not it is flagged.
pub proof fn structural_cycles_are_circles(net: &Network, s: Set<u128>, k: int)
    requires
        is_circle_line_set(s, net),
        0 <= k < net.lines@.len(),
        net.lines@[k].station_ids@.len() >= 3,
        component_has_cycle(net.edges@, net.lines@[k].station_ids@, net.lines@[k].station_ids@[0]),
    ensures
        s.contains(net.lines@[k].id),
{
    assert(is_circle_line(net, net.lines@[k]));
}

/// The circular lines, stated over the line itself: a line whose id no
/// other line shares is reported exactly when it is flagged as a loop, or
/// it has three or more stations, its first and last stations differ and
/// an edge joins them, or it has three or more stations and the part of
/// its own edges reachable from its first station holds a cycle.
pub proof fn circle_lines_exactly(net: &Network, s: Set<u128>, k: int)
    requires
        is_circle_line_set(s, net),
        0 <= k < net.lines@.len(),
        forall|j: int| 0 <= j < net.lines@.len() && (#[trigger] net.lines@[j]).id == net.lines@[k].id ==> j == k,
    ensures
        s.contains(net.lines@[k].id) <==> {
            let line = net.lines@[k];
            let ids = line.station_ids@;
            ||| line.is_loop
            ||| (ids.len() >= 3 && ids[0] != ids[ids.len() - 1] && connected(
                net.edges@,
                ids[0],
                ids[ids.len() - 1],
            ))
            ||| (ids.len() >= 3 && component_has_cycle(net.edges@, ids, ids[0]))
        },
{
    let id = net.lines@[k].id;
    if s.contains(id) {
        let j = choose|j: int|
            0 <= j < net.lines@.len() && (#[trigger] net.lines@[j]).id == id && is_circle_line(
                net,
                net.lines@[j],
            );
        assert(j == k);
    } else {
        assert(!is_circle_line(net, net.lines@[k]));
    }
}

/// A line that is not flagged as a loop, whose first and last stations no
/// edge joins, and whose own edges hold no cycle reachable from its first
/// station is not circular, unless another line has the same id.
pub proof fn open_lines_are_not_circles(net: &Network, s: Set<u128>, k: int)
    requires
        is_circle_line_set(s, net),
        0 <= k < net.lines@.len(),
        forall|j: int| 0 <= j < net.lines@.len() && (#[trigger] net.lines@[j]).id == net.lines@[k].id ==> j == k,
        !net.lines@[k].is_loop,
        net.lines@[k].station_ids@.len() > 0 ==> !connected(
            net.edges@,
            net.lines@[k].station_ids@[0],
            net.lines@[k].station_ids@[net.lines@[k].station_ids@.len() - 1],
        ),
        net.lines@[k].station_ids@.len() > 0 ==> !component_has_cycle(
            net.edges@,
            net.lines@[k].station_ids@,
            net.lines@[k].station_ids@[0],
        ),
    ensures
        !s.contains(net.lines@[k].id),
{
    circle_lines_exactly(net, s, k);
}

} // verus!
