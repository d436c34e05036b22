use vstd::prelude::*;
use std::collections::HashMap;
use crate::types::{Network, Edge, connected, has_station, station_set};

verus! {

broadcast use vstd::std_specs::hash::group_hash_axioms;

/// There is a walk of exactly `n` steps from `s` to `t` along the edges
/// (each edge may be walked in either direction).
pub open spec fn walk(edges: Seq<Edge>, s: u128, t: u128, n: nat) -> bool
    decreases n,
{
    if n == 0 {
        s == t
    } else {
        exists|m: u128| walk(edges, s, m, (n - 1) as nat) && #[trigger] connected(edges, m, t)
    }
}

/// `t` can be reached from `s` along the edges.
pub open spec fn reachable(edges: Seq<Edge>, s: u128, t: u128) -> bool {
    exists|n: nat| #[trigger] walk(edges, s, t, n)
}

/// `d` is the number of edges on a shortest walk from `s` to `t`.
pub open spec fn is_distance(edges: Seq<Edge>, s: u128, t: u128, d: nat) -> bool {
    &&& walk(edges, s, t, d)
    &&& forall|k: nat| k < d ==> !#[trigger] walk(edges, s, t, k)
}

/// The neighbour lists `adj` hold, for every node that some edge touches
/// (and possibly others), exactly the nodes joined to it by an edge.
pub open spec fn neighbours_exact(adj: Map<u128, Vec<u128>>, edges: Seq<Edge>) -> bool {
    &&& forall|x: u128, y: u128| #[trigger] connected(edges, x, y) ==> adj.contains_key(x)
    &&& forall|x: u128, y: u128|
        adj.contains_key(x) ==> (#[trigger] adj[x]@.contains(y) <==> connected(edges, x, y))
}

/// `m` maps every station of the network to its distance map: for each
/// other node reachable from that station, the length of a shortest walk.
pub open spec fn is_distance_table(m: Map<u128, HashMap<u128, usize>>, net: &Network) -> bool {
    &&& m.dom() == station_set(net)
    &&& forall|s: u128, t: u128|
        #[trigger] m.contains_key(s) ==> (#[trigger] m[s]@.contains_key(t) <==> (t != s
            && reachable(net.edges@, s, t)))
    &&& forall|s: u128, t: u128|
        #[trigger] m.contains_key(s) && #[trigger] m[s]@.contains_key(t) ==> is_distance(
            net.edges@,
            s,
            t,
            m[s]@[t] as nat,
        )
}

pub proof fn lemma_walk_step(edges: Seq<Edge>, s: u128, m: u128, t: u128, n: nat)
    requires
        walk(edges, s, m, n),
        connected(edges, m, t),
    ensures
        walk(edges, s, t, n + 1),
{
    assert(walk(edges, s, t, n + 1));
}

/// A walk can be extended at its start by an edge.
pub proof fn lemma_walk_prepend(edges: Seq<Edge>, a: u128, s: u128, t: u128, n: nat)
    requires
        connected(edges, a, s),
        walk(edges, s, t, n),
    ensures
        walk(edges, a, t, n + 1),
    decreases n,
{
    if n == 0 {
        assert(walk(edges, a, a, 0));
        lemma_walk_step(edges, a, a, t, 0);
    } else {
        let m = choose|m: u128| walk(edges, s, m, (n - 1) as nat) && #[trigger] connected(edges, m, t);
        lemma_walk_prepend(edges, a, s, m, (n - 1) as nat);
        lemma_walk_step(edges, a, m, t, n);
    }
}

proof fn lemma_connected_symmetric(edges: Seq<Edge>, a: u128, b: u128)
    requires
        connected(edges, a, b),
    ensures
        connected(edges, b, a),
{
    let k = choose|k: int|
        0 <= k < edges.len() && {
            let e = #[trigger] edges[k];
            (e.source == a && e.target == b) || (e.source == b && e.target == a)
        };
    assert(edges[k] == edges[k]);
}

/// A walk read backwards is a walk of the same length.
pub proof fn lemma_walk_reverse(edges: Seq<Edge>, s: u128, t: u128, n: nat)
    requires
        walk(edges, s, t, n),
    ensures
        walk(edges, t, s, n),
    decreases n,
{
    if n > 0 {
        let m = choose|m: u128| walk(edges, s, m, (n - 1) as nat) && #[trigger] connected(edges, m, t);
        lemma_walk_reverse(edges, s, m, (n - 1) as nat);
        lemma_connected_symmetric(edges, m, t);
        lemma_walk_prepend(edges, t, m, s, (n - 1) as nat);
    }
}

/// Builds the neighbour lists of every station and every edge endpoint.
fn neighbour_lists(network: &Network) -> (adj: HashMap<u128, Vec<u128>>)
    ensures
        neighbours_exact(adj@, network.edges@),
        forall|s: u128| has_station(network, s) ==> #[trigger] adj@.contains_key(s),
{
    let mut adj: HashMap<u128, Vec<u128>> = HashMap::new();
    let mut i: usize = 0;
    while i < network.stations.len()
        invariant
            0 <= i <= network.stations@.len(),
            forall|j: int| 0 <= j < i ==> #[trigger] adj@.contains_key(network.stations@[j].id),
            forall|x: u128| #[trigger] adj@.contains_key(x) ==> adj@[x]@ == Seq::<u128>::empty(),
        decreases network.stations@.len() - i,
    {
        adj.insert(network.stations[i].id, Vec::new());
        i += 1;
    }
    let n_edges = network.edges.len();
    let ghost edges = network.edges@;
    let mut i: usize = 0;
    while i < n_edges
        invariant
            n_edges == edges.len(),
            edges == network.edges@,
            0 <= i <= n_edges,
            forall|s: u128| has_station(network, s) ==> #[trigger] adj@.contains_key(s),
            forall|x: u128, y: u128|
                #[trigger] connected(edges.take(i as int), x, y) ==> adj@.contains_key(x),
            forall|x: u128, y: u128|
                adj@.contains_key(x) ==> (#[trigger] adj@[x]@.contains(y) <==> connected(
                    edges.take(i as int),
                    x,
                    y,
                )),
        decreases n_edges - i,
    {
        let edge = &network.edges[i];
        let ghost old_adj = adj@;
        let mut v = match adj.remove(&edge.source) {
            Some(v) => v,
            None => Vec::new(),
        };
        v.push(edge.target);
        adj.insert(edge.source, v);
        let mut w = match adj.remove(&edge.target) {
            Some(w) => w,
            None => Vec::new(),
        };
        w.push(edge.source);
        adj.insert(edge.target, w);
        proof {
            let pre = edges.take(i as int);
            let post = edges.take(i + 1);
            let e = edges[i as int];
            assert(post[i as int] == e);
            assert forall|x: u128, y: u128| connected(post, x, y) <==> (connected(pre, x, y) || (
            x == e.source && y == e.target) || (x == e.target && y == e.source)) by {
                if connected(post, x, y) {
                    let k = choose|k: int|
                        0 <= k < post.len() && {
                            let f = #[trigger] post[k];
                            (f.source == x && f.target == y) || (f.source == y && f.target == x)
                        };
                    if k < i {
                        assert(pre[k] == post[k]);
                    }
                }
                if connected(pre, x, y) {
                    let k = choose|k: int|
                        0 <= k < pre.len() && {
                            let f = #[trigger] pre[k];
                            (f.source == x && f.target == y) || (f.source == y && f.target == x)
                        };
                    assert(pre[k] == post[k]);
                }
                if (x == e.source && y == e.target) || (x == e.target && y == e.source) {
                    assert(post[i as int] == e);
                }
            }
            assert forall|x: u128, y: u128| #[trigger] connected(post, x, y) implies adj@.contains_key(x) by {
                if connected(pre, x, y) {
                    assert(old_adj.contains_key(x));
                }
            }
            assert forall|x: u128, y: u128|
                adj@.contains_key(x) implies (#[trigger] adj@[x]@.contains(y) <==> connected(
                    post,
                    x,
                    y,
                )) by {
                let base = if old_adj.contains_key(x) {
                    old_adj[x]@
                } else {
                    Seq::<u128>::empty()
                };
                assert(base.contains(y) <==> connected(pre, x, y)) by {
                    if !old_adj.contains_key(x) && connected(pre, x, y) {
                        assert(old_adj.contains_key(x));
                    }
                }
                if x == e.source && x == e.target {
                    assert(adj@[x]@ =~= base.push(e.target).push(e.source));
                    if y == e.target {
                        assert(adj@[x]@[adj@[x]@.len() - 1] == y);
                    } else if base.contains(y) {
                        let q = choose|q: int| 0 <= q < base.len() && base[q] == y;
                        assert(adj@[x]@[q] == y);
                    } else if adj@[x]@.contains(y) {
                        let q = choose|q: int| 0 <= q < adj@[x]@.len() && adj@[x]@[q] == y;
                        assert(base[q] == y);
                    }
                } else if x == e.source {
                    assert(adj@[x]@ =~= base.push(e.target));
                    if y == e.target {
                        assert(adj@[x]@[adj@[x]@.len() - 1] == y);
                    } else if base.contains(y) {
                        let q = choose|q: int| 0 <= q < base.len() && base[q] == y;
                        assert(adj@[x]@[q] == y);
                    } else if adj@[x]@.contains(y) {
                        let q = choose|q: int| 0 <= q < adj@[x]@.len() && adj@[x]@[q] == y;
                        assert(base[q] == y);
                    }
                } else if x == e.target {
                    assert(adj@[x]@ =~= base.push(e.source));
                    if y == e.source {
                        assert(adj@[x]@[adj@[x]@.len() - 1] == y);
                    } else if base.contains(y) {
                        let q = choose|q: int| 0 <= q < base.len() && base[q] == y;
                        assert(adj@[x]@[q] == y);
                    } else if adj@[x]@.contains(y) {
                        let q = choose|q: int| 0 <= q < adj@[x]@.len() && adj@[x]@[q] == y;
                        assert(base[q] == y);
                    }
                } else {
                    assert(old_adj.contains_key(x));
                    assert(adj@[x] == old_adj[x]);
                }
            }
        }
        i += 1;
    }
    assert(network.edges@.take(n_edges as int) =~= network.edges@);
    adj
}

/// Every node that an edge touches, with the source of the search first.
spec fn search_universe(edges: Seq<Edge>, source: u128) -> Seq<u128> {
    seq![source] + Seq::new(
        2 * edges.len(),
        |i: int|
            if i % 2 == 0 {
                edges[i / 2].source
            } else {
                edges[i / 2].target
            },
    )
}

proof fn lemma_in_universe(edges: Seq<Edge>, source: u128, x: u128, y: u128)
    requires
        connected(edges, x, y),
    ensures
        search_universe(edges, source).contains(y),
{
    let k = choose|k: int|
        0 <= k < edges.len() && {
            let e = #[trigger] edges[k];
            (e.source == x && e.target == y) || (e.source == y && e.target == x)
        };
    let u = search_universe(edges, source);
    if edges[k].source == y {
        assert(u[2 * k + 1] == y);
    } else {
        assert(u[2 * k + 2] == y);
    }
}

proof fn lemma_order_bound(order: Seq<u128>, u: Seq<u128>)
    requires
        forall|i: int, j: int| 0 <= i < j < order.len() ==> order[i] != order[j],
        forall|i: int| 0 <= i < order.len() ==> u.contains(#[trigger] order[i]),
    ensures
        order.len() <= u.len(),
{
    assert forall|i: int, j: int| 0 <= i < order.len() && 0 <= j < order.len() && i != j implies order[i] != order[j] by {
        if i > j {
            assert(order[j] != order[i]);
        }
    }
    assert(order.no_duplicates());
    order.unique_seq_to_set();
    broadcast use vstd::seq_lib::seq_to_set_is_finite;
    u.lemma_cardinality_of_set();
    assert(order.to_set().subset_of(u.to_set())) by {
        assert forall|x: u128| order.to_set().contains(x) implies u.to_set().contains(x) by {
            let i = choose|i: int| 0 <= i < order.len() && order[i] == x;
            assert(u.contains(order[i]));
        }
    }
    vstd::set_lib::lemma_len_subset(order.to_set(), u.to_set());
}

/// Breadth-first search from `source`: the distance map of every node
/// reachable from it (the source itself at distance 0).
fn bfs_from(adj: &HashMap<u128, Vec<u128>>, Ghost(edges): Ghost<Seq<Edge>>, source: u128) -> (res: (
    Vec<u128>,
    HashMap<u128, usize>,
))
    requires
        neighbours_exact(adj@, edges),
    ensures
        forall|t: u128| #[trigger] res.1@.contains_key(t) <==> reachable(edges, source, t),
        forall|t: u128| #[trigger]
            res.1@.contains_key(t) ==> is_distance(edges, source, t, res.1@[t] as nat),
        forall|t: u128| #[trigger] res.1@.contains_key(t) <==> res.0@.contains(t),
{
    let mut dist: HashMap<u128, usize> = HashMap::new();
    dist.insert(source, 0);
    let mut order: Vec<u128> = Vec::new();
    order.push(source);
    let mut head: usize = 0;
    let ghost universe = search_universe(edges, source);
    assert(is_distance(edges, source, source, 0));
    assert(universe[0] == source);
    while head < order.len()
        invariant
            universe == search_universe(edges, source),
            forall|i: int| 0 <= i < order@.len() ==> universe.contains(#[trigger] order@[i]),
            order@.len() <= universe.len(),
            neighbours_exact(adj@, edges),
            1 <= order@.len(),
            0 <= head <= order@.len(),
            order@[0] == source,
            forall|i: int, j: int| 0 <= i < j < order@.len() ==> order@[i] != order@[j],
            forall|x: u128| #[trigger] dist@.contains_key(x) <==> order@.contains(x),
            forall|i: int|
                0 <= i < order@.len() ==> is_distance(
                    edges,
                    source,
                    order@[i],
                    #[trigger] dist@[order@[i]] as nat,
                ),
            forall|i: int, j: int|
                0 <= i <= j < order@.len() ==> dist@[order@[i]] <= dist@[order@[j]],
            forall|i: int| 0 <= i < order@.len() ==> #[trigger] dist@[order@[i]] <= i,
            head < order@.len() ==> dist@[order@[order@.len() - 1]] <= dist@[order@[head as int]]
                + 1,
            forall|i: int, y: u128|
                0 <= i < head && #[trigger] connected(edges, order@[i], y) ==> dist@.contains_key(y),
            head < order@.len() ==> forall|x: u128, k: nat|
                #[trigger] walk(edges, source, x, k) && k < dist@[order@[head as int]]
                    ==> dist@.contains_key(x) && dist@[x] < dist@[order@[head as int]],
        decreases universe.len() - order@.len(), order@.len() - head,
    {
        let cur = order[head];
        let cur_dist = match dist.get(&cur) {
            Some(d) => *d,
            None => 0,
        };
        assert(order@.contains(cur));
        assert(cur_dist == dist@[cur]);
        let ghost c = cur_dist as nat;
        let ghost len0 = order@.len();
        let empty: Vec<u128> = Vec::new();
        let nbrs = match adj.get(&cur) {
            Some(v) => v,
            None => &empty,
        };
        assert(forall|y: u128| nbrs@.contains(y) <==> connected(edges, cur, y));
        let mut j: usize = 0;
        while j < nbrs.len()
            invariant
                universe == search_universe(edges, source),
                forall|i: int| 0 <= i < order@.len() ==> universe.contains(#[trigger] order@[i]),
                order@.len() <= universe.len(),
                order@.len() >= len0,
                neighbours_exact(adj@, edges),
                forall|y: u128| nbrs@.contains(y) <==> connected(edges, cur, y),
                0 <= j <= nbrs@.len(),
                1 <= order@.len(),
                0 <= head < order@.len(),
                cur == order@[head as int],
                cur_dist == dist@[cur],
                c == cur_dist,
                order@[0] == source,
                forall|i: int, k: int| 0 <= i < k < order@.len() ==> order@[i] != order@[k],
                forall|x: u128| #[trigger] dist@.contains_key(x) <==> order@.contains(x),
                forall|i: int|
                    0 <= i < order@.len() ==> is_distance(
                        edges,
                        source,
                        order@[i],
                        #[trigger] dist@[order@[i]] as nat,
                    ),
                forall|i: int, k: int|
                    0 <= i <= k < order@.len() ==> dist@[order@[i]] <= dist@[order@[k]],
                forall|i: int| 0 <= i < order@.len() ==> #[trigger] dist@[order@[i]] <= i,
                dist@[order@[order@.len() - 1]] <= cur_dist + 1,
                forall|i: int, y: u128|
                    0 <= i < head && #[trigger] connected(edges, order@[i], y) ==> dist@.contains_key(
                        y,
                    ),
                forall|q: int| 0 <= q < j ==> dist@.contains_key(#[trigger] nbrs@[q]),
                forall|x: u128, k: nat|
                    #[trigger] walk(edges, source, x, k) && k < cur_dist ==> dist@.contains_key(x)
                        && dist@[x] < cur_dist,
            decreases nbrs@.len() - j,
        {
            let nb = nbrs[j];
            let olen = order.len();
            assert(nbrs@.contains(nb));
            if !dist.contains_key(&nb) {
                proof {
                    assert(cur_dist <= head);
                    assert(head < olen);
                    lemma_walk_step(edges, source, cur, nb, c);
                    assert forall|k: nat| k < c + 1 implies !#[trigger] walk(edges, source, nb, k) by {
                        if walk(edges, source, nb, k) {
                            if k == 0 {
                                assert(order@[0] == nb);
                                assert(order@.contains(nb));
                            } else {
                                let m = choose|m: u128|
                                    walk(edges, source, m, (k - 1) as nat) && #[trigger] connected(
                                        edges,
                                        m,
                                        nb,
                                    );
                                assert(walk(edges, source, m, (k - 1) as nat));
                                assert(dist@.contains_key(m) && dist@[m] < cur_dist);
                                assert(order@.contains(m));
                                let im = choose|im: int| 0 <= im < order@.len() && order@[im] == m;
                                if im >= head {
                                    assert(dist@[order@[head as int]] <= dist@[order@[im]]);
                                }
                                assert(im < head);
                            }
                        }
                    }
                }
                let ghost old_order = order@;
                let ghost old_dist = dist@;
                dist.insert(nb, cur_dist + 1);
                order.push(nb);
                proof {
                    assert forall|x: u128| #[trigger] dist@.contains_key(x) <==> order@.contains(x) by {
                        if order@.contains(x) && x != nb {
                            let ix = choose|ix: int| 0 <= ix < order@.len() && order@[ix] == x;
                            assert(old_order[ix] == x);
                        }
                        if old_order.contains(x) {
                            let ix = choose|ix: int| 0 <= ix < old_order.len() && old_order[ix] == x;
                            assert(order@[ix] == x);
                        }
                        assert(order@[order@.len() - 1] == nb);
                    }
                    assert forall|i: int, k: int|
                        0 <= i < k < order@.len() implies order@[i] != order@[k] by {
                        if k == order@.len() - 1 {
                            assert(old_order.contains(order@[i]));
                        }
                    }
                    assert forall|i: int|
                        0 <= i < order@.len() implies is_distance(
                            edges,
                            source,
                            order@[i],
                            #[trigger] dist@[order@[i]] as nat,
                        ) by {
                        if i < old_order.len() {
                            assert(old_order.contains(order@[i]));
                            assert(order@[i] != nb);
                        }
                    }
                    assert forall|i: int| 0 <= i < order@.len() implies #[trigger] dist@[order@[i]] <= i by {
                        if i < old_order.len() {
                            assert(old_order.contains(order@[i]));
                        }
                    }
                    assert forall|i: int, k: int|
                        0 <= i <= k < order@.len() implies dist@[order@[i]] <= dist@[order@[k]] by {
                        if i < old_order.len() {
                            assert(old_order.contains(order@[i]));
                            assert(dist@[order@[i]] == old_dist[old_order[i]]);
                            assert(old_dist[old_order[i]] <= old_dist[old_order[old_order.len() - 1]]);
                            if i >= head {
                                assert(old_dist[old_order[head as int]] <= old_dist[old_order[i]]);
                            } else {
                                assert(old_dist[old_order[i]] <= old_dist[old_order[head as int]]);
                            }
                        }
                        if k < old_order.len() {
                            assert(old_order.contains(order@[k]));
                        }
                    }
                    assert forall|i: int, y: u128|
                        0 <= i < head && #[trigger] connected(edges, order@[i], y) implies dist@.contains_key(y) by {
                        assert(old_order[i] == order@[i]);
                    }
                    assert forall|x: u128, k: nat|
                        #[trigger] walk(edges, source, x, k) && k < cur_dist implies dist@.contains_key(x)
                            && dist@[x] < cur_dist by {
                        assert(old_dist.contains_key(x));
                        assert(x != nb);
                    }
                    assert(order@[head as int] == cur);
                    assert(old_order.contains(cur));
                    lemma_in_universe(edges, source, cur, nb);
                    assert forall|i: int| 0 <= i < order@.len() implies universe.contains(#[trigger] order@[i]) by {
                        if i < old_order.len() {
                            assert(old_order[i] == order@[i]);
                        }
                    }
                    lemma_order_bound(order@, universe);
                }
            }
            j += 1;
        }
        proof {
            assert forall|y: u128| #[trigger] connected(edges, cur, y) implies dist@.contains_key(y) by {
                assert(nbrs@.contains(y));
                let q = choose|q: int| 0 <= q < nbrs@.len() && nbrs@[q] == y;
            }
            if head + 1 < order@.len() {
                let f = order@[head + 1];
                assert(dist@[order@[head as int]] <= dist@[f]);
                assert forall|x: u128, k: nat|
                    #[trigger] walk(edges, source, x, k) && k < dist@[f] implies dist@.contains_key(x)
                        && dist@[x] < dist@[f] by {
                    if k < cur_dist {
                    } else {
                        assert(k == cur_dist);
                        if k == 0 {
                            assert(x == source);
                            assert(order@.contains(source));
                            assert(dist@[order@[0]] <= 0);
                        } else {
                            let m = choose|m: u128|
                                walk(edges, source, m, (k - 1) as nat) && #[trigger] connected(
                                    edges,
                                    m,
                                    x,
                                );
                            assert(walk(edges, source, m, (k - 1) as nat));
                            assert(dist@.contains_key(m) && dist@[m] < cur_dist);
                            assert(order@.contains(m));
                            let im = choose|im: int| 0 <= im < order@.len() && order@[im] == m;
                            if im > head {
                                assert(dist@[order@[head as int]] <= dist@[order@[im]]);
                            }
                            assert(im <= head);
                            assert(dist@.contains_key(x));
                            assert(order@.contains(x));
                            let ix = choose|ix: int| 0 <= ix < order@.len() && order@[ix] == x;
                            assert(is_distance(edges, source, x, dist@[x] as nat));
                            if dist@[x] > k {
                                assert(!walk(edges, source, x, k));
                            }
                        }
                    }
                }
            }
        }
        head += 1;
    }
    proof {
        assert forall|t: u128| dist@.contains_key(t) <==> reachable(edges, source, t) by {
            if dist@.contains_key(t) {
                assert(order@.contains(t));
                let it = choose|it: int| 0 <= it < order@.len() && order@[it] == t;
                assert(is_distance(edges, source, order@[it], dist@[order@[it]] as nat));
                assert(walk(edges, source, t, dist@[t] as nat));
            }
            if reachable(edges, source, t) {
                let n = choose|n: nat| #[trigger] walk(edges, source, t, n);
                lemma_all_reached(edges, source, t, n, order@, dist@);
            }
        }
        assert forall|t: u128| #[trigger] dist@.contains_key(t) implies is_distance(
            edges,
            source,
            t,
            dist@[t] as nat,
        ) by {
            assert(order@.contains(t));
            let it = choose|it: int| 0 <= it < order@.len() && order@[it] == t;
            assert(is_distance(edges, source, order@[it], dist@[order@[it]] as nat));
        }
    }
    (order, dist)
}

proof fn lemma_all_reached(
    edges: Seq<Edge>,
    source: u128,
    t: u128,
    n: nat,
    order: Seq<u128>,
    dist: Map<u128, usize>,
)
    requires
        walk(edges, source, t, n),
        order.len() >= 1,
        order[0] == source,
        forall|x: u128| #[trigger] dist.contains_key(x) <==> order.contains(x),
        forall|i: int, y: u128|
            0 <= i < order.len() && #[trigger] connected(edges, order[i], y) ==> dist.contains_key(y),
    ensures
        dist.contains_key(t),
    decreases n,
{
    if n == 0 {
        assert(order.contains(source));
    } else {
        let m = choose|m: u128| walk(edges, source, m, (n - 1) as nat) && #[trigger] connected(edges, m, t);
        lemma_all_reached(edges, source, m, (n - 1) as nat, order, dist);
        assert(order.contains(m));
        let im = choose|im: int| 0 <= im < order.len() && order[im] == m;
        assert(connected(edges, order[im], t));
    }
}

/// Breadth-first distances between all stations.
///
/// For every station `s`, the result maps `s` to the distance map of every
/// other node reachable from it: the number of edges on a shortest walk.
pub fn all_pairs_bfs(network: &Network) -> (res: HashMap<u128, HashMap<u128, usize>>)
    ensures
        is_distance_table(res@, network),
{
    let adj = neighbour_lists(network);
    let mut distances: HashMap<u128, HashMap<u128, usize>> = HashMap::new();
    let mut i: usize = 0;
    while i < network.stations.len()
        invariant
            0 <= i <= network.stations@.len(),
            neighbours_exact(adj@, network.edges@),
            forall|s: u128|
                distances@.contains_key(s) <==> exists|j: int|
                    0 <= j < i && (#[trigger] network.stations@[j]).id == s,
            forall|s: u128, t: u128|
                #[trigger] distances@.contains_key(s) ==> (#[trigger] distances@[s]@.contains_key(t) <==> (t
                    != s && reachable(network.edges@, s, t))),
            forall|s: u128, t: u128|
                #[trigger] distances@.contains_key(s) && #[trigger] distances@[s]@.contains_key(t)
                    ==> is_distance(network.edges@, s, t, distances@[s]@[t] as nat),
        decreases network.stations@.len() - i,
    {
        let source = network.stations[i].id;
        let (order, dist) = bfs_from(&adj, Ghost(network.edges@), source);
        let mut row: HashMap<u128, usize> = HashMap::new();
        let mut k: usize = 0;
        while k < order.len()
            invariant
                0 <= k <= order@.len(),
                forall|t: u128| #[trigger] dist@.contains_key(t) <==> order@.contains(t),
                forall|t: u128| #[trigger] dist@.contains_key(t) <==> reachable(network.edges@, source, t),
                forall|t: u128| #[trigger]
                    dist@.contains_key(t) ==> is_distance(network.edges@, source, t, dist@[t] as nat),
                forall|t: u128|
                    #[trigger] row@.contains_key(t) <==> (t != source && exists|q: int|
                        0 <= q < k && order@[q] == t),
                forall|t: u128| #[trigger] row@.contains_key(t) ==> row@[t] == dist@[t],
            decreases order@.len() - k,
        {
            let target = order[k];
            if target != source {
                assert(order@.contains(target));
                let d = match dist.get(&target) {
                    Some(d) => *d,
                    None => 0,
                };
                row.insert(target, d);
            }
            proof {
                assert forall|t: u128|
                    #[trigger] row@.contains_key(t) <==> (t != source && exists|q: int|
                        0 <= q < k + 1 && order@[q] == t) by {
                    if t != source && exists|q: int| 0 <= q < k + 1 && order@[q] == t {
                        let q = choose|q: int| 0 <= q < k + 1 && order@[q] == t;
                        if q < k {
                        }
                    }
                }
            }
            k += 1;
        }
        proof {
            assert forall|t: u128| #[trigger] row@.contains_key(t) <==> (t != source && reachable(network.edges@, source, t)) by {
                if t != source && reachable(network.edges@, source, t) {
                    assert(dist@.contains_key(t));
                    assert(order@.contains(t));
                    let q = choose|q: int| 0 <= q < order@.len() && order@[q] == t;
                }
                if row@.contains_key(t) {
                    let q = choose|q: int| 0 <= q < order@.len() && order@[q] == t;
                    assert(order@.contains(t));
                    assert(dist@.contains_key(t));
                }
            }
        }
        let ghost old_d = distances@;
        distances.insert(source, row);
        proof {
            assert forall|s: u128|
                distances@.contains_key(s) <==> exists|j: int|
                    0 <= j < i + 1 && (#[trigger] network.stations@[j]).id == s by {
                if distances@.contains_key(s) && s != source {
                    assert(old_d.contains_key(s));
                    let j = choose|j: int| 0 <= j < i && (#[trigger] network.stations@[j]).id == s;
                }
            }
            assert forall|s: u128, t: u128|
                #[trigger] distances@.contains_key(s) && #[trigger] distances@[s]@.contains_key(t)
                    implies is_distance(network.edges@, s, t, distances@[s]@[t] as nat) by {
                if s == source {
                    assert(row@.contains_key(t));
                    let q = choose|q: int| 0 <= q < order@.len() && order@[q] == t;
                    assert(order@.contains(t));
                    assert(dist@.contains_key(t));
                    assert(row@[t] == dist@[t]);
                } else {
                    assert(old_d.contains_key(s));
                }
            }
        }
        i += 1;
    }
    assert(distances@.dom() =~= station_set(network));
    distances
}

/// Distances are symmetric: the distance from `s` to `t` is the distance from `t` to `s`.
pub proof fn distance_symmetric(edges: Seq<Edge>, s: u128, t: u128, d: nat)
    requires
        is_distance(edges, s, t, d),
    ensures
        is_distance(edges, t, s, d),
{
    lemma_walk_reverse(edges, s, t, d);
    assert forall|k: nat| k < d implies !#[trigger] walk(edges, t, s, k) by {
        if walk(edges, t, s, k) {
            lemma_walk_reverse(edges, t, s, k);
        }
    }
}

} // verus!
