use vstd::prelude::*;
use std::collections::HashMap;
use std::collections::HashSet;
use crate::types::{Network, Line, has_station, station_id_set, station_set};
use crate::cycles::{detect_line_cycles, is_circle_line_set};
use crate::builder::{adj_entries, is_adjacency_of};

verus! {

broadcast use vstd::std_specs::hash::group_hash_axioms;

/// What the layout needs to know about a network before placing stations.
/// (The normalised geographic positions are computed beside it.)
pub struct PreprocessedNetwork {
    pub degree: HashMap<u128, usize>,
    pub line_membership: HashMap<u128, Vec<u128>>,
    pub transfer_stations: HashSet<u128>,
    pub circle_line_ids: HashSet<u128>,
    pub anchor_set: HashSet<u128>,
}

/// The number of edge ends among the first `n` edges that are at `x`
/// (an edge from `x` to itself counts twice).
pub open spec fn edge_ends_at(net: &Network, x: u128, n: int) -> int
    decreases n,
{
    if n <= 0 {
        0
    } else {
        let e = net.edges@[n - 1];
        edge_ends_at(net, x, n - 1) + (if e.source == x {
            1int
        } else {
            0int
        }) + (if e.target == x {
            1int
        } else {
            0int
        })
    }
}

/// `x` is a station or an endpoint of one of the first `n` edges.
pub open spec fn degree_key(net: &Network, x: u128, n: int) -> bool {
    has_station(net, x) || exists|k: int|
        0 <= k < n && ((#[trigger] net.edges@[k]).source == x || net.edges@[k].target == x)
}

/// The number of times `x` occurs among the first `n` entries of `ids`.
pub open spec fn occurrences(ids: Seq<u128>, x: u128, n: int) -> nat
    decreases n,
{
    if n <= 0 {
        0
    } else {
        occurrences(ids, x, n - 1) + if ids[n - 1] == x {
            1nat
        } else {
            0nat
        }
    }
}

/// The lines (by id) among the first `n` that serve station `x`, each
/// repeated as often as the line lists `x`.
pub open spec fn membership(lines: Seq<Line>, x: u128, n: int) -> Seq<u128>
    decreases n,
{
    if n <= 0 {
        Seq::empty()
    } else {
        let line = lines[n - 1];
        let ids = line.station_ids@;
        membership(lines, x, n - 1) + Seq::new(
            occurrences(ids, x, ids.len() as int) as nat,
            |i: int| line.id,
        )
    }
}

/// Some line lists station `x`.
pub open spec fn on_some_line(lines: Seq<Line>, x: u128) -> bool {
    exists|k: int| 0 <= k < lines.len() && (#[trigger] lines[k]).station_ids@.contains(x)
}

/// `p` describes `net` with the manual anchors `anchor_ids`.
pub open spec fn is_preprocessed(p: PreprocessedNetwork, net: &Network, anchor_ids: Seq<u128>) -> bool {
    let n_edges = net.edges@.len() as int;
    let lines = net.lines@;
    &&& forall|x: u128| #[trigger] p.degree@.contains_key(x) <==> degree_key(net, x, n_edges)
    &&& forall|x: u128| #[trigger]
        p.degree@.contains_key(x) ==> p.degree@[x] == edge_ends_at(net, x, n_edges)
    &&& forall|x: u128| #[trigger] p.line_membership@.contains_key(x) <==> on_some_line(lines, x)
    &&& forall|x: u128| #[trigger]
        p.line_membership@.contains_key(x) ==> p.line_membership@[x]@ == membership(
            lines,
            x,
            lines.len() as int,
        )
    &&& forall|x: u128| #[trigger]
        p.transfer_stations@.contains(x) <==> (on_some_line(lines, x) && membership(
            lines,
            x,
            lines.len() as int,
        ).len() >= 2)
    &&& forall|x: u128| #[trigger]
        p.anchor_set@.contains(x) <==> (anchor_ids.contains(x) && has_station(net, x))
}

proof fn lemma_ends_bound(net: &Network, x: u128, n: int)
    requires
        0 <= n,
    ensures
        0 <= edge_ends_at(net, x, n) <= 2 * n,
    decreases n,
{
    if n > 0 {
        lemma_ends_bound(net, x, n - 1);
    }
}

proof fn lemma_ends_zero(net: &Network, x: u128, n: int)
    requires
        0 <= n <= net.edges@.len(),
        !degree_key(net, x, n),
    ensures
        edge_ends_at(net, x, n) == 0,
    decreases n,
{
    if n > 0 {
        assert(!((net.edges@[n - 1]).source == x || net.edges@[n - 1].target == x));
        assert(!degree_key(net, x, n - 1)) by {
            if degree_key(net, x, n - 1) {
                if !has_station(net, x) {
                    let q = choose|q: int|
                        0 <= q < n - 1 && ((#[trigger] net.edges@[q]).source == x
                            || net.edges@[q].target == x);
                    assert(degree_key(net, x, n));
                }
            }
        }
        lemma_ends_zero(net, x, n - 1);
    }
}

proof fn lemma_occurrences_zero(ids: Seq<u128>, x: u128, n: int)
    requires
        0 <= n <= ids.len(),
        forall|j: int| 0 <= j < n ==> ids[j] != x,
    ensures
        occurrences(ids, x, n) == 0,
    decreases n,
{
    if n > 0 {
        lemma_occurrences_zero(ids, x, n - 1);
    }
}

proof fn lemma_membership_empty(lines: Seq<Line>, x: u128, n: int)
    requires
        0 <= n <= lines.len(),
        forall|k: int| 0 <= k < n ==> !(#[trigger] lines[k]).station_ids@.contains(x),
    ensures
        membership(lines, x, n) =~= Seq::<u128>::empty(),
    decreases n,
{
    if n > 0 {
        lemma_membership_empty(lines, x, n - 1);
        let ids = lines[n - 1].station_ids@;
        assert forall|j: int| 0 <= j < ids.len() implies ids[j] != x by {
            if ids[j] == x {
                assert(ids.contains(x));
            }
        }
        lemma_occurrences_zero(ids, x, ids.len() as int);
    }
}

/// Degrees, line membership, transfer stations, circular lines and the
/// manual anchors that name stations of the network.
pub fn preprocess(network: &Network, anchor_ids: &Vec<u128>) -> (p: PreprocessedNetwork)
    requires
        network.edges@.len() <= usize::MAX / 2,
    ensures
        is_preprocessed(p, network, anchor_ids@),
        is_circle_line_set(p.circle_line_ids@, network),
{
    // Degrees.
    let mut degree: HashMap<u128, usize> = HashMap::new();
    let mut i: usize = 0;
    while i < network.stations.len()
        invariant
            0 <= i <= network.stations@.len(),
            forall|x: u128|
                #[trigger] degree@.contains_key(x) <==> exists|j: int|
                    0 <= j < i && (#[trigger] network.stations@[j]).id == x,
            forall|x: u128| #[trigger] degree@.contains_key(x) ==> degree@[x] == 0,
        decreases network.stations@.len() - i,
    {
        degree.insert(network.stations[i].id, 0);
        proof {
            assert forall|x: u128|
                #[trigger] degree@.contains_key(x) implies exists|j: int|
                    0 <= j < i + 1 && (#[trigger] network.stations@[j]).id == x by {
                if x != network.stations@[i as int].id {
                    let j = choose|j: int| 0 <= j < i && (#[trigger] network.stations@[j]).id == x;
                }
            }
        }
        i += 1;
    }
    let n_edges = network.edges.len();
    let mut k: usize = 0;
    while k < n_edges
        invariant
            n_edges == network.edges@.len(),
            n_edges <= usize::MAX / 2,
            0 <= k <= n_edges,
            forall|x: u128| #[trigger] degree@.contains_key(x) <==> degree_key(network, x, k as int),
            forall|x: u128| #[trigger]
                degree@.contains_key(x) ==> degree@[x] == edge_ends_at(network, x, k as int),
        decreases n_edges - k,
    {
        let e = &network.edges[k];
        proof {
            lemma_ends_bound(network, e.source, k as int);
            lemma_ends_bound(network, e.target, k as int);
        }
        let ghost old_deg = degree@;
        let ds = match degree.get(&e.source) {
            Some(d) => *d,
            None => 0,
        };
        degree.insert(e.source, ds + 1);
        let dt = match degree.get(&e.target) {
            Some(d) => *d,
            None => 0,
        };
        degree.insert(e.target, dt + 1);
        proof {
            assert forall|x: u128| #[trigger] degree@.contains_key(x) <==> degree_key(network, x, k + 1) by {
                if degree_key(network, x, k + 1) && !has_station(network, x) {
                    let q = choose|q: int|
                        0 <= q < k + 1 && ((#[trigger] network.edges@[q]).source == x
                            || network.edges@[q].target == x);
                    if q < k {
                        assert(degree_key(network, x, k as int));
                    }
                }
                if degree_key(network, x, k as int) {
                    assert(old_deg.contains_key(x));
                    if !has_station(network, x) {
                        let q = choose|q: int|
                            0 <= q < k && ((#[trigger] network.edges@[q]).source == x
                                || network.edges@[q].target == x);
                        assert(degree_key(network, x, k + 1));
                    }
                }
                if x == e.source || x == e.target {
                    assert(network.edges@[k as int] == *e);
                }
            }
            assert forall|x: u128| #[trigger]
                degree@.contains_key(x) implies degree@[x] == edge_ends_at(network, x, k + 1) by {
                assert(network.edges@[k as int] == *e);
                if x != e.source && x != e.target {
                    assert(old_deg.contains_key(x));
                } else {
                    if !old_deg.contains_key(x) {
                        assert(!degree_key(network, x, k as int));
                        lemma_ends_zero(network, x, k as int);
                    }
                }
            }
        }
        k += 1;
    }

    // Line membership.
    let mut line_membership: HashMap<u128, Vec<u128>> = HashMap::new();
    let n_lines = network.lines.len();
    let ghost lines = network.lines@;
    let mut li: usize = 0;
    while li < n_lines
        invariant
            n_lines == lines.len(),
            lines == network.lines@,
            0 <= li <= n_lines,
            forall|x: u128|
                #[trigger] line_membership@.contains_key(x) <==> exists|q: int|
                    0 <= q < li && (#[trigger] lines[q]).station_ids@.contains(x),
            forall|x: u128| #[trigger]
                line_membership@.contains_key(x) ==> line_membership@[x]@ == membership(
                    lines,
                    x,
                    li as int,
                ),
        decreases n_lines - li,
    {
        let line = &network.lines[li];
        let ids = &line.station_ids;
        let ghost before = line_membership@;
        let mut j: usize = 0;
        while j < ids.len()
            invariant
                n_lines == lines.len(),
                lines == network.lines@,
                0 <= li < n_lines,
                *line == lines[li as int],
                ids == &line.station_ids,
                0 <= j <= ids@.len(),
                forall|x: u128|
                    #[trigger] line_membership@.contains_key(x) <==> (before.contains_key(x) || exists|q: int|
                        0 <= q < j && ids@[q] == x),
                forall|x: u128| #[trigger]
                    line_membership@.contains_key(x) ==> line_membership@[x]@ == (if before.contains_key(x) {
                        before[x]@
                    } else {
                        Seq::<u128>::empty()
                    }) + Seq::new(occurrences(ids@, x, j as int) as nat, |i: int| line.id),
            decreases ids@.len() - j,
        {
            let sid = ids[j];
            let ghost old_m = line_membership@;
            let mut v = match line_membership.remove(&sid) {
                Some(v) => v,
                None => Vec::new(),
            };
            v.push(line.id);
            line_membership.insert(sid, v);
            proof {
                assert forall|x: u128|
                    #[trigger] line_membership@.contains_key(x) <==> (before.contains_key(x) || exists|q: int|
                        0 <= q < j + 1 && ids@[q] == x) by {
                    if exists|q: int| 0 <= q < j + 1 && ids@[q] == x {
                        let q = choose|q: int| 0 <= q < j + 1 && ids@[q] == x;
                        if q < j {
                            assert(old_m.contains_key(x));
                        }
                    }
                    if old_m.contains_key(x) {
                    }
                }
                assert forall|x: u128| #[trigger]
                    line_membership@.contains_key(x) implies line_membership@[x]@ == (if before.contains_key(x) {
                        before[x]@
                    } else {
                        Seq::<u128>::empty()
                    }) + Seq::new(occurrences(ids@, x, j + 1) as nat, |i: int| line.id) by {
                    let base = if before.contains_key(x) {
                        before[x]@
                    } else {
                        Seq::<u128>::empty()
                    };
                    if x == sid {
                        if old_m.contains_key(x) {
                            assert(old_m[x]@ == base + Seq::new(
                                occurrences(ids@, x, j as int) as nat,
                                |i: int| line.id,
                            ));
                            assert(occurrences(ids@, x, j + 1) == occurrences(ids@, x, j as int) + 1);
                            assert(line_membership@[x]@ == old_m[x]@.push(line.id));
                            let lhs = line_membership@[x]@;
                            let rhs = base + Seq::new(
                                occurrences(ids@, x, j + 1) as nat,
                                |i: int| line.id,
                            );
                            assert(lhs.len() == rhs.len());
                            assert forall|i: int| 0 <= i < lhs.len() implies lhs[i] == rhs[i] by {
                                if i < lhs.len() - 1 {
                                    assert(lhs[i] == old_m[x]@[i]);
                                }
                            }
                            assert(line_membership@[x]@ =~= base + Seq::new(
                                occurrences(ids@, x, j + 1) as nat,
                                |i: int| line.id,
                            ));
                        } else {
                            assert(!before.contains_key(x));
                            assert forall|q: int| 0 <= q < j implies ids@[q] != x by {
                                if ids@[q] == x {
                                    assert(old_m.contains_key(x));
                                }
                            }
                            lemma_occurrences_zero(ids@, x, j as int);
                            assert(occurrences(ids@, x, j + 1) == 1);
                            assert(line_membership@[x]@ == seq![line.id]);
                            assert(line_membership@[x]@ =~= base + Seq::new(
                                occurrences(ids@, x, j + 1) as nat,
                                |i: int| line.id,
                            ));
                        }
                    } else {
                        assert(old_m.contains_key(x));
                    }
                }
            }
            j += 1;
        }
        proof {
            assert forall|x: u128|
                #[trigger] line_membership@.contains_key(x) <==> exists|q: int|
                    0 <= q < li + 1 && (#[trigger] lines[q]).station_ids@.contains(x) by {
                if line_membership@.contains_key(x) {
                    if before.contains_key(x) {
                        let q = choose|q: int|
                            0 <= q < li && (#[trigger] lines[q]).station_ids@.contains(x);
                    } else {
                        let q = choose|q: int| 0 <= q < ids@.len() && ids@[q] == x;
                        assert(lines[li as int].station_ids@.contains(x));
                    }
                }
                if exists|q: int| 0 <= q < li + 1 && (#[trigger] lines[q]).station_ids@.contains(x) {
                    let q = choose|q: int| 0 <= q < li + 1 && (#[trigger] lines[q]).station_ids@.contains(x);
                    if q == li {
                        let r = choose|r: int| 0 <= r < ids@.len() && ids@[r] == x;
                    } else {
                        assert(before.contains_key(x));
                    }
                }
            }
            assert forall|x: u128| #[trigger]
                line_membership@.contains_key(x) implies line_membership@[x]@ == membership(
                    lines,
                    x,
                    li + 1,
                ) by {
                if !before.contains_key(x) {
                    assert forall|q: int| 0 <= q < li implies !(#[trigger] lines[q]).station_ids@.contains(x) by {
                        if lines[q].station_ids@.contains(x) {
                            assert(before.contains_key(x));
                        }
                    }
                    lemma_membership_empty(lines, x, li as int);
                }
                assert(line_membership@[x]@ =~= membership(lines, x, li + 1));
            }
        }
        li += 1;
    }

    // Transfer stations: those on two or more line memberships.
    let mut transfer_stations: HashSet<u128> = HashSet::new();
    let mut li: usize = 0;
    while li < n_lines
        invariant
            n_lines == lines.len(),
            lines == network.lines@,
            0 <= li <= n_lines,
            forall|x: u128|
                #[trigger] line_membership@.contains_key(x) <==> on_some_line(lines, x),
            forall|x: u128| #[trigger]
                line_membership@.contains_key(x) ==> line_membership@[x]@ == membership(
                    lines,
                    x,
                    lines.len() as int,
                ),
            forall|x: u128| #[trigger]
                transfer_stations@.contains(x) <==> ((exists|q: int|
                    0 <= q < li && (#[trigger] lines[q]).station_ids@.contains(x))
                    && membership(lines, x, lines.len() as int).len() >= 2),
        decreases n_lines - li,
    {
        let ids = &network.lines[li].station_ids;
        let ghost before = transfer_stations@;
        let mut j: usize = 0;
        while j < ids.len()
            invariant
                n_lines == lines.len(),
                lines == network.lines@,
                0 <= li < n_lines,
                ids == &lines[li as int].station_ids,
                0 <= j <= ids@.len(),
                forall|x: u128|
                    #[trigger] line_membership@.contains_key(x) <==> on_some_line(lines, x),
                forall|x: u128| #[trigger]
                    line_membership@.contains_key(x) ==> line_membership@[x]@ == membership(
                        lines,
                        x,
                        lines.len() as int,
                    ),
                forall|x: u128| #[trigger]
                    transfer_stations@.contains(x) <==> (before.contains(x) || ((exists|q: int|
                        0 <= q < j && ids@[q] == x) && membership(lines, x, lines.len() as int).len()
                        >= 2)),
            decreases ids@.len() - j,
        {
            let sid = ids[j];
            assert(lines[li as int].station_ids@.contains(sid));
            assert(on_some_line(lines, sid));
            let count = match line_membership.get(&sid) {
                Some(v) => v.len(),
                None => 0,
            };
            if count >= 2 {
                transfer_stations.insert(sid);
            }
            proof {
                assert forall|x: u128| #[trigger]
                    transfer_stations@.contains(x) <==> (before.contains(x) || ((exists|q: int|
                        0 <= q < j + 1 && ids@[q] == x) && membership(lines, x, lines.len() as int).len()
                        >= 2)) by {
                    if exists|q: int| 0 <= q < j + 1 && ids@[q] == x {
                        let q = choose|q: int| 0 <= q < j + 1 && ids@[q] == x;
                        if q < j {
                        }
                    }
                }
            }
            j += 1;
        }
        proof {
            assert forall|x: u128| #[trigger]
                transfer_stations@.contains(x) <==> ((exists|q: int|
                    0 <= q < li + 1 && (#[trigger] lines[q]).station_ids@.contains(x))
                    && membership(lines, x, lines.len() as int).len() >= 2) by {
                if exists|q: int| 0 <= q < li + 1 && (#[trigger] lines[q]).station_ids@.contains(x) {
                    let q = choose|q: int| 0 <= q < li + 1 && (#[trigger] lines[q]).station_ids@.contains(x);
                    if q == li {
                        let r = choose|r: int| 0 <= r < ids@.len() && ids@[r] == x;
                    }
                }
                if transfer_stations@.contains(x) && !before.contains(x) {
                    let r = choose|r: int| 0 <= r < j && ids@[r] == x;
                    assert(lines[li as int].station_ids@.contains(x));
                }
            }
        }
        li += 1;
    }

    let circle_line_ids = detect_line_cycles(network);

    // Manual anchors on stations of the network.
    let station_ids = station_id_set(network);
    let mut anchor_set: HashSet<u128> = HashSet::new();
    let mut a: usize = 0;
    while a < anchor_ids.len()
        invariant
            0 <= a <= anchor_ids@.len(),
            station_ids@ == station_set(network),
            forall|x: u128| #[trigger]
                anchor_set@.contains(x) <==> ((exists|q: int| 0 <= q < a && anchor_ids@[q] == x)
                    && has_station(network, x)),
        decreases anchor_ids@.len() - a,
    {
        let sid = anchor_ids[a];
        if station_ids.contains(&sid) {
            anchor_set.insert(sid);
        }
        proof {
            assert forall|x: u128| #[trigger]
                anchor_set@.contains(x) <==> ((exists|q: int| 0 <= q < a + 1 && anchor_ids@[q] == x)
                    && has_station(network, x)) by {
                if exists|q: int| 0 <= q < a + 1 && anchor_ids@[q] == x {
                    let q = choose|q: int| 0 <= q < a + 1 && anchor_ids@[q] == x;
                    if q < a {
                    }
                }
            }
        }
        a += 1;
    }
    PreprocessedNetwork { degree, line_membership, transfer_stations, circle_line_ids, anchor_set }
}

/// Every edge adds two to the sum of degrees of its two ends: the degrees
/// of all stations and edge endpoints add up to twice the number of edges.
pub proof fn degree_sum(net: &Network, xs: Seq<u128>, n: int)
    requires
        0 <= n <= net.edges@.len(),
        xs.no_duplicates(),
        forall|k: int|
            0 <= k < n ==> xs.contains((#[trigger] net.edges@[k]).source) && xs.contains(
                net.edges@[k].target,
            ),
    ensures
        sum_ends(net, xs, n) == 2 * n,
    decreases n,
{
    if n == 0 {
        lemma_sum_ends_zero(net, xs, xs.len() as int);
    } else {
        degree_sum(net, xs, n - 1);
        lemma_sum_ends_step(net, xs, n, xs.len() as int);
        let e = net.edges@[n - 1];
        assert(xs.contains(e.source) && xs.contains(e.target));
        lemma_count_one(xs, e.source, xs.len() as int);
        lemma_count_one(xs, e.target, xs.len() as int);
        assert(sum_ends(net, xs, n) == sum_ends_prefix(net, xs, n, xs.len() as int));
        assert(sum_ends(net, xs, n - 1) == sum_ends_prefix(net, xs, n - 1, xs.len() as int));
    }
}

proof fn lemma_sum_ends_zero(net: &Network, xs: Seq<u128>, m: int)
    requires
        0 <= m <= xs.len(),
    ensures
        sum_ends_prefix(net, xs, 0, m) == 0,
    decreases m,
{
    if m > 0 {
        lemma_sum_ends_zero(net, xs, m - 1);
    }
}

/// The sum, over the nodes `xs`, of the edge ends at them among the first `n` edges.
pub open spec fn sum_ends(net: &Network, xs: Seq<u128>, n: int) -> int {
    sum_ends_prefix(net, xs, n, xs.len() as int)
}

pub open spec fn sum_ends_prefix(net: &Network, xs: Seq<u128>, n: int, m: int) -> int
    decreases m,
{
    if m <= 0 {
        0
    } else {
        sum_ends_prefix(net, xs, n, m - 1) + edge_ends_at(net, xs[m - 1], n)
    }
}

/// The number of the first `m` entries of `xs` equal to `x`.
spec fn count_eq(xs: Seq<u128>, x: u128, m: int) -> int
    decreases m,
{
    if m <= 0 {
        0
    } else {
        count_eq(xs, x, m - 1) + if xs[m - 1] == x {
            1int
        } else {
            0int
        }
    }
}

proof fn lemma_sum_ends_step(net: &Network, xs: Seq<u128>, n: int, m: int)
    requires
        1 <= n <= net.edges@.len(),
        0 <= m <= xs.len(),
    ensures
        sum_ends_prefix(net, xs, n, m) == sum_ends_prefix(net, xs, n - 1, m) + count_eq(
            xs,
            net.edges@[n - 1].source,
            m,
        ) + count_eq(xs, net.edges@[n - 1].target, m),
    decreases m,
{
    if m > 0 {
        lemma_sum_ends_step(net, xs, n, m - 1);
    }
}

proof fn lemma_count_one(xs: Seq<u128>, x: u128, m: int)
    requires
        xs.no_duplicates(),
        xs.contains(x),
        m == xs.len(),
    ensures
        count_eq(xs, x, m) == 1,
{
    let i = choose|i: int| 0 <= i < xs.len() && xs[i] == x;
    lemma_count_split(xs, x, i, m);
}

proof fn lemma_count_split(xs: Seq<u128>, x: u128, i: int, m: int)
    requires
        xs.no_duplicates(),
        0 <= i < xs.len(),
        xs[i] == x,
        0 <= m <= xs.len(),
    ensures
        count_eq(xs, x, m) == if m > i {
            1int
        } else {
            0int
        },
    decreases m,
{
    if m > 0 {
        lemma_count_split(xs, x, i, m - 1);
    }
}

/// Every edge of the network joins two of its stations.
pub open spec fn edges_well_formed(net: &Network) -> bool {
    forall|k: int|
        0 <= k < net.edges@.len() ==> has_station(net, (#[trigger] net.edges@[k]).source)
            && has_station(net, net.edges@[k].target)
}

proof fn lemma_adjacency_counts_ends(net: &Network, x: u128, n: int)
    requires
        edges_well_formed(net),
        0 <= n <= net.edges@.len(),
    ensures
        adj_entries(net, x, n).len() == edge_ends_at(net, x, n),
    decreases n,
{
    if n > 0 {
        lemma_adjacency_counts_ends(net, x, n - 1);
        let e = net.edges@[n - 1];
        assert(has_station(net, e.source) && has_station(net, e.target));
    }
}

/// When every edge joins two stations, the degree that preprocessing
/// gives a station is the length of its list in the adjacency list that
/// validation builds.
pub proof fn degree_matches_adjacency(
    net: &Network,
    p: PreprocessedNetwork,
    anchor_ids: Seq<u128>,
    adj: Map<u128, Vec<(u128, u128)>>,
    x: u128,
)
    requires
        is_preprocessed(p, net, anchor_ids),
        is_adjacency_of(adj, net),
        edges_well_formed(net),
        adj.contains_key(x),
    ensures
        p.degree@.contains_key(x),
        p.degree@[x] == adj[x]@.len(),
{
    assert(station_set(net).contains(x));
    assert(degree_key(net, x, net.edges@.len() as int));
    let n = net.edges@.len() as int;
    lemma_adjacency_counts_ends(net, x, n);
    assert(p.degree@.contains_key(x));
    assert(p.degree@[x] == edge_ends_at(net, x, n));
    assert(adj[x]@ == adj_entries(net, x, n));
}

proof fn lemma_membership_mono(lines: Seq<Line>, x: u128, m: int, n: int)
    requires
        0 <= m <= n <= lines.len(),
    ensures
        membership(lines, x, m).len() <= membership(lines, x, n).len(),
    decreases n - m,
{
    if m < n {
        lemma_membership_mono(lines, x, m, n - 1);
    }
}

proof fn lemma_occurrences_positive(ids: Seq<u128>, x: u128, j: int, n: int)
    requires
        0 <= j < n <= ids.len(),
        ids[j] == x,
    ensures
        occurrences(ids, x, n) >= 1,
    decreases n,
{
    if j < n - 1 {
        lemma_occurrences_positive(ids, x, j, n - 1);
    }
}

proof fn lemma_occurrences_at_most_one(ids: Seq<u128>, x: u128, j0: int, n: int)
    requires
        0 <= n <= ids.len(),
        forall|j: int| 0 <= j < n && ids[j] == x ==> j == j0,
    ensures
        occurrences(ids, x, n) <= 1,
        n <= j0 ==> occurrences(ids, x, n) == 0,
    decreases n,
{
    if n > 0 {
        lemma_occurrences_at_most_one(ids, x, j0, n - 1);
    }
}

proof fn lemma_membership_single(lines: Seq<Line>, x: u128, k0: int, j0: int, n: int)
    requires
        0 <= n <= lines.len(),
        forall|k: int, j: int|
            0 <= k < lines.len() && 0 <= j < lines[k].station_ids@.len()
                && (#[trigger] lines[k].station_ids@[j]) == x ==> k == k0 && j == j0,
    ensures
        membership(lines, x, n).len() <= 1,
        n <= k0 ==> membership(lines, x, n).len() == 0,
    decreases n,
{
    if n > 0 {
        lemma_membership_single(lines, x, k0, j0, n - 1);
        let ids = lines[n - 1].station_ids@;
        assert(membership(lines, x, n).len() == membership(lines, x, n - 1).len() + occurrences(
            ids,
            x,
            ids.len() as int,
        ));
        if n - 1 == k0 {
            assert forall|j: int| 0 <= j < ids.len() && ids[j] == x implies j == j0 by {
                assert(lines[n - 1].station_ids@[j] == x);
            }
            lemma_occurrences_at_most_one(ids, x, j0, ids.len() as int);
        } else {
            assert forall|j: int| 0 <= j < ids.len() implies ids[j] != x by {
                if ids[j] == x {
                    assert(lines[n - 1].station_ids@[j] == x);
                }
            }
            lemma_occurrences_zero(ids, x, ids.len() as int);
        }
    }
}

/// A station that two different lines pass through is a transfer station;
/// a station that the lines list only once in all is not.
pub proof fn transfer_stations_by_lines(p: PreprocessedNetwork, net: &Network, anchor_ids: Seq<u128>, x: u128)
    requires
        is_preprocessed(p, net, anchor_ids),
    ensures
        (exists|k1: int, k2: int|
            0 <= k1 < k2 < net.lines@.len() && (#[trigger] net.lines@[k1]).station_ids@.contains(x)
                && (#[trigger] net.lines@[k2]).station_ids@.contains(x)) ==> p.transfer_stations@.contains(x),
        (forall|k1: int, j1: int, k2: int, j2: int|
            0 <= k1 < net.lines@.len() && 0 <= j1 < net.lines@[k1].station_ids@.len()
                && 0 <= k2 < net.lines@.len() && 0 <= j2 < net.lines@[k2].station_ids@.len()
                && (#[trigger] net.lines@[k1].station_ids@[j1]) == x
                && (#[trigger] net.lines@[k2].station_ids@[j2]) == x ==> k1 == k2 && j1 == j2)
            ==> !p.transfer_stations@.contains(x),
{
    let lines = net.lines@;
    let n = lines.len() as int;
    if exists|k1: int, k2: int|
        0 <= k1 < k2 < n && (#[trigger] lines[k1]).station_ids@.contains(x)
            && (#[trigger] lines[k2]).station_ids@.contains(x) {
        let (k1, k2) = choose|k1: int, k2: int|
            0 <= k1 < k2 < n && (#[trigger] lines[k1]).station_ids@.contains(x)
                && (#[trigger] lines[k2]).station_ids@.contains(x);
        let i1 = lines[k1].station_ids@;
        let i2 = lines[k2].station_ids@;
        let j1 = choose|j: int| 0 <= j < i1.len() && i1[j] == x;
        let j2 = choose|j: int| 0 <= j < i2.len() && i2[j] == x;
        lemma_occurrences_positive(i1, x, j1, i1.len() as int);
        lemma_occurrences_positive(i2, x, j2, i2.len() as int);
        lemma_membership_mono(lines, x, k1 + 1, k2);
        lemma_membership_mono(lines, x, k2 + 1, n);
        assert(membership(lines, x, k1 + 1).len() >= 1);
        assert(membership(lines, x, k2 + 1).len() >= membership(lines, x, k2).len() + 1);
        assert(on_some_line(lines, x)) by {
            assert(lines[k1].station_ids@.contains(x));
        }
    }
    if forall|k1: int, j1: int, k2: int, j2: int|
        0 <= k1 < n && 0 <= j1 < lines[k1].station_ids@.len() && 0 <= k2 < n && 0 <= j2
            < lines[k2].station_ids@.len() && (#[trigger] lines[k1].station_ids@[j1]) == x
            && (#[trigger] lines[k2].station_ids@[j2]) == x ==> k1 == k2 && j1 == j2 {
        if on_some_line(lines, x) {
            let k0 = choose|k: int| 0 <= k < n && (#[trigger] lines[k]).station_ids@.contains(x);
            let j0 = choose|j: int| 0 <= j < lines[k0].station_ids@.len() && lines[k0].station_ids@[j] == x;
            assert forall|k: int, j: int|
                0 <= k < n && 0 <= j < lines[k].station_ids@.len() && (#[trigger] lines[k].station_ids@[j])
                    == x implies k == k0 && j == j0 by {
                assert(lines[k0].station_ids@[j0] == x);
            }
            lemma_membership_single(lines, x, k0, j0, n);
        }
    }
}

} // verus!
