use vstd::prelude::*;
use crate::types::{Network, Line, Station, LabelDirection};

verus! {

/// How a station is ranked when labels are placed: termini first, then
/// transfer stations, then the rest.
#[derive(Clone, Copy, Debug, PartialEq, Eq, Structural)]
pub enum StationClass {
    Terminus,
    Transfer,
    Regular,
}

/// The number of the first `n` lines that serve station `id`.
pub open spec fn lines_serving(lines: Seq<Line>, id: u128, n: int) -> int
    decreases n,
{
    if n <= 0 {
        0
    } else {
        lines_serving(lines, id, n - 1) + if lines[n - 1].station_ids@.contains(id) {
            1int
        } else {
            0int
        }
    }
}

/// Station `id` is the first or the last station of some line.
pub open spec fn is_terminus(lines: Seq<Line>, id: u128) -> bool {
    exists|k: int|
        0 <= k < lines.len() && {
            let ids = (#[trigger] lines[k]).station_ids@;
            ids.len() > 0 && (ids[0] == id || ids[ids.len() - 1] == id)
        }
}

pub open spec fn station_class(net: &Network, id: u128) -> StationClass {
    if is_terminus(net.lines@, id) {
        StationClass::Terminus
    } else if lines_serving(net.lines@, id, net.lines@.len() as int) >= 2 {
        StationClass::Transfer
    } else {
        StationClass::Regular
    }
}

/// The ids of the first `n` stations that fall in class `c`, in order.
pub open spec fn class_ids(net: &Network, c: StationClass, n: int) -> Seq<u128>
    decreases n,
{
    if n <= 0 {
        Seq::empty()
    } else {
        class_ids(net, c, n - 1) + if station_class(net, net.stations@[n - 1].id) == c {
            seq![net.stations@[n - 1].id]
        } else {
            Seq::empty()
        }
    }
}

/// The order in which stations get their labels.
pub open spec fn label_order_spec(net: &Network) -> Seq<u128> {
    let n = net.stations@.len() as int;
    class_ids(net, StationClass::Terminus, n) + class_ids(net, StationClass::Transfer, n)
        + class_ids(net, StationClass::Regular, n)
}

fn seq_contains(ids: &Vec<u128>, id: u128) -> (r: bool)
    ensures
        r == ids@.contains(id),
{
    let mut k: usize = 0;
    while k < ids.len()
        invariant
            0 <= k <= ids@.len(),
            forall|j: int| 0 <= j < k ==> ids@[j] != id,
        decreases ids@.len() - k,
    {
        if ids[k] == id {
            return true;
        }
        k += 1;
    }
    false
}

/// The class of station `id` among the network's lines.
pub fn classify_station(network: &Network, id: u128) -> (c: StationClass)
    ensures
        c == station_class(network, id),
{
    let n = network.lines.len();
    let mut count: usize = 0;
    let mut terminus = false;
    let mut k: usize = 0;
    while k < n
        invariant
            n == network.lines@.len(),
            0 <= k <= n,
            count == lines_serving(network.lines@, id, k as int),
            count <= k,
            terminus <==> exists|j: int|
                0 <= j < k && {
                    let ids = (#[trigger] network.lines@[j]).station_ids@;
                    ids.len() > 0 && (ids[0] == id || ids[ids.len() - 1] == id)
                },
        decreases n - k,
    {
        let line = &network.lines[k];
        if seq_contains(&line.station_ids, id) {
            count += 1;
        }
        let len = line.station_ids.len();
        if len > 0 && (line.station_ids[0] == id || line.station_ids[len - 1] == id) {
            terminus = true;
        }
        k += 1;
    }
    if terminus {
        StationClass::Terminus
    } else if count >= 2 {
        StationClass::Transfer
    } else {
        StationClass::Regular
    }
}

/// The stations in the order in which their labels are placed: termini,
/// then transfer stations (on two or more lines), then the others, each
/// group in station order.
pub fn label_order(network: &Network) -> (r: Vec<u128>)
    ensures
        r@ == label_order_spec(network),
{
    let mut terminus_ids: Vec<u128> = Vec::new();
    let mut transfer_ids: Vec<u128> = Vec::new();
    let mut regular_ids: Vec<u128> = Vec::new();
    let mut i: usize = 0;
    while i < network.stations.len()
        invariant
            0 <= i <= network.stations@.len(),
            terminus_ids@ == class_ids(network, StationClass::Terminus, i as int),
            transfer_ids@ == class_ids(network, StationClass::Transfer, i as int),
            regular_ids@ == class_ids(network, StationClass::Regular, i as int),
        decreases network.stations@.len() - i,
    {
        let id = network.stations[i].id;
        let c = classify_station(network, id);
        match c {
            StationClass::Terminus => terminus_ids.push(id),
            StationClass::Transfer => transfer_ids.push(id),
            StationClass::Regular => regular_ids.push(id),
        }
        assert(terminus_ids@ =~= class_ids(network, StationClass::Terminus, i + 1));
        assert(transfer_ids@ =~= class_ids(network, StationClass::Transfer, i + 1));
        assert(regular_ids@ =~= class_ids(network, StationClass::Regular, i + 1));
        i += 1;
    }
    let mut ordered = terminus_ids;
    ordered.append(&mut transfer_ids);
    ordered.append(&mut regular_ids);
    ordered
}

/// The candidate directions, in the order in which they are tried.
pub open spec fn candidate_direction(i: int) -> LabelDirection {
    if i == 0 {
        LabelDirection::E
    } else if i == 1 {
        LabelDirection::N
    } else if i == 2 {
        LabelDirection::S
    } else if i == 3 {
        LabelDirection::W
    } else if i == 4 {
        LabelDirection::Ne
    } else if i == 5 {
        LabelDirection::Se
    } else if i == 6 {
        LabelDirection::Nw
    } else {
        LabelDirection::Sw
    }
}

/// The `i`-th candidate direction (east, north, south, west, north-east,
/// south-east, north-west, south-west).
pub fn direction_at(i: usize) -> (d: LabelDirection)
    requires
        i < 8,
    ensures
        d == candidate_direction(i as int),
{
    if i == 0 {
        LabelDirection::E
    } else if i == 1 {
        LabelDirection::N
    } else if i == 2 {
        LabelDirection::S
    } else if i == 3 {
        LabelDirection::W
    } else if i == 4 {
        LabelDirection::Ne
    } else if i == 5 {
        LabelDirection::Se
    } else if i == 6 {
        LabelDirection::Nw
    } else {
        LabelDirection::Sw
    }
}

/// The score of a candidate label box: 100 off for every label it overlaps
/// and 50 off for every edge that crosses it.
pub fn placement_score(overlaps: u64, crossings: u64) -> (s: i128)
    ensures
        s == -100 * overlaps - 50 * crossings,
{
    let o = overlaps as i128;
    let c = crossings as i128;
    assert(0 <= o <= u64::MAX && 0 <= c <= u64::MAX);
    let a: i128 = 100 * o;
    let b: i128 = 50 * c;
    0 - a - b
}

/// Picks a label placement from the scores of the eight candidate
/// directions (in candidate order): the first candidate with the highest
/// score. The placement is a conflict when its score is below -50.
pub fn choose_direction(scores: &Vec<i128>) -> (r: (LabelDirection, usize, bool))
    requires
        scores@.len() == 8,
    ensures
        r.1 < 8,
        r.0 == candidate_direction(r.1 as int),
        forall|j: int| 0 <= j < 8 ==> #[trigger] scores@[j] <= scores@[r.1 as int],
        forall|j: int| 0 <= j < r.1 ==> #[trigger] scores@[j] < scores@[r.1 as int],
        r.2 == (scores@[r.1 as int] < -50),
{
    let mut best: usize = 0;
    let mut i: usize = 1;
    while i < 8
        invariant
            scores@.len() == 8,
            1 <= i <= 8,
            best < i,
            forall|j: int| 0 <= j < i ==> #[trigger] scores@[j] <= scores@[best as int],
            forall|j: int| 0 <= j < best ==> #[trigger] scores@[j] < scores@[best as int],
        decreases 8 - i,
    {
        if scores[i] > scores[best] {
            best = i;
        }
        i += 1;
    }
    (direction_at(best), best, scores[best] < -50)
}

/// Every station has a place in the label order, whichever of the three
/// classes it falls in.
pub proof fn label_order_covers_stations(net: &Network, id: u128)
    requires
        exists|i: int| 0 <= i < net.stations@.len() && (#[trigger] net.stations@[i]).id == id,
    ensures
        label_order_spec(net).contains(id),
{
    let i = choose|i: int| 0 <= i < net.stations@.len() && (#[trigger] net.stations@[i]).id == id;
    let n = net.stations@.len() as int;
    let c = station_class(net, id);
    lemma_class_ids_contains(net, c, i, n);
    let t = class_ids(net, StationClass::Terminus, n);
    let tr = class_ids(net, StationClass::Transfer, n);
    let rg = class_ids(net, StationClass::Regular, n);
    let all = t + tr + rg;
    let k = choose|k: int| 0 <= k < class_ids(net, c, n).len() && class_ids(net, c, n)[k] == id;
    if c == StationClass::Terminus {
        assert(all[k] == id);
    } else if c == StationClass::Transfer {
        assert(all[t.len() + k] == id);
    } else {
        assert(all[t.len() + tr.len() + k] == id);
    }
}

proof fn lemma_class_ids_contains(net: &Network, c: StationClass, i: int, n: int)
    requires
        0 <= i < n <= net.stations@.len(),
        station_class(net, net.stations@[i].id) == c,
    ensures
        class_ids(net, c, n).contains(net.stations@[i].id),
    decreases n,
{
    if i == n - 1 {
        let s = class_ids(net, c, n);
        assert(s[s.len() - 1] == net.stations@[i].id);
    } else {
        lemma_class_ids_contains(net, c, i, n - 1);
        let p = class_ids(net, c, n - 1);
        let k = choose|k: int| 0 <= k < p.len() && p[k] == net.stations@[i].id;
        assert(class_ids(net, c, n)[k] == net.stations@[i].id);
    }
}

/// The label order has exactly one entry per station.
pub proof fn label_order_length(net: &Network)
    ensures
        label_order_spec(net).len() == net.stations@.len(),
{
    lemma_class_lengths(net, net.stations@.len() as int);
}

proof fn lemma_class_lengths(net: &Network, n: int)
    requires
        0 <= n <= net.stations@.len(),
    ensures
        class_ids(net, StationClass::Terminus, n).len() + class_ids(net, StationClass::Transfer, n).len()
            + class_ids(net, StationClass::Regular, n).len() == n,
    decreases n,
{
    if n > 0 {
        lemma_class_lengths(net, n - 1);
    }
}

/// A station that is the first or the last station of some line is
/// labelled as a terminus, however many lines serve it.
pub proof fn line_ends_are_termini(net: &Network, id: u128, k: int)
    requires
        0 <= k < net.lines@.len(),
        net.lines@[k].station_ids@.len() > 0,
        net.lines@[k].station_ids@[0] == id || net.lines@[k].station_ids@[net.lines@[k].station_ids@.len()
            - 1] == id,
    ensures
        station_class(net, id) == StationClass::Terminus,
{
    let ids = net.lines@[k].station_ids@;
    assert(ids.len() > 0 && (ids[0] == id || ids[ids.len() - 1] == id));
}

/// A station that begins or ends no line is a transfer station when two or
/// more lines serve it, and a regular one otherwise.
pub proof fn inner_stations_by_line_count(net: &Network, id: u128)
    requires
        forall|k: int|
            0 <= k < net.lines@.len() && (#[trigger] net.lines@[k]).station_ids@.len() > 0 ==> net.lines@[k].station_ids@[0]
                != id && net.lines@[k].station_ids@[net.lines@[k].station_ids@.len() - 1] != id,
    ensures
        station_class(net, id) == if lines_serving(net.lines@, id, net.lines@.len() as int) >= 2 {
            StationClass::Transfer
        } else {
            StationClass::Regular
        },
{
    if is_terminus(net.lines@, id) {
        let k = choose|k: int|
            0 <= k < net.lines@.len() && {
                let ids = (#[trigger] net.lines@[k]).station_ids@;
                ids.len() > 0 && (ids[0] == id || ids[ids.len() - 1] == id)
            };
        assert(net.lines@[k].station_ids@.len() > 0);
    }
}

proof fn lemma_class_ids_members(net: &Network, c: StationClass, n: int)
    requires
        0 <= n <= net.stations@.len(),
    ensures
        forall|i: int|
            0 <= i < class_ids(net, c, n).len() ==> station_class(net, #[trigger] class_ids(net, c, n)[i])
                == c,
    decreases n,
{
    if n > 0 {
        lemma_class_ids_members(net, c, n - 1);
        let p = class_ids(net, c, n - 1);
        let q = class_ids(net, c, n);
        assert forall|i: int| 0 <= i < q.len() implies station_class(net, #[trigger] q[i]) == c by {
            if i < p.len() {
                assert(q[i] == p[i]);
            }
        }
    }
}

/// In the label order, every station that begins or ends some line comes
/// before every station that begins or ends none.
pub proof fn termini_labelled_first(net: &Network, p: int, q: int, k: int)
    requires
        0 <= p < label_order_spec(net).len(),
        0 <= q < label_order_spec(net).len(),
        0 <= k < net.lines@.len(),
        net.lines@[k].station_ids@.len() > 0,
        net.lines@[k].station_ids@[0] == label_order_spec(net)[p]
            || net.lines@[k].station_ids@[net.lines@[k].station_ids@.len() - 1]
            == label_order_spec(net)[p],
        forall|j: int|
            0 <= j < net.lines@.len() && (#[trigger] net.lines@[j]).station_ids@.len() > 0 ==> net.lines@[j].station_ids@[0]
                != label_order_spec(net)[q] && net.lines@[j].station_ids@[net.lines@[j].station_ids@.len()
                - 1] != label_order_spec(net)[q],
    ensures
        p < q,
{
    let n = net.stations@.len() as int;
    let order = label_order_spec(net);
    let t = class_ids(net, StationClass::Terminus, n);
    let tr = class_ids(net, StationClass::Transfer, n);
    let rg = class_ids(net, StationClass::Regular, n);
    lemma_class_ids_members(net, StationClass::Terminus, n);
    lemma_class_ids_members(net, StationClass::Transfer, n);
    lemma_class_ids_members(net, StationClass::Regular, n);
    line_ends_are_termini(net, order[p], k);
    inner_stations_by_line_count(net, order[q]);
    assert(order == t + tr + rg);
    if p >= t.len() {
        if p < t.len() + tr.len() {
            assert(order[p] == tr[p - t.len()]);
        } else {
            assert(order[p] == rg[p - t.len() - tr.len()]);
        }
    }
    if q < t.len() {
        assert(order[q] == t[q]);
    }
}

/// The eight candidate directions are tried in the order east, north,
/// south, west, north-east, south-east, north-west, south-west.
pub proof fn candidate_order()
    ensures
        candidate_direction(0) == LabelDirection::E,
        candidate_direction(1) == LabelDirection::N,
        candidate_direction(2) == LabelDirection::S,
        candidate_direction(3) == LabelDirection::W,
        candidate_direction(4) == LabelDirection::Ne,
        candidate_direction(5) == LabelDirection::Se,
        candidate_direction(6) == LabelDirection::Nw,
        candidate_direction(7) == LabelDirection::Sw,
{
}

/// No direction is tried twice.
pub proof fn candidates_distinct(i: int, j: int)
    requires
        0 <= i < 8,
        0 <= j < 8,
        i != j,
    ensures
        candidate_direction(i) != candidate_direction(j),
{
}

/// Every one of the eight directions is tried.
pub proof fn candidates_cover(d: LabelDirection)
    ensures
        exists|i: int| 0 <= i < 8 && #[trigger] candidate_direction(i) == d,
{
    let i: int = match d {
        LabelDirection::E => 0,
        LabelDirection::N => 1,
        LabelDirection::S => 2,
        LabelDirection::W => 3,
        LabelDirection::Ne => 4,
        LabelDirection::Se => 5,
        LabelDirection::Nw => 6,
        LabelDirection::Sw => 7,
    };
    assert(candidate_direction(i) == d);
}

proof fn lemma_serving_monotone(lines: Seq<Line>, id: u128, m: int, n: int)
    requires
        0 <= m <= n <= lines.len(),
    ensures
        lines_serving(lines, id, m) <= lines_serving(lines, id, n),
    decreases n - m,
{
    if m < n {
        lemma_serving_monotone(lines, id, m, n - 1);
    }
}

proof fn lemma_serving_none(lines: Seq<Line>, id: u128, n: int)
    requires
        0 <= n <= lines.len(),
        forall|k: int| 0 <= k < n ==> !(#[trigger] lines[k]).station_ids@.contains(id),
    ensures
        lines_serving(lines, id, n) == 0,
    decreases n,
{
    if n > 0 {
        lemma_serving_none(lines, id, n - 1);
    }
}

proof fn lemma_serving_one(lines: Seq<Line>, id: u128, k0: int, n: int)
    requires
        0 <= n <= lines.len(),
        forall|k: int| 0 <= k < n && (#[trigger] lines[k]).station_ids@.contains(id) ==> k == k0,
    ensures
        lines_serving(lines, id, n) <= 1,
    decreases n,
{
    if n > 0 {
        if n - 1 == k0 {
            lemma_serving_none(lines, id, n - 1);
        } else {
            lemma_serving_one(lines, id, k0, n - 1);
        }
    }
}

/// A station that begins or ends no line is a transfer station when two
/// different lines pass through it, and a regular station when at most one
/// line does.
pub proof fn transfer_when_two_lines(net: &Network, id: u128)
    requires
        forall|k: int|
            0 <= k < net.lines@.len() && (#[trigger] net.lines@[k]).station_ids@.len() > 0 ==> net.lines@[k].station_ids@[0]
                != id && net.lines@[k].station_ids@[net.lines@[k].station_ids@.len() - 1] != id,
    ensures
        (exists|k1: int, k2: int|
            0 <= k1 < k2 < net.lines@.len() && (#[trigger] net.lines@[k1]).station_ids@.contains(id)
                && (#[trigger] net.lines@[k2]).station_ids@.contains(id)) ==> station_class(net, id)
            == StationClass::Transfer,
        (forall|k1: int, k2: int|
            0 <= k1 < net.lines@.len() && 0 <= k2 < net.lines@.len() && (#[trigger] net.lines@[k1]).station_ids@.contains(id)
                && (#[trigger] net.lines@[k2]).station_ids@.contains(id) ==> k1 == k2) ==> station_class(net, id)
            == StationClass::Regular,
{
    let lines = net.lines@;
    let n = lines.len() as int;
    inner_stations_by_line_count(net, id);
    if exists|k1: int, k2: int|
        0 <= k1 < k2 < n && (#[trigger] lines[k1]).station_ids@.contains(id)
            && (#[trigger] lines[k2]).station_ids@.contains(id) {
        let (k1, k2) = choose|k1: int, k2: int|
            0 <= k1 < k2 < n && (#[trigger] lines[k1]).station_ids@.contains(id)
                && (#[trigger] lines[k2]).station_ids@.contains(id);
        lemma_serving_monotone(lines, id, 0, k1);
        lemma_serving_monotone(lines, id, k1 + 1, k2);
        lemma_serving_monotone(lines, id, k2 + 1, n);
        assert(lines_serving(lines, id, k1 + 1) == lines_serving(lines, id, k1) + 1);
        assert(lines_serving(lines, id, k2 + 1) == lines_serving(lines, id, k2) + 1);
    }
    if forall|k1: int, k2: int|
        0 <= k1 < n && 0 <= k2 < n && (#[trigger] lines[k1]).station_ids@.contains(id)
            && (#[trigger] lines[k2]).station_ids@.contains(id) ==> k1 == k2 {
        if exists|k: int| 0 <= k < n && (#[trigger] lines[k]).station_ids@.contains(id) {
            let k0 = choose|k: int| 0 <= k < n && (#[trigger] lines[k]).station_ids@.contains(id);
            assert forall|k: int| 0 <= k < n && (#[trigger] lines[k]).station_ids@.contains(id) implies k
                == k0 by {
                assert(lines[k0].station_ids@.contains(id));
            }
            lemma_serving_one(lines, id, k0, n);
        } else {
            lemma_serving_none(lines, id, n);
        }
    }
}

} // verus!
