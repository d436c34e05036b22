use vstd::prelude::*;
use std::collections::HashSet;

verus! {

/// A station of the network. Its identifier is the 128-bit value of its UUID.
pub struct Station {
    pub id: u128,
    pub name: String,
}

/// An edge between two stations, served by the lines listed in `line_ids`.
pub struct Edge {
    pub id: u128,
    pub source: u128,
    pub target: u128,
    pub line_ids: Vec<u128>,
}

/// A line: the ordered sequence of stations it serves.
pub struct Line {
    pub id: u128,
    pub name: String,
    pub code: Option<String>,
    pub color: String,
    pub station_ids: Vec<u128>,
    pub is_loop: bool,
}

/// A transit network. The three collections hold the network's stations,
/// edges and lines in the order in which they are walked.
pub struct Network {
    pub stations: Vec<Station>,
    pub edges: Vec<Edge>,
    pub lines: Vec<Line>,
}

/// The eight compass directions in which a station label may be placed.
#[derive(Clone, Copy, Debug, PartialEq, Eq, Structural)]
pub enum LabelDirection {
    N,
    Ne,
    E,
    Se,
    S,
    Sw,
    W,
    Nw,
}

/// One problem found while validating a network.
pub struct ValidationError {
    pub code: String,
    pub message: String,
    pub entity_id: Option<String>,
}

/// The answer to a validation request.
pub struct ValidationResponse {
    pub valid: bool,
    pub errors: Vec<ValidationError>,
}

/// The abstract value of a validation error: its code, its message and the
/// identifier of the entity it concerns.
pub type ErrorView = (Seq<char>, Seq<char>, Option<Seq<char>>);

impl ValidationError {
    pub open spec fn view_error(&self) -> ErrorView {
        (
            self.code@,
            self.message@,
            match self.entity_id {
                Some(s) => Some(s@),
                None => None,
            },
        )
    }
}

/// The abstract values of a sequence of validation errors.
pub open spec fn errors_view(errs: Seq<ValidationError>) -> Seq<ErrorView> {
    errs.map_values(|e: ValidationError| e.view_error())
}

/// Whether the network holds a station with identifier `id`.
pub open spec fn has_station(net: &Network, id: u128) -> bool {
    exists|i: int| 0 <= i < net.stations@.len() && (#[trigger] net.stations@[i]).id == id
}

/// Whether some edge of `edges` joins `a` and `b`, in either direction.
pub open spec fn connected(edges: Seq<Edge>, a: u128, b: u128) -> bool {
    exists|k: int|
        0 <= k < edges.len() && {
            let e = #[trigger] edges[k];
            (e.source == a && e.target == b) || (e.source == b && e.target == a)
        }
}

/// The set of identifiers of the network's stations.
pub open spec fn station_set(net: &Network) -> Set<u128> {
    Set::new(|id: u128| has_station(net, id))
}

/// Collects the identifiers of the network's stations into a hash set, so
/// that membership can be tested in constant time.
pub fn station_id_set(net: &Network) -> (s: HashSet<u128>)
    ensures
        s@ == station_set(net),
{
    broadcast use vstd::std_specs::hash::group_hash_axioms;

    let mut s: HashSet<u128> = HashSet::new();
    let mut i: usize = 0;
    while i < net.stations.len()
        invariant
            0 <= i <= net.stations@.len(),
            forall|id: u128|
                s@.contains(id) <==> exists|j: int|
                    0 <= j < i && (#[trigger] net.stations@[j]).id == id,
        decreases net.stations@.len() - i,
    {
        s.insert(net.stations[i].id);
        proof {
            assert forall|id: u128|
                s@.contains(id) <==> exists|j: int|
                    0 <= j < i + 1 && (#[trigger] net.stations@[j]).id == id by {
                if s@.contains(id) && id != net.stations@[i as int].id {
                    let j = choose|j: int| 0 <= j < i && (#[trigger] net.stations@[j]).id == id;
                }
            }
        }
        i += 1;
    }
    assert(s@ =~= station_set(net));
    s
}

/// Whether some edge of `edges` joins `a` and `b`, in either direction.
pub fn edges_connect(edges: &Vec<Edge>, a: u128, b: u128) -> (r: bool)
    ensures
        r == connected(edges@, a, b),
{
    let mut k: usize = 0;
    while k < edges.len()
        invariant
            0 <= k <= edges@.len(),
            forall|j: int|
                0 <= j < k ==> {
                    let e = #[trigger] edges@[j];
                    !((e.source == a && e.target == b) || (e.source == b && e.target == a))
                },
        decreases edges@.len() - k,
    {
        let e = &edges[k];
        if (e.source == a && e.target == b) || (e.source == b && e.target == a) {
            return true;
        }
        k += 1;
    }
    false
}

} // verus!
