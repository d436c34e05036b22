use vstd::prelude::*;
use std::collections::HashMap;

verus! {

broadcast use vstd::std_specs::hash::group_hash_axioms;

/// The positions after exchanging those of `a` and `b`.
pub open spec fn swapped<V>(m: Map<u128, V>, a: u128, b: u128) -> Map<u128, V> {
    m.insert(a, m[b]).insert(b, m[a])
}

/// Exchanges the positions of stations `a` and `b` when both have one;
/// otherwise leaves the positions unchanged. Returns whether it swapped.
pub fn op_swap<V: Copy>(positions: &mut HashMap<u128, V>, id_a: u128, id_b: u128) -> (r: bool)
    ensures
        r == (old(positions)@.contains_key(id_a) && old(positions)@.contains_key(id_b)),
        r ==> final(positions)@ == swapped(old(positions)@, id_a, id_b),
        !r ==> final(positions)@ == old(positions)@,
{
    let pa = match positions.get(&id_a) {
        Some(p) => *p,
        None => return false,
    };
    let pb = match positions.get(&id_b) {
        Some(p) => *p,
        None => return false,
    };
    positions.insert(id_a, pb);
    positions.insert(id_b, pa);
    true
}

/// Swapping the same two stations twice restores every position: the
/// annealing undoes a rejected swap by swapping again.
pub proof fn swap_twice_restores<V>(m: Map<u128, V>, a: u128, b: u128)
    requires
        m.contains_key(a),
        m.contains_key(b),
    ensures
        swapped(m, a, b).contains_key(a),
        swapped(m, a, b).contains_key(b),
        swapped(swapped(m, a, b), a, b) == m,
{
    assert(swapped(swapped(m, a, b), a, b) =~= m);
}

/// A swap keeps the set of placed stations.
pub proof fn swap_keeps_stations<V>(m: Map<u128, V>, a: u128, b: u128)
    requires
        m.contains_key(a),
        m.contains_key(b),
    ensures
        swapped(m, a, b).dom() == m.dom(),
{
    assert(swapped(m, a, b).dom() =~= m.dom());
}

} // verus!
