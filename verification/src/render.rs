use vstd::prelude::*;
use crate::types::{Network, Edge};

verus! {

/// The offset of the `i`-th of `n` parallel lines on an edge, in quarters
/// of a drawing unit: lines are 3 units wide with 1.5 units between them,
/// centred on the edge, so the offset is `(i - (n - 1) / 2) * 4.5` units.
pub open spec fn offset_quarters(i: int, n: int) -> int {
    (2 * i - n + 1) * 9
}

/// How the lines that share an edge are drawn side by side.
pub struct EdgeRenderData {
    /// For each line on the edge, in order, its offset in quarters of a unit.
    pub line_offsets: Vec<(u128, i128)>,
    pub bundle_order: Vec<u128>,
}

/// `d` is the render data of edge `e`.
pub open spec fn is_render_data_of(d: EdgeRenderData, e: Edge) -> bool {
    let n = e.line_ids@.len() as int;
    &&& d.bundle_order@ == e.line_ids@
    &&& d.line_offsets@.len() == n
    &&& forall|i: int|
        0 <= i < n ==> (#[trigger] d.line_offsets@[i]).0 == e.line_ids@[i] && d.line_offsets@[i].1
            == offset_quarters(i, n)
}

fn edge_render_data(edge: &Edge) -> (d: EdgeRenderData)
    ensures
        is_render_data_of(d, *edge),
{
    let n = edge.line_ids.len();
    let mut offsets: Vec<(u128, i128)> = Vec::new();
    let mut i: usize = 0;
    while i < n
        invariant
            n == edge.line_ids@.len(),
            0 <= i <= n,
            offsets@.len() == i,
            forall|k: int|
                0 <= k < i ==> (#[trigger] offsets@[k]).0 == edge.line_ids@[k] && offsets@[k].1
                    == offset_quarters(k, n as int),
        decreases n - i,
    {
        let off: i128 = (2 * (i as i128) - (n as i128) + 1) * 9;
        offsets.push((edge.line_ids[i], off));
        i += 1;
    }
    EdgeRenderData { line_offsets: offsets, bundle_order: edge.line_ids.clone() }
}

/// The render data of every edge, in edge order, keyed by the edge's id.
pub fn compute_edge_render_data(network: &Network) -> (r: Vec<(u128, EdgeRenderData)>)
    ensures
        r@.len() == network.edges@.len(),
        forall|k: int|
            0 <= k < r@.len() ==> (#[trigger] r@[k]).0 == network.edges@[k].id
                && is_render_data_of(r@[k].1, network.edges@[k]),
{
    let mut r: Vec<(u128, EdgeRenderData)> = Vec::new();
    let mut k: usize = 0;
    while k < network.edges.len()
        invariant
            0 <= k <= network.edges@.len(),
            r@.len() == k,
            forall|j: int|
                0 <= j < k ==> (#[trigger] r@[j]).0 == network.edges@[j].id && is_render_data_of(
                    r@[j].1,
                    network.edges@[j],
                ),
        decreases network.edges@.len() - k,
    {
        let d = edge_render_data(&network.edges[k]);
        r.push((network.edges[k].id, d));
        k += 1;
    }
    r
}

/// The offsets of an edge's lines are placed symmetrically about the edge:
/// the `i`-th line from one side and the `i`-th from the other are opposite.
pub proof fn offsets_symmetric(d: EdgeRenderData, e: Edge, i: int)
    requires
        is_render_data_of(d, e),
        0 <= i < e.line_ids@.len(),
    ensures
        d.line_offsets@[i].1 + d.line_offsets@[e.line_ids@.len() - 1 - i].1 == 0,
{
    let n = e.line_ids@.len() as int;
    assert(d.line_offsets@[i].1 == offset_quarters(i, n));
    assert(d.line_offsets@[n - 1 - i].1 == offset_quarters(n - 1 - i, n));
}

/// Neighbouring lines on an edge are 4.5 units (18 quarters) apart.
pub proof fn offsets_evenly_spaced(d: EdgeRenderData, e: Edge, i: int)
    requires
        is_render_data_of(d, e),
        0 <= i < e.line_ids@.len() - 1,
    ensures
        d.line_offsets@[i + 1].1 - d.line_offsets@[i].1 == 18,
{
    let n = e.line_ids@.len() as int;
    assert(d.line_offsets@[i].1 == offset_quarters(i, n));
    assert(d.line_offsets@[i + 1].1 == offset_quarters(i + 1, n));
}

} // verus!
