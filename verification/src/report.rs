use vstd::prelude::*;
use crate::fact::same_sizes;
use crate::graph::{Graph, OutletRef};

verus! {

/// One edge of a graph: the outlet that a node reads. Edges are numbered in
/// the order of the nodes and, for one node, of its inputs.
#[derive(Clone, Copy, Debug, PartialEq, Eq, Structural)]
pub struct EdgeSummary {
    pub id: usize,
    pub from_node: usize,
    pub from_out: usize,
    pub to_node: usize,
}

/// The edges into one node, numbered from `first_id` on.
pub open spec fn node_edges(inputs: Seq<OutletRef>, to_node: usize, first_id: int) -> Seq<
    EdgeSummary,
> {
    Seq::new(
        inputs.len(),
        |k: int|
            EdgeSummary {
                id: (first_id + k) as usize,
                from_node: inputs[k].node,
                from_out: inputs[k].slot,
                to_node,
            },
    )
}

/// The edges into the nodes whose id is below `upto`.
pub open spec fn spec_edges<F, O>(g: Graph<F, O>, upto: int) -> Seq<EdgeSummary>
    decreases upto,
{
    if upto <= 0 || upto > g.nodes@.len() {
        Seq::empty()
    } else {
        let before = spec_edges(g, upto - 1);
        match g.nodes@[upto - 1] {
            None => before,
            Some(n) => before + node_edges(n.inputs@, n.id, before.len() as int),
        }
    }
}

/// Every edge of the graph.
pub fn edge_summaries<F, O>(g: &Graph<F, O>) -> (r: Vec<EdgeSummary>)
    ensures
        r@ == spec_edges(*g, g.nodes@.len() as int),
{
    let mut edges: Vec<EdgeSummary> = Vec::new();
    let mut i: usize = 0;
    while i < g.nodes.len()
        invariant
            i <= g.nodes@.len(),
            edges@ == spec_edges(*g, i as int),
        decreases g.nodes@.len() - i,
    {
        match &g.nodes[i] {
            None => {},
            Some(n) => {
                let ghost before = edges@;
                let mut k: usize = 0;
                while k < n.inputs.len()
                    invariant
                        i < g.nodes@.len(),
                        g.nodes@[i as int] == Some(*n),
                        before == spec_edges(*g, i as int),
                        k <= n.inputs@.len(),
                        edges@.len() == before.len() + k,
                        forall|j: int| 0 <= j < before.len() ==> edges@[j] == before[j],
                        forall|j: int|
                            0 <= j < k ==> edges@[before.len() + j] == node_edges(
                                n.inputs@,
                                n.id,
                                before.len() as int,
                            )[j],
                    decreases n.inputs@.len() - k,
                {
                    let from = n.inputs[k];
                    edges.push(
                        EdgeSummary {
                            id: edges.len(),
                            from_node: from.node,
                            from_out: from.slot,
                            to_node: n.id,
                        },
                    );
                    k += 1;
                }
                assert(edges@ =~= before + node_edges(n.inputs@, n.id, before.len() as int));
            },
        }
        i += 1;
    }
    edges
}

/// How two lists of outputs differ.
#[derive(Clone, Copy, Debug, PartialEq, Eq, Structural)]
pub enum Mismatch {
    /// The lists have different lengths.
    Count { expected: usize, found: usize },
    /// The shapes of the outputs at this place differ.
    Shape { output: usize },
    /// The elements of the outputs at this place are not close enough.
    Data { output: usize },
}

/// Whether the shape found is the one expected; a scalar is expected to have
/// any shape.
pub open spec fn shape_matches(expected: Seq<u64>, found: Seq<u64>) -> bool {
    expected.len() == 0 || expected == found
}

/// Whether the elements at place `i` were found close enough: a place without
/// a verdict counts as not close.
pub open spec fn is_close(close: Seq<bool>, i: int) -> bool {
    0 <= i < close.len() && close[i]
}

/// The first difference from place `from` on, in two lists of one length.
pub open spec fn spec_first_mismatch(
    expected: Seq<Vec<u64>>,
    found: Seq<Vec<u64>>,
    close: Seq<bool>,
    from: int,
) -> Option<Mismatch>
    decreases expected.len() - from,
{
    if from < 0 || from >= expected.len() || from >= found.len() {
        None
    } else if !shape_matches(expected[from]@, found[from]@) {
        Some(Mismatch::Shape { output: from as usize })
    } else if !is_close(close, from) {
        Some(Mismatch::Data { output: from as usize })
    } else {
        spec_first_mismatch(expected, found, close, from + 1)
    }
}

/// What the comparison of two lists of outputs finds.
pub open spec fn spec_compare(expected: Seq<Vec<u64>>, found: Seq<Vec<u64>>, close: Seq<bool>) -> Result<
    (),
    Mismatch,
> {
    if expected.len() != found.len() {
        Err(Mismatch::Count { expected: expected.len() as usize, found: found.len() as usize })
    } else {
        match spec_first_mismatch(expected, found, close, 0) {
            Some(m) => Err(m),
            None => Ok(()),
        }
    }
}

/// Compares the outputs that were found with those that were expected, given
/// the shapes of both and, place by place, whether the elements were found
/// close enough; reports the first difference.
pub fn compare_outputs(expected: &Vec<Vec<u64>>, found: &Vec<Vec<u64>>, close: &Vec<bool>) -> (r:
    Result<(), Mismatch>)
    ensures
        r == spec_compare(expected@, found@, close@),
{
    if expected.len() != found.len() {
        return Err(Mismatch::Count { expected: expected.len(), found: found.len() });
    }
    let mut i: usize = 0;
    while i < expected.len()
        invariant
            expected@.len() == found@.len(),
            i <= expected@.len(),
            spec_first_mismatch(expected@, found@, close@, 0) == spec_first_mismatch(
                expected@,
                found@,
                close@,
                i as int,
            ),
        decreases expected@.len() - i,
    {
        if expected[i].len() != 0 && !same_sizes(&expected[i], &found[i]) {
            return Err(Mismatch::Shape { output: i });
        }
        if i >= close.len() || !close[i] {
            return Err(Mismatch::Data { output: i });
        }
        i += 1;
    }
    Ok(())
}

} // verus!
