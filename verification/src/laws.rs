//! The library's laws, stated over the same spec functions the public
//! contracts use and proved once and for all.

use vstd::prelude::*;

use crate::bits::lemma_count_true_none;
use crate::bits::lemma_count_true_two;
use crate::coloring::adj_row;
use crate::coloring::degree_of;
use crate::coloring::edge_joins;
use crate::coloring::edges_wf;
use crate::coloring::max_degree;
use crate::coloring::max_degree_upto;
use crate::coloring::proper_coloring;

verus! {

/// A coloring that separates every joined pair of nodes passes the
/// edge-by-edge check of the validator: whenever a solve succeeds, the
/// independent validator must report the coloring proper.
pub proof fn lemma_solution_validates(nodes: int, edges: Seq<(usize, usize)>, coloring: Seq<
    usize,
>)
    requires
        edges_wf(nodes, edges),
        forall|i: int, j: int|
            0 <= i < nodes && 0 <= j < nodes && edge_joins(edges, i, j) ==> coloring[i]
                != coloring[j],
    ensures
        proper_coloring(edges, coloring),
{
    assert forall|t: int|
        0 <= t < edges.len() implies coloring[(#[trigger] edges[t]).0 as int]
        != coloring[edges[t].1 as int] by {
        let a = edges[t].0 as int;
        let b = edges[t].1 as int;
        assert(edge_joins(edges, a, b));
    }
}

proof fn lemma_max_degree_upto_zero(nodes: int, edges: Seq<(usize, usize)>, upto: int)
    requires
        edges.len() == 0,
        upto <= nodes,
    ensures
        max_degree_upto(nodes, edges, upto) == 0,
    decreases upto,
{
    if upto > 0 {
        lemma_max_degree_upto_zero(nodes, edges, upto - 1);
        let row = adj_row(nodes, edges, upto - 1);
        assert forall|j: int| 0 <= j < row.len() implies !row[j] by {
            if edge_joins(edges, upto - 1, j) {
                let t = choose|t: int|
                    0 <= t < edges.len() && (((#[trigger] edges[t]).0 == upto - 1 && edges[t].1
                        == j) || (edges[t].0 == j && edges[t].1 == upto - 1));
                assert(false);
            }
        }
        lemma_count_true_none(row);
    }
}

/// An edgeless graph has maximum degree 0, so its budget is one color and
/// every node of a solution carries that single color.
pub proof fn lemma_edgeless_single_color(nodes: int, edges: Seq<(usize, usize)>, out: Seq<usize>)
    requires
        edges.len() == 0,
        out.len() == nodes,
        forall|i: int|
            0 <= i < nodes ==> 1 <= #[trigger] out[i] && out[i] <= max_degree(nodes, edges) + 1,
    ensures
        max_degree(nodes, edges) == 0,
        forall|i: int| 0 <= i < nodes ==> out[i] == 1,
{
    lemma_max_degree_upto_zero(nodes, edges, nodes);
}

/// On a complete graph a proper coloring separates every pair of nodes:
/// with `nodes` nodes the solution uses exactly `nodes` distinct colors,
/// one per node.
pub proof fn lemma_complete_distinct(nodes: int, edges: Seq<(usize, usize)>, out: Seq<usize>)
    requires
        forall|i: int, j: int|
            0 <= i < nodes && 0 <= j < nodes && i != j ==> edge_joins(edges, i, j),
        out.len() == nodes,
        proper_coloring(edges, out),
    ensures
        forall|i: int, j: int| 0 <= i < nodes && 0 <= j < nodes && i != j ==> out[i] != out[j],
{
    assert forall|i: int, j: int|
        0 <= i < nodes && 0 <= j < nodes && i != j implies out[i] != out[j] by {
        assert(edge_joins(edges, i, j));
        let t = choose|t: int|
            0 <= t < edges.len() && (((#[trigger] edges[t]).0 == i && edges[t].1 == j) || (
            edges[t].0 == j && edges[t].1 == i));
        assert(out[edges[t].0 as int] != out[edges[t].1 as int]);
    }
}

/// The successor of a node along a ring of `nodes` nodes.
pub open spec fn next_in_ring(nodes: int, i: int) -> int {
    if i == nodes - 1 {
        0
    } else {
        i + 1
    }
}

/// The edge list of a ring: edge `t` joins node `t` to its successor.
pub open spec fn is_ring(nodes: int, edges: Seq<(usize, usize)>) -> bool {
    &&& edges.len() == nodes
    &&& forall|t: int|
        0 <= t < nodes ==> (#[trigger] edges[t]).0 == t && edges[t].1 == next_in_ring(nodes, t)
}

proof fn lemma_ring_adj(nodes: int, edges: Seq<(usize, usize)>, i: int, j: int)
    requires
        nodes >= 3,
        is_ring(nodes, edges),
        0 <= i < nodes,
        0 <= j < nodes,
    ensures
        edge_joins(edges, i, j) == (j == next_in_ring(nodes, i) || i == next_in_ring(nodes, j)),
{
    if edge_joins(edges, i, j) {
        let t = choose|t: int|
            0 <= t < edges.len() && (((#[trigger] edges[t]).0 == i && edges[t].1 == j) || (
            edges[t].0 == j && edges[t].1 == i));
        assert(edges[t].0 == t && edges[t].1 == next_in_ring(nodes, t));
    }
    if j == next_in_ring(nodes, i) {
        assert(edges[i] == (i as usize, j as usize)) by {
            assert(edges[i].0 == i && edges[i].1 == next_in_ring(nodes, i));
        }
        assert(edge_joins(edges, i, j));
    }
    if i == next_in_ring(nodes, j) {
        assert(edges[j].0 == j && edges[j].1 == next_in_ring(nodes, j));
        assert(edge_joins(edges, i, j));
    }
}

proof fn lemma_ring_max_degree_upto(nodes: int, edges: Seq<(usize, usize)>, upto: int)
    requires
        nodes >= 3,
        is_ring(nodes, edges),
        0 <= upto <= nodes,
    ensures
        max_degree_upto(nodes, edges, upto) == if upto == 0 {
            0int
        } else {
            2int
        },
    decreases upto,
{
    if upto > 0 {
        lemma_ring_max_degree_upto(nodes, edges, upto - 1);
        let i = upto - 1;
        let row = adj_row(nodes, edges, i);
        let a = next_in_ring(nodes, i);
        let b = if i == 0 {
            nodes - 1
        } else {
            i - 1
        };
        assert(i == next_in_ring(nodes, b));
        assert(a != b);
        assert forall|j: int| 0 <= j < nodes implies row[j] == (j == a || j == b) by {
            lemma_ring_adj(nodes, edges, i, j);
            if i == next_in_ring(nodes, j) {
                assert(j == b);
            }
        }
        assert(row[a] && row[b]);
        lemma_count_true_two(row, a, b);
        assert(degree_of(nodes, edges, i) == 2);
    }
}

/// A ring of at least three nodes has maximum degree 2, so a solution with
/// the degree+1 budget is a proper coloring with at most three colors.
pub proof fn lemma_ring_three_colors(nodes: int, edges: Seq<(usize, usize)>, out: Seq<usize>)
    requires
        nodes >= 3,
        is_ring(nodes, edges),
        out.len() == nodes,
        forall|i: int|
            0 <= i < nodes ==> 1 <= #[trigger] out[i] && out[i] <= max_degree(nodes, edges) + 1,
        proper_coloring(edges, out),
    ensures
        max_degree(nodes, edges) == 2,
        forall|i: int| 0 <= i < nodes ==> 1 <= #[trigger] out[i] && out[i] <= 3,
        forall|t: int| 0 <= t < nodes ==> out[t] != out[next_in_ring(nodes, t)],
{
    lemma_ring_max_degree_upto(nodes, edges, nodes);
    assert forall|t: int| 0 <= t < nodes implies out[t] != out[next_in_ring(nodes, t)] by {
        assert(edges[t].0 == t && edges[t].1 == next_in_ring(nodes, t));
        assert(out[(edges[t]).0 as int] != out[edges[t].1 as int]);
    }
}

} // verus!
