//! Solving from an edge list: adjacency construction, the degree+1 color
//! budget, the public solver and the independent validator.

use vstd::prelude::*;

use crate::bits::count_true;
use crate::bits::count_row;
use crate::bits::filled_bools;
use crate::bits::lemma_count_true_le_len;
use crate::bits::lemma_count_true_update;
use crate::engine::WfcError;
use crate::engine::WfcState;

verus! {

/// Nodes `i` and `j` are joined by some edge of the list, in either
/// orientation.
pub open spec fn edge_joins(edges: Seq<(usize, usize)>, i: int, j: int) -> bool {
    exists|t: int|
        0 <= t < edges.len() && (((#[trigger] edges[t]).0 == i && edges[t].1 == j) || (
        edges[t].0 == j && edges[t].1 == i))
}

/// The adjacency row of node `i` in the graph given by the edge list.
pub open spec fn adj_row(nodes: int, edges: Seq<(usize, usize)>, i: int) -> Seq<bool> {
    Seq::new(nodes as nat, |j: int| edge_joins(edges, i, j))
}

/// The degree of node `i`.
pub open spec fn degree_of(nodes: int, edges: Seq<(usize, usize)>, i: int) -> nat {
    count_true(adj_row(nodes, edges, i))
}

/// The maximum degree over nodes `0 .. upto`.
pub open spec fn max_degree_upto(nodes: int, edges: Seq<(usize, usize)>, upto: int) -> nat
    decreases upto,
{
    if upto <= 0 {
        0
    } else if degree_of(nodes, edges, upto - 1) > max_degree_upto(nodes, edges, upto - 1) {
        degree_of(nodes, edges, upto - 1)
    } else {
        max_degree_upto(nodes, edges, upto - 1)
    }
}

/// The maximum node degree of the graph, 0 when there are no nodes.
pub open spec fn max_degree(nodes: int, edges: Seq<(usize, usize)>) -> nat {
    max_degree_upto(nodes, edges, nodes)
}

/// Every edge endpoint lies below `nodes` and no edge joins a node to
/// itself.
pub open spec fn edges_wf(nodes: int, edges: Seq<(usize, usize)>) -> bool {
    forall|t: int|
        0 <= t < edges.len() ==> (#[trigger] edges[t]).0 < nodes && edges[t].1 < nodes
            && edges[t].0 != edges[t].1
}

/// A coloring is proper when no edge joins two nodes of one color.
pub open spec fn proper_coloring(edges: Seq<(usize, usize)>, coloring: Seq<usize>) -> bool {
    forall|t: int|
        0 <= t < edges.len() ==> coloring[(#[trigger] edges[t]).0 as int] != coloring[edges[t].1
            as int]
}

/// Appending one edge joins exactly the pairs the edge names, beyond those
/// already joined.
proof fn lemma_edge_joins_push(es: Seq<(usize, usize)>, e: (usize, usize), i: int, j: int)
    ensures
        edge_joins(es.push(e), i, j) == (edge_joins(es, i, j) || (e.0 == i && e.1 == j) || (e.0
            == j && e.1 == i)),
{
    let full = es.push(e);
    if edge_joins(full, i, j) {
        let t = choose|t: int|
            0 <= t < full.len() && (((#[trigger] full[t]).0 == i && full[t].1 == j) || (full[t].0
                == j && full[t].1 == i));
        if t < es.len() {
            assert(es[t] == full[t]);
        } else {
            assert(full[t] == e);
        }
    }
    if edge_joins(es, i, j) {
        let t = choose|t: int|
            0 <= t < es.len() && (((#[trigger] es[t]).0 == i && es[t].1 == j) || (es[t].0 == j
                && es[t].1 == i));
        assert(full[t] == es[t]);
        assert(edge_joins(full, i, j));
    }
    if (e.0 == i && e.1 == j) || (e.0 == j && e.1 == i) {
        assert(full[es.len() as int] == e);
        assert(edge_joins(full, i, j));
    }
}

/// Edge adjacency does not depend on the orientation of the pair asked for.
proof fn lemma_edge_joins_sym(edges: Seq<(usize, usize)>, i: int, j: int)
    ensures
        edge_joins(edges, i, j) == edge_joins(edges, j, i),
{
    if edge_joins(edges, i, j) {
        let t = choose|t: int|
            0 <= t < edges.len() && (((#[trigger] edges[t]).0 == i && edges[t].1 == j) || (
            edges[t].0 == j && edges[t].1 == i));
        assert(edges[t].0 == j && edges[t].1 == i || edges[t].0 == i && edges[t].1 == j);
        assert(edge_joins(edges, j, i));
    }
    if edge_joins(edges, j, i) {
        let t = choose|t: int|
            0 <= t < edges.len() && (((#[trigger] edges[t]).0 == j && edges[t].1 == i) || (
            edges[t].0 == i && edges[t].1 == j));
        assert(edge_joins(edges, i, j));
    }
}

/// No edge of a well-formed list joins a node to itself.
proof fn lemma_edge_joins_irrefl(nodes: int, edges: Seq<(usize, usize)>, i: int)
    requires
        edges_wf(nodes, edges),
    ensures
        !edge_joins(edges, i, i),
{
    if edge_joins(edges, i, i) {
        let t = choose|t: int|
            0 <= t < edges.len() && (((#[trigger] edges[t]).0 == i && edges[t].1 == i) || (
            edges[t].0 == i && edges[t].1 == i));
        assert(edges[t].0 != edges[t].1);
        assert(false);
    }
}

/// A row with a clear bit counts below its length.
proof fn lemma_count_true_lt(s: Seq<bool>, i: int)
    requires
        0 <= i < s.len(),
        !s[i],
    ensures
        count_true(s) <= s.len() - 1,
{
    lemma_count_true_update(s, i, true);
    lemma_count_true_le_len(s.update(i, true));
}

/// Without self-loops a node's degree stays below the node count.
proof fn lemma_degree_lt_nodes(nodes: int, edges: Seq<(usize, usize)>, i: int)
    requires
        edges_wf(nodes, edges),
        0 <= i < nodes,
    ensures
        degree_of(nodes, edges, i) < nodes,
{
    let row = adj_row(nodes, edges, i);
    lemma_edge_joins_irrefl(nodes, edges, i);
    assert(!row[i]);
    lemma_count_true_lt(row, i);
}

/// Every node's degree is bounded by the running maximum.
proof fn lemma_max_degree_upto_bound(nodes: int, edges: Seq<(usize, usize)>, i: int, upto: int)
    requires
        0 <= i < upto,
    ensures
        degree_of(nodes, edges, i) <= max_degree_upto(nodes, edges, upto),
    decreases upto,
{
    if i < upto - 1 {
        lemma_max_degree_upto_bound(nodes, edges, i, upto - 1);
    }
}

/// The maximum degree of a well-formed graph stays below the node count.
proof fn lemma_max_degree_upto_lt(nodes: int, edges: Seq<(usize, usize)>, upto: int)
    requires
        edges_wf(nodes, edges),
        nodes >= 1,
        0 <= upto <= nodes,
    ensures
        max_degree_upto(nodes, edges, upto) <= nodes - 1,
    decreases upto,
{
    if upto > 0 {
        lemma_max_degree_upto_lt(nodes, edges, upto - 1);
        lemma_degree_lt_nodes(nodes, edges, upto - 1);
    }
}

/// The dense symmetric adjacency matrix of the edge list.
fn build_adjacency(nodes: usize, edges: &Vec<(usize, usize)>) -> (m: Vec<Vec<bool>>)
    requires
        edges_wf(nodes as int, edges@),
    ensures
        m@.len() == nodes,
        forall|i: int| 0 <= i < nodes ==> (#[trigger] m@[i])@.len() == nodes,
        forall|i: int, j: int|
            0 <= i < nodes && 0 <= j < nodes ==> m@[i]@[j] == edge_joins(edges@, i, j),
{
    let mut m: Vec<Vec<bool>> = Vec::new();
    let mut k: usize = 0;
    while k < nodes
        invariant
            k <= nodes,
            m@.len() == k,
            forall|i: int| 0 <= i < k ==> (#[trigger] m@[i])@.len() == nodes,
            forall|i: int, j: int| 0 <= i < k && 0 <= j < nodes ==> !m@[i]@[j],
        decreases nodes - k,
    {
        m.push(filled_bools(nodes, false));
        k += 1;
    }
    proof {
        assert(edges@.take(0) =~= Seq::<(usize, usize)>::empty());
        assert forall|i: int, j: int|
            0 <= i < nodes && 0 <= j < nodes implies m@[i]@[j] == edge_joins(
            edges@.take(0),
            i,
            j,
        ) by {
            if edge_joins(edges@.take(0), i, j) {
                let t = choose|t: int|
                    0 <= t < edges@.take(0).len() && (((#[trigger] edges@.take(0)[t]).0 == i
                        && edges@.take(0)[t].1 == j) || (edges@.take(0)[t].0 == j && edges@.take(
                        0,
                    )[t].1 == i));
                assert(false);
            }
        }
    }
    let mut t: usize = 0;
    while t < edges.len()
        invariant
            t <= edges@.len(),
            edges_wf(nodes as int, edges@),
            m@.len() == nodes,
            forall|i: int| 0 <= i < nodes ==> (#[trigger] m@[i])@.len() == nodes,
            forall|i: int, j: int|
                0 <= i < nodes && 0 <= j < nodes ==> m@[i]@[j] == edge_joins(
                    edges@.take(t as int),
                    i,
                    j,
                ),
        decreases edges@.len() - t,
    {
        let edge = edges[t];
        let a = edge.0;
        let b = edge.1;
        let ghost m0 = m@;
        m[a][b] = true;
        m[b][a] = true;
        proof {
            let et = edges@[t as int];
            assert(edges@.take(t as int + 1) =~= edges@.take(t as int).push(et));
            assert forall|i: int, j: int|
                0 <= i < nodes && 0 <= j < nodes implies m@[i]@[j] == edge_joins(
                edges@.take(t as int + 1),
                i,
                j,
            ) by {
                lemma_edge_joins_push(edges@.take(t as int), et, i, j);
                if !(i == a && j == b) && !(i == b && j == a) {
                    assert(m@[i]@[j] == m0[i]@[j]);
                }
            }
        }
        t += 1;
    }
    proof {
        assert(edges@.take(edges@.len() as int) =~= edges@);
    }
    m
}

/// The maximum degree, read off the adjacency matrix.
fn max_degree_exec(nodes: usize, edges: &Vec<(usize, usize)>, m: &Vec<Vec<bool>>) -> (d: usize)
    requires
        m@.len() == nodes,
        forall|i: int| 0 <= i < nodes ==> (#[trigger] m@[i])@.len() == nodes,
        forall|i: int, j: int|
            0 <= i < nodes && 0 <= j < nodes ==> m@[i]@[j] == edge_joins(edges@, i, j),
    ensures
        d == max_degree(nodes as int, edges@),
        forall|i: int| 0 <= i < nodes ==> degree_of(nodes as int, edges@, i) <= d,
{
    let mut d: usize = 0;
    let mut i: usize = 0;
    while i < nodes
        invariant
            i <= nodes,
            m@.len() == nodes,
            forall|k: int| 0 <= k < nodes ==> (#[trigger] m@[k])@.len() == nodes,
            forall|k: int, j: int|
                0 <= k < nodes && 0 <= j < nodes ==> m@[k]@[j] == edge_joins(edges@, k, j),
            d == max_degree_upto(nodes as int, edges@, i as int),
        decreases nodes - i,
    {
        let c = count_row(&m[i]);
        proof {
            assert(m@[i as int]@ =~= adj_row(nodes as int, edges@, i as int));
            assert(c == degree_of(nodes as int, edges@, i as int));
        }
        if c > d {
            d = c;
        }
        i += 1;
    }
    proof {
        assert forall|i: int|
            0 <= i < nodes implies degree_of(nodes as int, edges@, i) <= d by {
            lemma_max_degree_upto_bound(nodes as int, edges@, i, nodes as int);
        }
    }
    d
}

/// Color an undirected graph, given as an edge list over nodes
/// `0 .. nodes`, with the wave-function-collapse engine and a budget of
/// max degree + 1 colors. Colors are returned 1-based, one per node. A
/// directed input is rejected with `InvalidInput` before any engine state
/// is created; on an undirected one the solve always succeeds and the
/// coloring is proper.
pub fn wfc_color(nodes: usize, directed: bool, edges: &Vec<(usize, usize)>) -> (r: Result<
    Vec<usize>,
    WfcError,
>)
    requires
        edges_wf(nodes as int, edges@),
        nodes < usize::MAX,
    ensures
        directed <==> r == Err::<Vec<usize>, WfcError>(WfcError::InvalidInput),
        !directed ==> r is Ok,
        (r matches Ok(out) ==> {
            &&& out@.len() == nodes
            &&& forall|i: int|
                0 <= i < nodes ==> 1 <= #[trigger] out@[i] && out@[i] <= max_degree(
                    nodes as int,
                    edges@,
                ) + 1
            &&& proper_coloring(edges@, out@)
        }),
{
    if directed {
        return Err(WfcError::InvalidInput);
    }
    let connections = build_adjacency(nodes, edges);
    let max_deg = max_degree_exec(nodes, edges, &connections);
    proof {
        if nodes > 0 {
            lemma_max_degree_upto_lt(nodes as int, edges@, nodes as int);
        }
        assert forall|i: int, j: int|
            0 <= i < nodes && 0 <= j < nodes implies connections@[i]@[j] == connections@[j]@[i] by {
            lemma_edge_joins_sym(edges@, i, j);
        }
        assert forall|i: int| 0 <= i < nodes implies !connections@[i]@[i] by {
            lemma_edge_joins_irrefl(nodes as int, edges@, i);
        }
    }
    let colors = max_deg + 1;
    let ghost conn0 = connections@;
    let mut state = WfcState::new(nodes, colors, connections);
    proof {
        assert forall|i: int| 0 <= i < nodes implies #[trigger] state.degree(i) < colors by {
            assert(state.connections@[i]@ =~= adj_row(nodes as int, edges@, i));
            assert(degree_of(nodes as int, edges@, i) <= max_deg);
        }
    }
    let ghost st0 = state;
    let result = match state.run() {
        Ok(res) => res,
        Err(e) => {
            proof {
                assert(false);
            }
            return Err(e);
        },
    };
    let mut out: Vec<usize> = Vec::new();
    let mut k: usize = 0;
    while k < nodes
        invariant
            k <= nodes,
            nodes < usize::MAX,
            out@.len() == k,
            result@.len() == nodes,
            forall|i: int| 0 <= i < nodes ==> (#[trigger] result@[i]) < colors,
            colors <= nodes || nodes == 0,
            colors == max_deg + 1,
            forall|i: int| 0 <= i < k ==> out@[i] == result@[i] + 1,
        decreases nodes - k,
    {
        out.push(result[k] + 1);
        k += 1;
    }
    proof {
        assert forall|t: int|
            0 <= t < edges@.len() implies out@[(#[trigger] edges@[t]).0 as int] != out@[edges@[t].1
            as int] by {
            let a = edges@[t].0 as int;
            let b = edges@[t].1 as int;
            assert(edge_joins(edges@, a, b));
            assert(conn0[a]@[b]);
            assert(st0.adj(a, b));
            assert(result@[a] != result@[b]);
        }
    }
    Ok(out)
}

/// Re-check a coloring independently: walk every edge and report whether
/// none joins two nodes of one color. A pure check, not a repair.
pub fn validate_coloring(nodes: usize, edges: &Vec<(usize, usize)>, coloring: &Vec<usize>) -> (r:
    bool)
    requires
        edges_wf(nodes as int, edges@),
        coloring@.len() == nodes,
    ensures
        r == proper_coloring(edges@, coloring@),
{
    let mut t: usize = 0;
    while t < edges.len()
        invariant
            t <= edges@.len(),
            edges_wf(nodes as int, edges@),
            coloring@.len() == nodes,
            forall|u: int|
                0 <= u < t ==> coloring@[(#[trigger] edges@[u]).0 as int] != coloring@[edges@[u].1
                    as int],
        decreases edges@.len() - t,
    {
        let edge = edges[t];
        if coloring[edge.0] == coloring[edge.1] {
            return false;
        }
        t += 1;
    }
    true
}

} // verus!
