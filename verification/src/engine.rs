//! The constraint-propagation engine: per-node color domains, entropy
//! bookkeeping, lowest-entropy selection, collapse, propagation and the run
//! loop, with the invariants that make a successful run a proper coloring.

use vstd::prelude::*;

use crate::bits::count_true;
use crate::bits::filled_bools;
use crate::bits::filled_usizes;
use crate::bits::first_true_index;
use crate::bits::false_positions;
use crate::bits::true_positions;
use crate::bits::lemma_count_true_all;
use crate::bits::lemma_count_true_le_len;
use crate::bits::lemma_count_true_none;
use crate::bits::lemma_count_true_pos;
use crate::bits::lemma_count_true_single;
use crate::bits::lemma_count_true_update;
use crate::bits::lemma_false_positions_card;
use crate::bits::lemma_injection_card;
use crate::bits::lemma_singleton_unique;
use crate::bits::lemma_true_positions_card;

verus! {

/// The failure taxonomy of a solve.
#[derive(Clone, Copy, Debug, PartialEq, Eq, Structural)]
pub enum WfcError {
    /// The input graph is directed; rejected before any engine state exists.
    InvalidInput,
    /// A node selected for collapse already has an empty domain.
    ImpossiblePattern,
    /// A domain bit-scan expected to find a set bit and found none.
    NoAvailableColor,
    /// A neighbor's domain was emptied during propagation.
    PropagationContradiction,
}

/// One solve attempt: domains, entropies, committed colors and the
/// propagation queue over a fixed symmetric adjacency matrix.
///
/// `usize::MAX` serves as two sentinels: in `entropy` it marks a collapsed
/// node (domain frozen to one bit), in `output` a node without a committed
/// color.
pub struct WfcState {
    pub nodes: usize,
    pub colors: usize,
    pub connections: Vec<Vec<bool>>,
    pub available_colors: Vec<Vec<bool>>,
    pub entropy: Vec<usize>,
    pub output: Vec<usize>,
    pub affected_nodes: Vec<usize>,
    pub min_index: Option<usize>,
    pub finished: bool,
    pub restart_flag: bool,
}

impl WfcState {
    /// Nodes `i` and `j` are adjacent.
    pub open spec fn adj(self, i: int, j: int) -> bool {
        self.connections@[i]@[j]
    }

    /// Node `i` is collapsed: its color is committed and its domain frozen.
    pub open spec fn is_collapsed(self, i: int) -> bool {
        self.entropy@[i] == usize::MAX
    }

    /// Color `c` is still available to node `i`.
    pub open spec fn dom(self, i: int, c: int) -> bool {
        self.available_colors@[i]@[c]
    }

    /// Number of colors still available to node `i`.
    pub open spec fn dom_count(self, i: int) -> nat {
        count_true(self.available_colors@[i]@)
    }

    /// Number of neighbors of node `i`.
    pub open spec fn degree(self, i: int) -> nat {
        count_true(self.connections@[i]@)
    }

    /// The color budget exceeds every degree: the classical greedy bound
    /// under which a solve cannot run into a contradiction.
    pub open spec fn degree_bound(self) -> bool {
        forall|i: int| 0 <= i < self.nodes ==> #[trigger] self.degree(i) < self.colors
    }

    /// The adjacency matrix is square, symmetric and irreflexive, and the
    /// color budget fits beside the collapsed sentinel.
    pub open spec fn graph_wf(self) -> bool {
        &&& self.connections@.len() == self.nodes
        &&& forall|i: int|
            0 <= i < self.nodes ==> (#[trigger] self.connections@[i])@.len() == self.nodes
        &&& forall|i: int, j: int|
            0 <= i < self.nodes && 0 <= j < self.nodes ==> self.adj(i, j) == self.adj(j, i)
        &&& forall|i: int| 0 <= i < self.nodes ==> !self.adj(i, i)
        &&& self.colors < usize::MAX
        &&& (self.nodes > 0 ==> self.colors >= 1)
    }

    /// Every per-node array has the right length.
    pub open spec fn arrays_wf(self) -> bool {
        &&& self.available_colors@.len() == self.nodes
        &&& forall|i: int|
            0 <= i < self.nodes ==> (#[trigger] self.available_colors@[i])@.len() == self.colors
        &&& self.entropy@.len() == self.nodes
        &&& self.output@.len() == self.nodes
    }

    pub open spec fn wf(self) -> bool {
        self.graph_wf() && self.arrays_wf()
    }

    /// A collapsed node's domain is the singleton of its committed color; an
    /// uncollapsed node's entropy is its domain's population count and its
    /// output is still the unset sentinel.
    pub open spec fn node_ok(self, i: int) -> bool {
        if self.is_collapsed(i) {
            &&& self.output@[i] < self.colors
            &&& self.dom(i, self.output@[i] as int)
            &&& self.dom_count(i) == 1
        } else {
            &&& self.entropy@[i] == self.dom_count(i)
            &&& self.output@[i] == usize::MAX
        }
    }

    pub open spec fn nodes_ok(self) -> bool {
        forall|i: int| 0 <= i < self.nodes ==> #[trigger] self.node_ok(i)
    }

    /// No uncollapsed node has an empty domain.
    pub open spec fn no_empty_domains(self) -> bool {
        forall|i: int|
            0 <= i < self.nodes && !self.is_collapsed(i) ==> #[trigger] self.dom_count(i) >= 1
    }

    /// Every queued node is in range and has a singleton domain.
    pub open spec fn queue_ok(self) -> bool {
        forall|t: int|
            0 <= t < self.affected_nodes@.len() ==> (#[trigger] self.affected_nodes@[t])
                < self.nodes && self.dom_count(self.affected_nodes@[t] as int) == 1
    }

    /// Adjacent collapsed nodes carry distinct colors.
    pub open spec fn collapsed_pairs_ok(self) -> bool {
        forall|i: int, j: int|
            0 <= i < self.nodes && 0 <= j < self.nodes && i != j && #[trigger] self.adj(i, j)
                && self.is_collapsed(i) && self.is_collapsed(j) ==> self.output@[i]
                != self.output@[j]
    }

    /// A collapsed node whose color is still available to an uncollapsed
    /// neighbor sits in the queue, except node `ex` for neighbors at or past
    /// `upto` (the part of the adjacency row a propagation pass has not
    /// reached yet).
    pub open spec fn pending_except(self, ex: int, upto: int) -> bool {
        forall|i: int, j: int|
            0 <= i < self.nodes && 0 <= j < self.nodes && #[trigger] self.adj(i, j)
                && self.is_collapsed(i) && !self.is_collapsed(j) && self.dom(
                j,
                self.output@[i] as int,
            ) ==> self.affected_nodes@.contains(i as usize) || (i == ex && upto <= j)
    }

    /// A collapsed node whose color is still available to an uncollapsed
    /// neighbor sits in the queue, awaiting propagation.
    pub open spec fn pending_ok(self) -> bool {
        forall|i: int, j: int|
            0 <= i < self.nodes && 0 <= j < self.nodes && #[trigger] self.adj(i, j)
                && self.is_collapsed(i) && !self.is_collapsed(j) && self.dom(
                j,
                self.output@[i] as int,
            ) ==> self.affected_nodes@.contains(i as usize)
    }

    /// The owner clause for one node: every color missing from its domain is
    /// the sole color of some neighbor with a singleton domain. Distinct
    /// missing colors then have distinct owners, which bounds how many colors
    /// a node can ever lose by its degree.
    pub open spec fn owners_ok_for(self, j: int) -> bool {
        forall|c: int|
            0 <= c < self.colors && !(#[trigger] self.dom(j, c)) ==> exists|q: int|
                0 <= q < self.nodes && #[trigger] self.adj(j, q) && self.dom_count(q) == 1
                    && self.dom(q, c)
    }

    pub open spec fn owners_ok(self) -> bool {
        forall|j: int|
            0 <= j < self.nodes && !self.is_collapsed(j) ==> #[trigger] self.owners_ok_for(j)
    }

    /// The engine's invariant while a propagation pass is in flight: the
    /// queue may be nonempty and adjacent constraints not yet applied are
    /// covered by `pending_except`.
    pub open spec fn prop_inv(self) -> bool {
        &&& self.wf()
        &&& self.nodes_ok()
        &&& self.no_empty_domains()
        &&& self.queue_ok()
        &&& self.collapsed_pairs_ok()
        &&& self.pending_ok()
        &&& self.owners_ok()
        &&& (self.finished ==> forall|i: int| 0 <= i < self.nodes ==> self.is_collapsed(i))
    }

    /// The engine's invariant between steps: `prop_inv` with a drained queue,
    /// so every committed color has been removed from every neighbor.
    pub open spec fn inv(self) -> bool {
        self.prop_inv() && self.affected_nodes@.len() == 0
    }

    /// The state right after construction or a restart: full domains, no
    /// commitments, nothing queued.
    pub open spec fn is_fresh(self) -> bool {
        &&& forall|i: int| 0 <= i < self.nodes ==> #[trigger] self.entropy@[i] == self.colors
        &&& forall|i: int| 0 <= i < self.nodes ==> #[trigger] self.output@[i] == usize::MAX
        &&& forall|i: int, c: int|
            0 <= i < self.nodes && 0 <= c < self.colors ==> #[trigger] self.dom(i, c)
        &&& self.affected_nodes@.len() == 0
        &&& self.min_index is None
        &&& !self.finished
    }

    /// Some uncollapsed node has entropy zero: the condition that triggers a
    /// silent restart when the selection scan meets it.
    pub open spec fn has_contradiction(self) -> bool {
        exists|i: int|
            0 <= i < self.nodes && !self.is_collapsed(i) && #[trigger] self.entropy@[i] == 0
    }

    /// Which nodes are collapsed, as flags: the run loop's progress measure
    /// counts them.
    pub open spec fn collapsed_flags(self) -> Seq<bool> {
        Seq::new(self.entropy@.len(), |i: int| self.entropy@[i] == usize::MAX)
    }

    /// The selection scan's result: the first uncollapsed node of minimal
    /// entropy.
    pub open spec fn selected_ok(self) -> bool {
        match self.min_index {
            Some(m) => {
                &&& m < self.nodes
                &&& !self.is_collapsed(m as int)
                &&& forall|i: int|
                    0 <= i < self.nodes && !self.is_collapsed(i) ==> self.entropy@[m as int]
                        <= #[trigger] self.entropy@[i]
                &&& forall|i: int|
                    0 <= i < m && !self.is_collapsed(i) ==> #[trigger] self.entropy@[i]
                        > self.entropy@[m as int]
            },
            None => false,
        }
    }

    proof fn lemma_fresh_inv(self)
        requires
            self.wf(),
            self.is_fresh(),
        ensures
            self.inv(),
    {
        assert forall|i: int|
            0 <= i < self.nodes implies count_true(self.available_colors@[i]@)
            == self.colors by {
            let row = self.available_colors@[i]@;
            assert(row.len() == self.colors);
            assert forall|d: int| 0 <= d < row.len() implies row[d] by {
                assert(self.dom(i, d));
            }
            lemma_count_true_all(row);
        }
        assert forall|i: int| 0 <= i < self.nodes implies #[trigger] self.node_ok(i) by {
            assert(count_true(self.available_colors@[i]@) == self.colors);
        }
        assert forall|i: int|
            0 <= i < self.nodes && !self.is_collapsed(i) implies #[trigger] self.dom_count(i)
            >= 1 by {
            assert(count_true(self.available_colors@[i]@) == self.colors);
        }
    }

    /// The graph side of well-formedness depends only on the adjacency
    /// matrix and the two sizes.
    proof fn lemma_same_graph_wf(self, other: WfcState)
        requires
            self.graph_wf(),
            other.nodes == self.nodes,
            other.colors == self.colors,
            other.connections == self.connections,
        ensures
            other.graph_wf(),
    {
        assert forall|i: int|
            0 <= i < other.nodes implies (#[trigger] other.connections@[i])@.len()
            == other.nodes by {
            assert(self.connections@[i]@.len() == self.nodes);
        }
        assert forall|i: int, j: int|
            0 <= i < other.nodes && 0 <= j < other.nodes implies other.adj(i, j) == other.adj(
            j,
            i,
        ) by {
            assert(self.adj(i, j) == self.adj(j, i));
        }
        assert forall|i: int| 0 <= i < other.nodes implies !other.adj(i, i) by {
            assert(!self.adj(i, i));
        }
    }

    /// A fresh engine over `nodes` nodes, a budget of `colors` colors and the
    /// given symmetric adjacency matrix.
    pub fn new(nodes: usize, colors: usize, connections: Vec<Vec<bool>>) -> (s: Self)
        requires
            connections@.len() == nodes,
            forall|i: int| 0 <= i < nodes ==> (#[trigger] connections@[i])@.len() == nodes,
            forall|i: int, j: int|
                0 <= i < nodes && 0 <= j < nodes ==> connections@[i]@[j] == connections@[j]@[i],
            forall|i: int| 0 <= i < nodes ==> !connections@[i]@[i],
            colors < usize::MAX,
            nodes > 0 ==> colors >= 1,
        ensures
            s.inv(),
            s.is_fresh(),
            !s.restart_flag,
            s.nodes == nodes,
            s.colors == colors,
            s.connections == connections,
    {
        let s = WfcState {
            nodes,
            colors,
            connections,
            available_colors: full_domains(nodes, colors),
            entropy: filled_usizes(nodes, colors),
            output: filled_usizes(nodes, usize::MAX),
            affected_nodes: Vec::new(),
            min_index: None,
            finished: false,
            restart_flag: false,
        };
        proof {
            s.lemma_fresh_inv();
        }
        s
    }

    /// Discard all progress: reinitialize every per-node array to its initial
    /// domain, keeping the same adjacency and color budget, and record in
    /// `restart_flag` that a restart occurred.
    pub fn restart_wfc(&mut self)
        requires
            old(self).graph_wf(),
        ensures
            final(self).inv(),
            final(self).is_fresh(),
            final(self).restart_flag,
            final(self).nodes == old(self).nodes,
            final(self).colors == old(self).colors,
            final(self).connections == old(self).connections,
    {
        self.available_colors = full_domains(self.nodes, self.colors);
        self.entropy = filled_usizes(self.nodes, self.colors);
        self.output = filled_usizes(self.nodes, usize::MAX);
        self.affected_nodes = Vec::new();
        self.min_index = None;
        self.finished = false;
        self.restart_flag = true;
        proof {
            old(self).lemma_same_graph_wf(*self);
            assert(self.arrays_wf());
            self.lemma_fresh_inv();
        }
    }

    /// Scan all nodes for the first uncollapsed one of minimal entropy. An
    /// uncollapsed node with entropy zero instead triggers a full silent
    /// restart, flagged in `restart_flag`. If no uncollapsed node remains,
    /// the run is marked finished with no selection.
    pub fn find_lowest_entropy(&mut self)
        requires
            old(self).wf(),
            old(self).nodes_ok(),
        ensures
            final(self).nodes == old(self).nodes,
            final(self).colors == old(self).colors,
            final(self).connections == old(self).connections,
            old(self).has_contradiction() ==> {
                &&& final(self).inv()
                &&& final(self).is_fresh()
                &&& final(self).restart_flag
            },
            !old(self).has_contradiction() ==> {
                &&& final(self).available_colors == old(self).available_colors
                &&& final(self).entropy == old(self).entropy
                &&& final(self).output == old(self).output
                &&& final(self).affected_nodes == old(self).affected_nodes
                &&& final(self).restart_flag == old(self).restart_flag
                &&& final(self).finished == (forall|i: int|
                    0 <= i < old(self).nodes ==> old(self).is_collapsed(i))
                &&& (final(self).finished ==> final(self).min_index is None)
                &&& (!final(self).finished ==> final(self).selected_ok())
            },
    {
        let mut min_value: usize = self.colors + 1;
        self.finished = true;
        self.min_index = None;

        let mut index: usize = 0;
        while index < self.nodes
            invariant
                old(self).wf(),
                old(self).nodes_ok(),
                index <= old(self).nodes,
                self.nodes == old(self).nodes,
                self.colors == old(self).colors,
                self.connections == old(self).connections,
                self.available_colors == old(self).available_colors,
                self.entropy == old(self).entropy,
                self.output == old(self).output,
                self.affected_nodes == old(self).affected_nodes,
                self.restart_flag == old(self).restart_flag,
                min_value <= old(self).colors + 1,
                forall|i: int|
                    0 <= i < index && !old(self).is_collapsed(i) ==> #[trigger] old(self).entropy@[i] != 0,
                match self.min_index {
                    Some(m) => {
                        &&& !self.finished
                        &&& m < index
                        &&& !old(self).is_collapsed(m as int)
                        &&& old(self).entropy@[m as int] == min_value
                        &&& forall|i: int|
                            0 <= i < index && !old(self).is_collapsed(i) ==> min_value
                                <= #[trigger] old(self).entropy@[i]
                        &&& forall|i: int|
                            0 <= i < m && !old(self).is_collapsed(i) ==> #[trigger] old(self).entropy@[i]
                                > min_value
                    },
                    None => {
                        &&& self.finished
                        &&& min_value == old(self).colors + 1
                        &&& forall|i: int| 0 <= i < index ==> old(self).is_collapsed(i)
                    },
                },
            decreases old(self).nodes - index,
        {
            let val = self.entropy[index];
            if val != usize::MAX {
                if val == 0 {
                    proof {
                        old(self).lemma_same_graph_wf(*self);
                    }
                    self.restart_wfc();
                    return;
                }
                proof {
                    assert(old(self).node_ok(index as int));
                    lemma_count_true_le_len(old(self).available_colors@[index as int]@);
                }
                if val < min_value {
                    min_value = val;
                    self.min_index = Some(index);
                    self.finished = false;
                }
            }
            index += 1;
        }
        proof {
            if old(self).has_contradiction() {
                let i = choose|i: int|
                    0 <= i < old(self).nodes && !old(self).is_collapsed(i)
                        && #[trigger] old(self).entropy@[i] == 0;
                assert(false);
            }
        }
    }

    /// Fix the chosen node: mark it collapsed, commit the lowest-indexed
    /// color still in its domain, narrow the domain to that color and queue
    /// the node for propagation. A no-op once the run is finished.
    #[verifier::rlimit(30)]
    pub fn collapse(&mut self, index: usize) -> (r: Result<(), WfcError>)
        requires
            old(self).inv(),
            index < old(self).nodes,
        ensures
            r is Ok,
            old(self).finished ==> *final(self) == *old(self),
            !old(self).finished ==> {
                &&& final(self).prop_inv()
                &&& final(self).nodes == old(self).nodes
                &&& final(self).colors == old(self).colors
                &&& final(self).connections == old(self).connections
                &&& final(self).min_index == old(self).min_index
                &&& final(self).finished == old(self).finished
                &&& final(self).restart_flag == old(self).restart_flag
                &&& final(self).is_collapsed(index as int)
                &&& forall|i: int|
                    0 <= i < old(self).nodes && i != index ==> final(self).entropy@[i]
                        == old(self).entropy@[i]
                &&& forall|i: int|
                    0 <= i < old(self).nodes && i != index ==> final(self).available_colors@[i]
                        == old(self).available_colors@[i]
                &&& forall|i: int|
                    0 <= i < old(self).nodes && i != index ==> final(self).output@[i] == old(
                        self,
                    ).output@[i]
                &&& ({
                    let c = final(self).output@[index as int] as int;
                    &&& 0 <= c < old(self).colors
                    &&& old(self).dom(index as int, c)
                    &&& (forall|d: int| 0 <= d < c ==> !old(self).dom(index as int, d))
                    &&& (forall|d: int|
                        0 <= d < old(self).colors ==> final(self).dom(index as int, d) == (d
                            == c))
                })
                &&& final(self).affected_nodes@ == old(self).affected_nodes@.push(index)
            },
    {
        if self.finished {
            return Ok(());
        }
        if self.entropy[index] == 0 {
            proof {
                assert(old(self).node_ok(index as int));
                assert(old(self).dom_count(index as int) >= 1);
                assert(false);
            }
            return Err(WfcError::ImpossiblePattern);
        }
        self.entropy[index] = usize::MAX;
        self.affected_nodes.push(index);

        let color_index = match first_true_index(&self.available_colors[index]) {
            Some(c) => c,
            None => {
                proof {
                    assert(old(self).node_ok(index as int));
                    assert(old(self).dom_count(index as int) >= 1);
                    lemma_count_true_none(old(self).available_colors@[index as int]@);
                    assert(false);
                }
                return Err(WfcError::NoAvailableColor);
            },
        };
        let mut row = filled_bools(self.colors, false);
        row[color_index] = true;
        self.available_colors[index] = row;
        self.output[index] = color_index;

        proof {
            let g = *old(self);
            let f = *self;
            let ii = index as int;
            let c = color_index as int;
            g.lemma_same_graph_wf(f);
            assert(g.node_ok(ii));
            assert forall|d: int| 0 <= d < f.colors implies f.dom(ii, d) == (d == c) by {}
            lemma_count_true_single(f.available_colors@[ii]@, c);
            if g.is_collapsed(ii) {
                lemma_singleton_unique(g.available_colors@[ii]@, c, g.output@[ii] as int);
            }
            assert forall|i: int| 0 <= i < f.nodes implies #[trigger] f.node_ok(i) by {
                if i != ii {
                    assert(g.node_ok(i));
                }
            }
            assert forall|i: int|
                0 <= i < f.nodes && !f.is_collapsed(i) implies #[trigger] f.dom_count(i)
                >= 1 by {
                assert(i != ii);
                assert(g.dom_count(i) >= 1);
            }
            assert(f.affected_nodes@.len() == 1 && f.affected_nodes@[0] == index);
            assert forall|i: int, j: int|
                0 <= i < f.nodes && 0 <= j < f.nodes && i != j && #[trigger] f.adj(i, j)
                    && f.is_collapsed(i) && f.is_collapsed(j) implies f.output@[i]
                != f.output@[j] by {
                assert(g.adj(i, j) == f.adj(i, j) && g.adj(j, i) == g.adj(i, j));
                if i != ii && j != ii {
                    assert(g.is_collapsed(i) && g.is_collapsed(j));
                } else if j == ii && !g.is_collapsed(ii) {
                    assert(g.is_collapsed(i) && !g.is_collapsed(ii) && g.adj(i, ii));
                    assert(!g.affected_nodes@.contains(i as usize));
                    assert(!g.dom(ii, g.output@[i] as int));
                } else if i == ii && !g.is_collapsed(ii) {
                    assert(g.is_collapsed(j) && !g.is_collapsed(ii) && g.adj(j, ii));
                    assert(!g.affected_nodes@.contains(j as usize));
                    assert(!g.dom(ii, g.output@[j] as int));
                }
            }
            assert forall|i: int, j: int|
                0 <= i < f.nodes && 0 <= j < f.nodes && #[trigger] f.adj(i, j)
                    && f.is_collapsed(i) && !f.is_collapsed(j) && f.dom(
                j,
                f.output@[i] as int,
            ) implies f.affected_nodes@.contains(i as usize) by {
                assert(j != ii);
                if i != ii {
                    assert(g.adj(i, j) && g.is_collapsed(i) && !g.is_collapsed(j));
                    assert(g.dom(j, g.output@[i] as int));
                    assert(g.affected_nodes@.contains(i as usize));
                    assert(false);
                }
            }
            assert forall|j: int|
                0 <= j < f.nodes && !f.is_collapsed(j) implies #[trigger] f.owners_ok_for(
                j,
            ) by {
                assert(j != ii);
                assert(!g.is_collapsed(j));
                assert(g.owners_ok_for(j));
                assert forall|cc: int|
                    0 <= cc < f.colors && !(#[trigger] f.dom(j, cc)) implies exists|q: int|
                        0 <= q < f.nodes && #[trigger] f.adj(j, q) && f.dom_count(q) == 1
                            && f.dom(q, cc) by {
                    assert(!g.dom(j, cc));
                    let q = choose|q: int|
                        0 <= q < g.nodes && #[trigger] g.adj(j, q) && g.dom_count(q) == 1
                            && g.dom(q, cc);
                    if q != ii {
                        assert(0 <= q < f.nodes && f.adj(j, q) && f.dom_count(q) == 1 && f.dom(
                            q,
                            cc,
                        ));
                    } else {
                        lemma_singleton_unique(g.available_colors@[ii]@, cc, c);
                        assert(cc == c);
                        assert(0 <= ii < f.nodes && f.adj(j, ii) && f.dom_count(ii) == 1
                            && f.dom(ii, cc));
                    }
                }
            }
            assert(f.prop_inv());
        }
        Ok(())
    }

    /// Under the owner clause a node can be missing at most `degree` colors:
    /// distinct missing colors have distinct singleton owners among its
    /// neighbors, so the domain never shrinks below `colors - degree`.
    proof fn lemma_budget(self, j: int)
        requires
            self.wf(),
            0 <= j < self.nodes,
            self.owners_ok_for(j),
        ensures
            self.dom_count(j) + self.degree(j) >= self.colors,
    {
        let dom_row = self.available_colors@[j]@;
        let conn_row = self.connections@[j]@;
        let missing = false_positions(dom_row);
        let nbrs = true_positions(conn_row);
        lemma_false_positions_card(dom_row);
        lemma_true_positions_card(conn_row);
        let f = |cc: int|
            choose|q: int|
                0 <= q < self.nodes && #[trigger] self.adj(j, q) && self.dom_count(q) == 1
                    && self.dom(q, cc);
        assert forall|cc: int| missing.contains(cc) implies nbrs.contains(#[trigger] f(cc)) by {
            assert(0 <= cc < self.colors && !self.dom(j, cc));
            let q = f(cc);
            assert(0 <= q < self.nodes && self.adj(j, q) && self.dom_count(q) == 1 && self.dom(
                q,
                cc,
            ));
            assert(conn_row[q]);
        }
        assert forall|c1: int, c2: int|
            missing.contains(c1) && missing.contains(c2) && #[trigger] f(c1) == #[trigger] f(
                c2,
            ) implies c1 == c2 by {
            assert(0 <= c1 < self.colors && !self.dom(j, c1));
            assert(0 <= c2 < self.colors && !self.dom(j, c2));
            let q1 = f(c1);
            let q2 = f(c2);
            assert(0 <= q1 < self.nodes && self.adj(j, q1) && self.dom_count(q1) == 1
                && self.dom(q1, c1));
            assert(0 <= q2 < self.nodes && self.adj(j, q2) && self.dom_count(q2) == 1
                && self.dom(q2, c2));
            lemma_singleton_unique(self.available_colors@[q1]@, c1, c2);
        }
        lemma_injection_card(missing, nbrs, f);
    }

    /// The invariants that do not mention the queue carry over to any state
    /// with the same graph, domains, entropies and outputs.
    proof fn lemma_same_core(self, other: WfcState)
        requires
            self.wf(),
            self.nodes_ok(),
            self.no_empty_domains(),
            self.collapsed_pairs_ok(),
            self.owners_ok(),
            other.nodes == self.nodes,
            other.colors == self.colors,
            other.connections == self.connections,
            other.available_colors == self.available_colors,
            other.entropy == self.entropy,
            other.output == self.output,
        ensures
            other.wf(),
            other.nodes_ok(),
            other.no_empty_domains(),
            other.collapsed_pairs_ok(),
            other.owners_ok(),
    {
        self.lemma_same_graph_wf(other);
        assert forall|i: int| 0 <= i < other.nodes implies #[trigger] other.node_ok(i) by {
            assert(self.node_ok(i));
        }
        assert forall|i: int|
            0 <= i < other.nodes && !other.is_collapsed(i) implies #[trigger] other.dom_count(
            i,
        ) >= 1 by {
            assert(self.dom_count(i) >= 1);
        }
        assert forall|i: int, j: int|
            0 <= i < other.nodes && 0 <= j < other.nodes && i != j && #[trigger] other.adj(i, j)
                && other.is_collapsed(i) && other.is_collapsed(j) implies other.output@[i]
            != other.output@[j] by {
            assert(self.adj(i, j) && self.is_collapsed(i) && self.is_collapsed(j));
        }
        assert forall|j: int|
            0 <= j < other.nodes && !other.is_collapsed(j) implies #[trigger] other.owners_ok_for(
            j,
        ) by {
            assert(self.owners_ok_for(j));
            assert forall|cc: int|
                0 <= cc < other.colors && !(#[trigger] other.dom(j, cc)) implies exists|q: int|
                    0 <= q < other.nodes && #[trigger] other.adj(j, q) && other.dom_count(q)
                        == 1 && other.dom(q, cc) by {
                assert(!self.dom(j, cc));
                let q = choose|q: int|
                    0 <= q < self.nodes && #[trigger] self.adj(j, q) && self.dom_count(q) == 1
                        && self.dom(q, cc);
                assert(0 <= q < other.nodes && other.adj(j, q) && other.dom_count(q) == 1
                    && other.dom(q, cc));
            }
        }
    }

    /// Drain the affected queue breadth-first: for each queued node, remove
    /// its sole remaining color from every uncollapsed neighbor that still
    /// has it, failing if a neighbor's domain empties, and queueing neighbors
    /// newly forced to a single color. Under the degree+1 budget stated by
    /// `degree_bound` this can never fail.
    #[verifier::rlimit(100)]
    pub fn propagate(&mut self) -> (r: Result<(), WfcError>)
        requires
            old(self).prop_inv(),
        ensures
            final(self).nodes == old(self).nodes,
            final(self).colors == old(self).colors,
            final(self).connections == old(self).connections,
            final(self).output == old(self).output,
            final(self).min_index == old(self).min_index,
            final(self).finished == old(self).finished,
            final(self).restart_flag == old(self).restart_flag,
            forall|i: int|
                0 <= i < old(self).nodes ==> final(self).is_collapsed(i) == old(
                    self,
                ).is_collapsed(i),
            forall|i: int, c: int|
                0 <= i < old(self).nodes && 0 <= c < old(self).colors && final(self).dom(i, c)
                    ==> old(self).dom(i, c),
            r is Ok ==> final(self).inv(),
            r is Err ==> r == Err::<(), WfcError>(WfcError::PropagationContradiction),
            old(self).degree_bound() ==> r is Ok,
    {
        let mut visited = filled_bools(self.nodes, false);

        while self.affected_nodes.len() > 0
            invariant
                self.prop_inv(),
                visited@.len() == self.nodes,
                self.nodes == old(self).nodes,
                self.colors == old(self).colors,
                self.connections == old(self).connections,
                self.output == old(self).output,
                self.min_index == old(self).min_index,
                self.finished == old(self).finished,
                self.restart_flag == old(self).restart_flag,
                forall|i: int|
                    0 <= i < old(self).nodes ==> self.is_collapsed(i) == old(
                        self,
                    ).is_collapsed(i),
                forall|i: int, c: int|
                    0 <= i < old(self).nodes && 0 <= c < old(self).colors && #[trigger] self.dom(
                        i,
                        c,
                    ) ==> old(self).dom(i, c),
            decreases self.affected_nodes@.len() + visited@.len() - count_true(visited@),
        {
            let ghost s0 = *self;
            let ghost vmid = visited@;
            proof {
                lemma_count_true_le_len(visited@);
            }
            let index = self.affected_nodes.remove(0);
            proof {
                assert(s0.affected_nodes@[0] == index);
                assert(index < s0.nodes && s0.dom_count(index as int) == 1);
                s0.lemma_same_core(*self);
            }
            let color_index = match first_true_index(&self.available_colors[index]) {
                Some(c) => c,
                None => {
                    proof {
                        lemma_count_true_none(s0.available_colors@[index as int]@);
                        assert(false);
                    }
                    return Err(WfcError::NoAvailableColor);
                },
            };
            proof {
                if s0.is_collapsed(index as int) {
                    assert(s0.node_ok(index as int));
                    lemma_singleton_unique(
                        s0.available_colors@[index as int]@,
                        color_index as int,
                        s0.output@[index as int] as int,
                    );
                }
                assert forall|x: usize| s0.affected_nodes@.contains(x) implies x == index
                    || self.affected_nodes@.contains(x) by {
                    let t = choose|t: int|
                        0 <= t < s0.affected_nodes@.len() && s0.affected_nodes@[t] == x;
                    if t > 0 {
                        assert(self.affected_nodes@[t - 1] == x);
                    }
                }
                assert forall|t: int|
                    0 <= t < self.affected_nodes@.len() implies (
                #[trigger] self.affected_nodes@[t]) < self.nodes && self.dom_count(
                    self.affected_nodes@[t] as int,
                ) == 1 by {
                    assert(self.affected_nodes@[t] == s0.affected_nodes@[t + 1]);
                    assert(s0.dom_count(s0.affected_nodes@[t + 1] as int) == 1);
                }
                assert forall|i: int, j: int|
                    0 <= i < self.nodes && 0 <= j < self.nodes && #[trigger] self.adj(i, j)
                        && self.is_collapsed(i) && !self.is_collapsed(j) && self.dom(
                    j,
                    self.output@[i] as int,
                ) implies self.affected_nodes@.contains(i as usize) || (i == index && 0
                    <= j) by {
                    assert(s0.adj(i, j) && s0.is_collapsed(i) && !s0.is_collapsed(j));
                    assert(s0.dom(j, s0.output@[i] as int));
                    assert(s0.affected_nodes@.contains(i as usize));
                }
                assert forall|i: int|
                    0 <= i < old(self).nodes implies self.is_collapsed(i) == old(
                    self,
                ).is_collapsed(i) by {
                    assert(s0.is_collapsed(i) == old(self).is_collapsed(i));
                }
                assert forall|i: int, c: int|
                    0 <= i < old(self).nodes && 0 <= c < old(self).colors && #[trigger] self.dom(
                        i,
                        c,
                    ) implies old(self).dom(i, c) by {
                    assert(s0.dom(i, c));
                }
                if self.finished {
                    assert forall|i: int| 0 <= i < self.nodes implies self.is_collapsed(
                        i,
                    ) by {
                        assert(s0.is_collapsed(i));
                    }
                }
            }
            let ghost mid = *self;
            let mut node_index: usize = 0;
            while node_index < self.nodes
                invariant
                    node_index <= self.nodes,
                    index < self.nodes,
                    color_index < self.colors,
                    visited@.len() == self.nodes,
                    self.nodes == old(self).nodes,
                    self.colors == old(self).colors,
                    self.connections == old(self).connections,
                    self.output == old(self).output,
                    self.min_index == old(self).min_index,
                    self.finished == old(self).finished,
                    self.restart_flag == old(self).restart_flag,
                    forall|i: int|
                        0 <= i < old(self).nodes ==> self.is_collapsed(i) == old(
                            self,
                        ).is_collapsed(i),
                    forall|i: int, c: int|
                        0 <= i < old(self).nodes && 0 <= c < old(self).colors
                            && #[trigger] self.dom(i, c) ==> old(self).dom(i, c),
                    self.wf(),
                    self.nodes_ok(),
                    self.no_empty_domains(),
                    self.queue_ok(),
                    self.collapsed_pairs_ok(),
                    self.owners_ok(),
                    self.pending_except(index as int, node_index as int),
                    (self.finished ==> forall|i: int|
                        0 <= i < self.nodes ==> self.is_collapsed(i)),
                    self.dom(index as int, color_index as int),
                    self.dom_count(index as int) == 1,
                    (self.is_collapsed(index as int) ==> self.output@[index as int]
                        == color_index),
                    forall|j: int|
                        0 <= j < node_index && #[trigger] self.adj(index as int, j)
                            && !self.is_collapsed(j) ==> !self.dom(j, color_index as int),
                    self.affected_nodes@.len() + visited@.len() - count_true(visited@)
                        == mid.affected_nodes@.len() + vmid.len() - count_true(vmid),
                decreases self.nodes - node_index,
            {
                let adjacent = self.connections[index][node_index];
                if adjacent && self.entropy[node_index] != usize::MAX
                    && self.available_colors[node_index][color_index] {
                    let ghost b = *self;
                    proof {
                        assert(b.adj(index as int, node_index as int));
                        assert(node_index != index);
                        assert(b.node_ok(node_index as int));
                        lemma_count_true_pos(
                            b.available_colors@[node_index as int]@,
                            color_index as int,
                        );
                        lemma_count_true_update(
                            b.available_colors@[node_index as int]@,
                            color_index as int,
                            false,
                        );
                        lemma_count_true_le_len(b.available_colors@[node_index as int]@);
                    }
                    self.available_colors[node_index][color_index] = false;
                    let e = self.entropy[node_index] - 1;
                    self.entropy[node_index] = e;
                    proof {
                        let f = *self;
                        let ii = index as int;
                        let ni = node_index as int;
                        let c = color_index as int;
                        b.lemma_same_graph_wf(f);
                        assert(f.available_colors@[ni]@ == b.available_colors@[ni]@.update(
                            c,
                            false,
                        ));
                        assert forall|i: int|
                            0 <= i < f.nodes implies (#[trigger] f.available_colors@[i])@.len()
                            == f.colors by {
                            assert(b.available_colors@[i]@.len() == b.colors);
                        }
                        assert(f.arrays_wf());
                        assert forall|i: int, c2: int|
                            0 <= i < old(self).nodes && 0 <= c2 < old(self).colors
                                && #[trigger] f.dom(i, c2) implies old(self).dom(i, c2) by {
                            if i == ni && c2 == c {
                                assert(!f.dom(ni, c));
                            } else {
                                assert(b.dom(i, c2));
                            }
                        }
                        assert(f.dom_count(ni) == b.dom_count(ni) - 1);
                        assert(!f.is_collapsed(ni));
                        assert forall|i: int| 0 <= i < f.nodes implies #[trigger] f.node_ok(
                            i,
                        ) by {
                            assert(b.node_ok(i));
                        }
                        assert forall|i: int, j: int|
                            0 <= i < f.nodes && 0 <= j < f.nodes && i != j && #[trigger] f.adj(
                                i,
                                j,
                            ) && f.is_collapsed(i) && f.is_collapsed(j) implies f.output@[i]
                            != f.output@[j] by {
                            assert(b.adj(i, j) && b.is_collapsed(i) && b.is_collapsed(j));
                        }
                        assert forall|i: int, j: int|
                            0 <= i < f.nodes && 0 <= j < f.nodes && #[trigger] f.adj(i, j)
                                && f.is_collapsed(i) && !f.is_collapsed(j) && f.dom(
                                j,
                                f.output@[i] as int,
                            ) implies f.affected_nodes@.contains(i as usize) || (i == ii && ni
                                + 1 <= j) by {
                            assert(b.adj(i, j) && b.is_collapsed(i) && !b.is_collapsed(j));
                            assert(b.node_ok(i));
                            if j != ni {
                                assert(b.dom(j, b.output@[i] as int));
                            } else if i == ii {
                                assert(f.output@[i] as int == c);
                                assert(!f.dom(ni, c));
                                assert(false);
                            } else {
                                if b.output@[i] as int == c {
                                    assert(b.dom(ni, c));
                                } else {
                                    assert(b.dom(ni, b.output@[i] as int));
                                }
                                assert(b.affected_nodes@.contains(i as usize));
                            }
                        }
                        assert forall|j: int|
                            0 <= j < ni + 1 && #[trigger] f.adj(ii, j) && !f.is_collapsed(
                                j,
                            ) implies !f.dom(j, c) by {
                            if j < ni {
                                assert(b.adj(ii, j) && !b.is_collapsed(j));
                                assert(!b.dom(j, c));
                            } else {
                                assert(!f.dom(ni, c));
                            }
                        }
                        assert(f.owners_ok_for(ni)) by {
                            assert forall|cc: int|
                                0 <= cc < f.colors && !(#[trigger] f.dom(
                                    ni,
                                    cc,
                                )) implies exists|q: int|
                                    0 <= q < f.nodes && #[trigger] f.adj(ni, q) && f.dom_count(
                                        q,
                                    ) == 1 && f.dom(q, cc) by {
                                if cc == c {
                                    assert(f.adj(ni, ii) && f.dom_count(ii) == 1 && f.dom(
                                        ii,
                                        cc,
                                    ));
                                } else {
                                    assert(!b.dom(ni, cc));
                                    assert(b.owners_ok_for(ni));
                                    let q = choose|q: int|
                                        0 <= q < b.nodes && #[trigger] b.adj(ni, q)
                                            && b.dom_count(q) == 1 && b.dom(q, cc);
                                    assert(q != ni);
                                    assert(0 <= q < f.nodes && f.adj(ni, q) && f.dom_count(q)
                                        == 1 && f.dom(q, cc));
                                }
                            }
                        }
                    }
                    if e == 0 {
                        proof {
                            if old(self).degree_bound() {
                                assert(old(self).degree(node_index as int) < old(self).colors);
                                assert(self.degree(node_index as int) == old(self).degree(
                                    node_index as int,
                                ));
                                self.lemma_budget(node_index as int);
                                assert(false);
                            }
                        }
                        return Err(WfcError::PropagationContradiction);
                    }
                    proof {
                        let f = *self;
                        let ii = index as int;
                        let ni = node_index as int;
                        let c = color_index as int;
                        assert(f.dom_count(ni) >= 1);
                        assert forall|i: int|
                            0 <= i < f.nodes && !f.is_collapsed(i) implies #[trigger] f.dom_count(
                            i,
                        ) >= 1 by {
                            if i != ni {
                                assert(b.dom_count(i) >= 1);
                            }
                        }
                        assert forall|t: int|
                            0 <= t < f.affected_nodes@.len() implies (
                        #[trigger] f.affected_nodes@[t]) < f.nodes && f.dom_count(
                            f.affected_nodes@[t] as int,
                        ) == 1 by {
                            let x = f.affected_nodes@[t];
                            assert(b.dom_count(x as int) == 1);
                            if x == node_index {
                                assert(false);
                            }
                        }
                        assert forall|j: int|
                            0 <= j < f.nodes && !f.is_collapsed(j) implies #[trigger] f.owners_ok_for(
                            j,
                        ) by {
                            if j != ni {
                                assert(b.owners_ok_for(j));
                                assert forall|cc: int|
                                    0 <= cc < f.colors && !(#[trigger] f.dom(
                                        j,
                                        cc,
                                    )) implies exists|q: int|
                                        0 <= q < f.nodes && #[trigger] f.adj(j, q)
                                            && f.dom_count(q) == 1 && f.dom(q, cc) by {
                                    assert(!b.dom(j, cc));
                                    let q = choose|q: int|
                                        0 <= q < b.nodes && #[trigger] b.adj(j, q)
                                            && b.dom_count(q) == 1 && b.dom(q, cc);
                                    if q != ni {
                                        assert(0 <= q < f.nodes && f.adj(j, q) && f.dom_count(
                                            q,
                                        ) == 1 && f.dom(q, cc));
                                    } else {
                                        assert(b.dom(ni, c));
                                        lemma_singleton_unique(
                                            b.available_colors@[ni]@,
                                            cc,
                                            c,
                                        );
                                        assert(f.dom_count(ni) == 0);
                                        assert(false);
                                    }
                                }
                            }
                        }
                    }
                    if e == 1 && !visited[node_index] {
                        let ghost p = *self;
                        let ghost vp = visited@;
                        visited[node_index] = true;
                        self.affected_nodes.push(node_index);
                        proof {
                            lemma_count_true_update(vp, node_index as int, true);
                            p.lemma_same_core(*self);
                            assert forall|x: usize|
                                p.affected_nodes@.contains(x) implies self.affected_nodes@.contains(
                                x,
                            ) by {
                                let t = choose|t: int|
                                    0 <= t < p.affected_nodes@.len() && p.affected_nodes@[t]
                                        == x;
                                assert(self.affected_nodes@[t] == x);
                            }
                            assert(self.affected_nodes@.last() == node_index);
                            assert(self.affected_nodes@.contains(node_index));
                            assert(self.dom_count(node_index as int) == 1);
                            assert forall|t: int|
                                0 <= t < self.affected_nodes@.len() implies (
                            #[trigger] self.affected_nodes@[t]) < self.nodes
                                && self.dom_count(self.affected_nodes@[t] as int) == 1 by {
                                if t < p.affected_nodes@.len() {
                                    assert(self.affected_nodes@[t] == p.affected_nodes@[t]);
                                    assert(p.dom_count(p.affected_nodes@[t] as int) == 1);
                                }
                            }
                            assert forall|j: int|
                                0 <= j < node_index as int + 1 && #[trigger] self.adj(
                                    index as int,
                                    j,
                                ) && !self.is_collapsed(j) implies !self.dom(
                                j,
                                color_index as int,
                            ) by {
                                assert(p.adj(index as int, j) && !p.is_collapsed(j));
                                assert(!p.dom(j, color_index as int));
                            }
                            assert forall|i: int, c2: int|
                                0 <= i < old(self).nodes && 0 <= c2 < old(self).colors
                                    && #[trigger] self.dom(i, c2) implies old(self).dom(
                                i,
                                c2,
                            ) by {
                                assert(p.dom(i, c2));
                            }
                            assert forall|i: int, j: int|
                                0 <= i < self.nodes && 0 <= j < self.nodes
                                    && #[trigger] self.adj(i, j) && self.is_collapsed(i)
                                    && !self.is_collapsed(j) && self.dom(
                                    j,
                                    self.output@[i] as int,
                                ) implies self.affected_nodes@.contains(i as usize) || (i
                                    == index && node_index as int + 1 <= j) by {
                                assert(p.adj(i, j) && p.is_collapsed(i) && !p.is_collapsed(j));
                                assert(p.dom(j, p.output@[i] as int));
                                if !(i == index && node_index as int + 1 <= j) {
                                    assert(p.affected_nodes@.contains(i as usize));
                                }
                            }
                        }
                    }
                } else {
                    proof {
                        let f = *self;
                        let ii = index as int;
                        let ni = node_index as int;
                        let c = color_index as int;
                        assert forall|j: int|
                            0 <= j < ni + 1 && #[trigger] f.adj(ii, j) && !f.is_collapsed(
                                j,
                            ) implies !f.dom(j, c) by {
                            if j == ni {
                                assert(!f.dom(ni, c));
                            }
                        }
                        assert forall|i: int, j: int|
                            0 <= i < f.nodes && 0 <= j < f.nodes && #[trigger] f.adj(i, j)
                                && f.is_collapsed(i) && !f.is_collapsed(j) && f.dom(
                                j,
                                f.output@[i] as int,
                            ) implies f.affected_nodes@.contains(i as usize) || (i == ii && ni
                                + 1 <= j) by {
                            if i == ii && j == ni {
                                assert(f.adj(ii, ni) && !f.is_collapsed(ni));
                                assert(f.output@[ii] as int == c);
                                assert(!f.dom(ni, c));
                                assert(false);
                            }
                        }
                    }
                }
                node_index += 1;
            }
            proof {
                let f = *self;
                let ii = index as int;
                assert forall|i: int, j: int|
                    0 <= i < f.nodes && 0 <= j < f.nodes && #[trigger] f.adj(i, j)
                        && f.is_collapsed(i) && !f.is_collapsed(j) && f.dom(
                    j,
                    f.output@[i] as int,
                ) implies f.affected_nodes@.contains(i as usize) by {
                    if i == ii {
                        assert(!f.dom(j, color_index as int));
                        assert(false);
                    }
                }
                assert(f.prop_inv());
            }
        }
        proof {
            assert(self.inv());
        }
        Ok(())
    }

    /// The invariant survives changes to the selection and restart fields
    /// alone, as long as a raised `finished` still means all nodes are
    /// collapsed.
    proof fn lemma_same_prop_inv(self, other: WfcState)
        requires
            self.prop_inv(),
            other.nodes == self.nodes,
            other.colors == self.colors,
            other.connections == self.connections,
            other.available_colors == self.available_colors,
            other.entropy == self.entropy,
            other.output == self.output,
            other.affected_nodes == self.affected_nodes,
            other.finished ==> forall|i: int| 0 <= i < self.nodes ==> self.is_collapsed(i),
        ensures
            other.prop_inv(),
    {
        self.lemma_same_core(other);
        assert forall|t: int|
            0 <= t < other.affected_nodes@.len() implies (#[trigger] other.affected_nodes@[t])
            < other.nodes && other.dom_count(other.affected_nodes@[t] as int) == 1 by {
            assert(self.affected_nodes@[t] < self.nodes);
            assert(self.dom_count(self.affected_nodes@[t] as int) == 1);
        }
        assert forall|i: int, j: int|
            0 <= i < other.nodes && 0 <= j < other.nodes && #[trigger] other.adj(i, j)
                && other.is_collapsed(i) && !other.is_collapsed(j) && other.dom(
            j,
            other.output@[i] as int,
        ) implies other.affected_nodes@.contains(i as usize) by {
            assert(self.adj(i, j) && self.is_collapsed(i) && !self.is_collapsed(j));
            assert(self.dom(j, self.output@[i] as int));
            assert(self.affected_nodes@.contains(i as usize));
        }
        if other.finished {
            assert forall|i: int| 0 <= i < other.nodes implies other.is_collapsed(i) by {
                assert(self.is_collapsed(i));
            }
        }
    }

    /// Repeat selection, collapse and propagation until every node is
    /// committed, restarting silently if selection meets a contradiction.
    /// On success the returned array maps every node to a color below the
    /// budget and no two adjacent nodes share one; under the degree+1
    /// budget the run always succeeds.
    pub fn run(&mut self) -> (r: Result<Vec<usize>, WfcError>)
        requires
            old(self).inv(),
        ensures
            final(self).nodes == old(self).nodes,
            final(self).colors == old(self).colors,
            final(self).connections == old(self).connections,
            match r {
                Ok(out) => {
                    &&& out@.len() == old(self).nodes
                    &&& forall|i: int|
                        0 <= i < old(self).nodes ==> (#[trigger] out@[i]) < old(self).colors
                    &&& forall|i: int, j: int|
                        0 <= i < old(self).nodes && 0 <= j < old(self).nodes && old(self).adj(
                            i,
                            j,
                        ) ==> out@[i] != out@[j]
                },
                Err(e) => e == WfcError::PropagationContradiction,
            },
            old(self).degree_bound() ==> r is Ok,
    {
        while !self.finished
            invariant
                self.inv(),
                self.nodes == old(self).nodes,
                self.colors == old(self).colors,
                self.connections == old(self).connections,
            ensures
                self.inv(),
                self.finished,
                self.nodes == old(self).nodes,
                self.colors == old(self).colors,
                self.connections == old(self).connections,
            decreases self.nodes - count_true(self.collapsed_flags()),
        {
            let ghost h = *self;
            self.restart_flag = false;
            proof {
                h.lemma_same_prop_inv(*self);
            }
            let ghost b = *self;
            self.find_lowest_entropy();
            proof {
                if b.has_contradiction() {
                    let i = choose|i: int|
                        0 <= i < b.nodes && !b.is_collapsed(i) && #[trigger] b.entropy@[i]
                            == 0;
                    assert(b.node_ok(i));
                    assert(b.dom_count(i) >= 1);
                    assert(false);
                }
                b.lemma_same_prop_inv(*self);
                assert(self.inv());
            }
            if self.restart_flag {
                continue;
            }
            match self.min_index {
                Some(index) => {
                    match self.collapse(index) {
                        Ok(()) => {},
                        Err(e) => {
                            proof {
                                assert(false);
                            }
                            return Err(e);
                        },
                    }
                    let ghost bp = *self;
                    match self.propagate() {
                        Ok(()) => {},
                        Err(e) => {
                            proof {
                                if old(self).degree_bound() {
                                    assert forall|i: int|
                                        0 <= i < bp.nodes implies #[trigger] bp.degree(i)
                                        < bp.colors by {
                                        assert(old(self).degree(i) < old(self).colors);
                                        assert(bp.connections == old(self).connections);
                                    }
                                    assert(false);
                                }
                            }
                            return Err(e);
                        },
                    }
                    proof {
                        assert(self.entropy@.len() == self.nodes);
                        assert(h.entropy@.len() == h.nodes);
                        assert(!h.is_collapsed(index as int));
                        assert(self.is_collapsed(index as int));
                        assert forall|i: int|
                            0 <= i < self.nodes && i != index implies ((
                        #[trigger] self.entropy@[i]) == usize::MAX) == ((h.entropy@[i])
                            == usize::MAX) by {
                            assert(self.is_collapsed(i) == bp.is_collapsed(i));
                            assert(bp.entropy@[i] == b.entropy@[i]);
                            assert(self.is_collapsed(i) == h.is_collapsed(i));
                        }
                        assert(self.collapsed_flags() =~= h.collapsed_flags().update(
                            index as int,
                            true,
                        ));
                        lemma_count_true_update(h.collapsed_flags(), index as int, true);
                        lemma_count_true_le_len(self.collapsed_flags());
                    }
                },
                None => {
                    break;
                },
            }
        }
        let mut out: Vec<usize> = Vec::new();
        let mut k: usize = 0;
        while k < self.nodes
            invariant
                k <= self.nodes,
                out@.len() == k,
                forall|i: int| 0 <= i < k ==> out@[i] == self.output@[i],
                self.inv(),
                self.finished,
                self.nodes == old(self).nodes,
                self.colors == old(self).colors,
                self.connections == old(self).connections,
            decreases self.nodes - k,
        {
            out.push(self.output[k]);
            k += 1;
        }
        proof {
            assert forall|i: int|
                0 <= i < old(self).nodes implies (#[trigger] out@[i]) < old(self).colors by {
                assert(self.is_collapsed(i));
                assert(self.node_ok(i));
            }
            assert forall|i: int, j: int|
                0 <= i < old(self).nodes && 0 <= j < old(self).nodes && old(self).adj(
                    i,
                    j,
                ) implies out@[i] != out@[j] by {
                assert(self.adj(i, j));
                assert(self.is_collapsed(i) && self.is_collapsed(j));
                if i == j {
                    assert(!self.adj(i, i));
                } else {
                    assert(self.output@[i] != self.output@[j]);
                }
            }
        }
        Ok(out)
    }
}

/// `nodes` rows of `colors` bits, all set: every color open to every node.
fn full_domains(nodes: usize, colors: usize) -> (m: Vec<Vec<bool>>)
    ensures
        m@.len() == nodes,
        forall|i: int| 0 <= i < nodes ==> (#[trigger] m@[i])@.len() == colors,
        forall|i: int, c: int| 0 <= i < nodes && 0 <= c < colors ==> m@[i]@[c],
{
    let mut m: Vec<Vec<bool>> = Vec::new();
    let mut k: usize = 0;
    while k < nodes
        invariant
            k <= nodes,
            m@.len() == k,
            forall|i: int| 0 <= i < k ==> (#[trigger] m@[i])@.len() == colors,
            forall|i: int, c: int| 0 <= i < k && 0 <= c < colors ==> m@[i]@[c],
        decreases nodes - k,
    {
        m.push(filled_bools(colors, true));
        k = k + 1;
    }
    m
}

} // verus!
