//! The solver's mutable search state: per-edge multiplicities, per-island
//! satisfied counts, the chosen-edge sequence, and the transposition table.
//!
//! The central invariant, kept by every operation, is that each island's
//! satisfied count equals the sum of the multiplicities of its incident
//! edges, and that no two crossing edges are placed at the same time.

use vstd::prelude::*;

verus! {

use crate::board::Board;
use crate::bridges::NumEdges;
use crate::seqs::lemma_occ_contains;
use crate::seqs::lemma_occ_empty;
use crate::seqs::lemma_occ_push;
use crate::seqs::lemma_occ_remove;
use crate::seqs::occ;
use vstd::pervasive::unreached;

/// The smaller of two numbers.
pub open spec fn imin(a: int, b: int) -> int {
    if a <= b {
        a
    } else {
        b
    }
}

/// Edge `e` touches island `i` according to the endpoint table `en`.
pub open spec fn incident(en: Seq<(usize, usize)>, e: int, i: int) -> bool {
    en[e].0 == i || en[e].1 == i
}

/// The sum of the multiplicities of the edges among the first `e` that touch
/// island `i`.
pub open spec fn sum_incident_upto(
    en: Seq<(usize, usize)>,
    cnts: Seq<NumEdges>,
    i: int,
    e: int,
) -> int
    decreases e,
{
    if e <= 0 {
        0
    } else {
        sum_incident_upto(en, cnts, i, e - 1) + if incident(en, e - 1, i) {
            cnts[e - 1].val() as int
        } else {
            0
        }
    }
}

/// An incident-multiplicity sum is never negative.
pub proof fn lemma_sum_nonneg(en: Seq<(usize, usize)>, cnts: Seq<NumEdges>, i: int, e: int)
    ensures
        sum_incident_upto(en, cnts, i, e) >= 0,
    decreases e,
{
    if e > 0 {
        lemma_sum_nonneg(en, cnts, i, e - 1);
    }
}

/// With every multiplicity at zero the incident sum is zero.
pub proof fn lemma_sum_zero(en: Seq<(usize, usize)>, cnts: Seq<NumEdges>, i: int, e: int)
    requires
        forall|k: int| 0 <= k < cnts.len() ==> (#[trigger] cnts[k]) is Zero,
        e <= cnts.len(),
    ensures
        sum_incident_upto(en, cnts, i, e) == 0,
    decreases e,
{
    if e > 0 {
        lemma_sum_zero(en, cnts, i, e - 1);
    }
}

/// Changing the multiplicity of one edge shifts an island's incident sum by
/// exactly that edge's change, when the edge touches the island, and not at
/// all otherwise.
pub proof fn lemma_sum_update(
    en: Seq<(usize, usize)>,
    c1: Seq<NumEdges>,
    c2: Seq<NumEdges>,
    ch: int,
    i: int,
    e: int,
)
    requires
        c1.len() == c2.len(),
        0 <= ch < c1.len(),
        e <= c1.len(),
        forall|k: int| 0 <= k < c1.len() && k != ch ==> c1[k] == c2[k],
    ensures
        sum_incident_upto(en, c2, i, e) == sum_incident_upto(en, c1, i, e) + if ch < e && incident(
            en,
            ch,
            i,
        ) {
            c2[ch].val() - c1[ch].val()
        } else {
            0
        },
    decreases e,
{
    if e > 0 {
        lemma_sum_update(en, c1, c2, ch, i, e - 1);
    }
}

/// An island's incident sum is at least the multiplicity of any one incident
/// edge.
pub proof fn lemma_sum_lower_bound(
    en: Seq<(usize, usize)>,
    cnts: Seq<NumEdges>,
    i: int,
    e: int,
    e0: int,
)
    requires
        0 <= e0 < e,
        incident(en, e0, i),
    ensures
        sum_incident_upto(en, cnts, i, e) >= cnts[e0].val(),
    decreases e,
{
    lemma_sum_nonneg(en, cnts, i, e0);
    if e0 == e - 1 {
    } else {
        lemma_sum_lower_bound(en, cnts, i, e - 1, e0);
    }
}

/// The total unmet demand of the first `k` islands.
pub open spec fn total_rem_upto(nodes: Seq<crate::board::Node>, nc: Seq<u8>, k: int) -> int
    decreases k,
{
    if k <= 0 {
        0
    } else {
        total_rem_upto(nodes, nc, k - 1) + (nodes[k - 1].n - nc[k - 1])
    }
}

/// Raising one island's satisfied count by one lowers the total unmet demand
/// by one.
pub proof fn lemma_total_rem_update(
    nodes: Seq<crate::board::Node>,
    nc1: Seq<u8>,
    nc2: Seq<u8>,
    a: int,
    k: int,
)
    requires
        nc1.len() == nc2.len(),
        0 <= a < nc1.len(),
        k <= nc1.len(),
        forall|i: int| 0 <= i < nc1.len() && i != a ==> nc1[i] == nc2[i],
    ensures
        total_rem_upto(nodes, nc2, k) == total_rem_upto(nodes, nc1, k) + if a < k {
            nc1[a] - nc2[a]
        } else {
            0
        },
    decreases k,
{
    if k > 0 {
        lemma_total_rem_update(nodes, nc1, nc2, a, k - 1);
    }
}

/// With every satisfied count at or below its island's demand, the total
/// unmet demand is never negative.
pub proof fn lemma_total_rem_nonneg(nodes: Seq<crate::board::Node>, nc: Seq<u8>, k: int)
    requires
        forall|i: int| 0 <= i < nc.len() ==> (#[trigger] nc[i]) <= nodes[i].n,
        k <= nc.len(),
    ensures
        total_rem_upto(nodes, nc, k) >= 0,
    decreases k,
{
    if k > 0 {
        lemma_total_rem_nonneg(nodes, nc, k - 1);
    }
}

/// The search state.  It borrows the immutable board and owns every mutable
/// view the search keeps consistent.
#[derive(Debug, Clone)]
pub struct SolveState<'b> {
    /// The chosen edges so far, in discovery order.
    pub soln: Vec<usize>,
    /// One justification per chosen edge.
    pub log: Vec<&'static str>,
    /// The current speculative depth.
    pub depth: usize,
    /// Per-edge multiplicity.
    pub edge_counts: Vec<NumEdges>,
    /// Per-island satisfied count.
    pub node_counts: Vec<u8>,
    /// For each edge, the island indices of its two endpoints.
    pub edge_nodes: Vec<(usize, usize)>,
    /// For each island, the indices of its incident edges, ascending.
    pub edges_adjacent_to_node: Vec<Vec<usize>>,
    /// The transposition table: multiplicity vectors already explored.
    pub visited: Vec<Vec<NumEdges>>,
    /// The board being solved.
    pub board: &'b Board,
}

impl<'b> SolveState<'b> {
    /// The island's unmet demand.
    pub open spec fn spec_rem(self, i: int) -> int {
        self.board.nodes@[i].n - self.node_counts@[i]
    }

    /// The total unmet demand, summed over all islands.  It shrinks by two
    /// with every placed bridge and is the solver's termination measure.
    pub open spec fn total_rem(self) -> int {
        total_rem_upto(self.board.nodes@, self.node_counts@, self.board.nodes@.len() as int)
    }

    /// How many more bridges edge `e` could take: bounded by its own spare
    /// capacity and by the unmet demand of both endpoints.
    pub open spec fn spec_avail(self, e: int) -> int {
        imin(
            2 - self.edge_counts@[e].val(),
            imin(self.spec_rem(self.edge_nodes@[e].0 as int), self.spec_rem(self.edge_nodes@[e].1 as int)),
        )
    }

    /// The small domain rule: no bridge between two islands that both need
    /// exactly one, and no second parallel bridge between two islands that
    /// both need exactly two.
    pub open spec fn spec_pair_rule_blocks(self, e: int) -> bool {
        let a = self.edge_nodes@[e].0 as int;
        let b = self.edge_nodes@[e].1 as int;
        self.board.nodes@[a].n == self.board.nodes@[b].n && (self.board.nodes@[a].n == 1 || (
        self.board.nodes@[b].n == 2 && self.edge_counts@[e] is One))
    }

    /// Edge `e` is a legal candidate for one more bridge: spare capacity on
    /// the edge and demand at both ends, the pair rule does not block it, and
    /// no crossing edge is in use.
    pub open spec fn viable(self, e: int) -> bool {
        &&& 0 <= e < self.edge_counts@.len()
        &&& self.edge_counts@[e].val() < 2
        &&& self.spec_avail(e) > 0
        &&& !self.spec_pair_rule_blocks(e)
        &&& forall|j: int| self.board.spec_cross(e, j) ==> (#[trigger] self.edge_counts@[j]) is Zero
    }

    /// Every island's satisfied count equals the sum of its incident
    /// multiplicities, never exceeding its demand; the chosen-edge sequence
    /// aggregates to the multiplicity vector; no two crossing edges are
    /// placed; and the lookup tables match the board.
    pub open spec fn wf(self) -> bool {
        &&& self.board.wf()
        &&& self.edge_counts@.len() == self.board.edges@.len()
        &&& self.node_counts@.len() == self.board.nodes@.len()
        &&& self.edge_nodes@.len() == self.board.edges@.len()
        &&& forall|e: int|
            0 <= e < self.edge_nodes@.len() ==> (#[trigger] self.edge_nodes@[e]).0
                < self.board.nodes@.len() && self.edge_nodes@[e].1 < self.board.nodes@.len()
                && self.edge_nodes@[e].0 != self.edge_nodes@[e].1
                && self.board.nodes@[self.edge_nodes@[e].0 as int].pos
                == self.board.edges@[e].spec_p1()
                && self.board.nodes@[self.edge_nodes@[e].1 as int].pos
                == self.board.edges@[e].spec_p2()
        &&& self.edges_adjacent_to_node@.len() == self.board.nodes@.len()
        &&& forall|nd: int, k: int|
            0 <= nd < self.edges_adjacent_to_node@.len() && 0 <= k
                < self.edges_adjacent_to_node@[nd]@.len() ==> (
            #[trigger] self.edges_adjacent_to_node@[nd]@[k]) < self.board.edges@.len() && incident(
                self.edge_nodes@,
                self.edges_adjacent_to_node@[nd]@[k] as int,
                nd,
            )
        &&& forall|nd: int, k1: int, k2: int|
            #![trigger self.edges_adjacent_to_node@[nd]@[k1], self.edges_adjacent_to_node@[nd]@[k2]]
            0 <= nd < self.edges_adjacent_to_node@.len() && 0 <= k1 < k2
                < self.edges_adjacent_to_node@[nd]@.len() ==> self.edges_adjacent_to_node@[nd]@[k1]
                < self.edges_adjacent_to_node@[nd]@[k2]
        &&& forall|nd: int, e: int|
            #![trigger self.edges_adjacent_to_node@[nd], self.edge_nodes@[e]]
            0 <= nd < self.edges_adjacent_to_node@.len() && 0 <= e < self.edge_nodes@.len()
                && incident(self.edge_nodes@, e, nd)
                ==> self.edges_adjacent_to_node@[nd]@.contains(e as usize)
        &&& forall|i: int|
            0 <= i < self.node_counts@.len() ==> (#[trigger] self.node_counts@[i]) as int
                == sum_incident_upto(
                self.edge_nodes@,
                self.edge_counts@,
                i,
                self.edge_counts@.len() as int,
            )
        &&& forall|i: int|
            0 <= i < self.node_counts@.len() ==> (#[trigger] self.node_counts@[i])
                <= self.board.nodes@[i].n
        &&& forall|k: int|
            0 <= k < self.soln@.len() ==> (#[trigger] self.soln@[k]) < self.board.edges@.len()
        &&& forall|e: int|
            0 <= e < self.edge_counts@.len() ==> occ(self.soln@, e as usize) == (
            #[trigger] self.edge_counts@[e]).val()
        &&& self.log@.len() == self.soln@.len()
        &&& forall|e: int, j: int|
            self.board.spec_cross(e, j) && !((#[trigger] self.edge_counts@[e]) is Zero) ==> (
            #[trigger] self.edge_counts@[j]) is Zero
    }

    /// The index of the island at position `p`.
    fn node_index_at(board: &Board, p: (usize, usize)) -> (r: usize)
        requires
            board.wf(),
            crate::board::seq_has_node_at(board.nodes@, p),
        ensures
            r < board.nodes@.len(),
            board.nodes@[r as int].pos == p,
    {
        let n = board.nodes.len();
        let mut j: usize = 0;
        while j < n
            invariant
                j <= n,
                n == board.nodes@.len(),
                crate::board::seq_has_node_at(board.nodes@, p),
                forall|k: int| 0 <= k < j ==> (#[trigger] board.nodes@[k]).pos != p,
            decreases n - j,
        {
            if board.nodes[j].pos.0 == p.0 && board.nodes[j].pos.1 == p.1 {
                proof {
                    assert(board.nodes@[j as int].pos == p);
                }
                return j;
            }
            j = j + 1;
        }
        proof {
            let w = choose|i: int| 0 <= i < board.nodes@.len() && (#[trigger] board.nodes@[i]).pos
                == p;
            assert(false);
        }
        unreached()
    }

    /// Fresh search state for one solve attempt: no bridges placed, every
    /// satisfied count zero, lookup tables derived from the board.
    pub fn new(board: &'b Board) -> (st: SolveState<'b>)
        requires
            board.wf(),
        ensures
            st.wf(),
            st.board == board,
            st.soln@.len() == 0,
            st.log@.len() == 0,
            st.depth == 0,
            st.visited@.len() == 0,
            forall|e: int| 0 <= e < st.edge_counts@.len() ==> (#[trigger] st.edge_counts@[e]) is Zero,
            forall|i: int| 0 <= i < st.node_counts@.len() ==> (#[trigger] st.node_counts@[i]) == 0,
    {
        let n = board.nodes.len();
        let m = board.edges.len();

        let mut edge_nodes: Vec<(usize, usize)> = Vec::new();
        let mut e: usize = 0;
        while e < m
            invariant
                e <= m,
                m == board.edges@.len(),
                board.wf(),
                edge_nodes@.len() == e,
                forall|k: int|
                    0 <= k < e ==> (#[trigger] edge_nodes@[k]).0 < board.nodes@.len()
                        && edge_nodes@[k].1 < board.nodes@.len() && edge_nodes@[k].0
                        != edge_nodes@[k].1 && board.nodes@[edge_nodes@[k].0 as int].pos
                        == board.edges@[k].spec_p1() && board.nodes@[edge_nodes@[k].1 as int].pos
                        == board.edges@[k].spec_p2(),
            decreases m - e,
        {
            let (p1, p2) = board.edges[e].endpoints();
            let a = Self::node_index_at(board, p1);
            let b = Self::node_index_at(board, p2);
            proof {
                assert(board.edges@[e as int].spec_wf());
                assert(board.edges@[e as int].spec_p1() != board.edges@[e as int].spec_p2());
            }
            edge_nodes.push((a, b));
            e = e + 1;
        }

        let mut adj: Vec<Vec<usize>> = Vec::new();
        let mut nd: usize = 0;
        while nd < n
            invariant
                nd <= n,
                n == board.nodes@.len(),
                m == board.edges@.len(),
                edge_nodes@.len() == m,
                adj@.len() == nd,
                forall|q: int, k: int|
                    0 <= q < nd && 0 <= k < adj@[q]@.len() ==> (#[trigger] adj@[q]@[k])
                        < board.edges@.len() && incident(edge_nodes@, adj@[q]@[k] as int, q),
                forall|q: int, k1: int, k2: int|
                    #![trigger adj@[q]@[k1], adj@[q]@[k2]]
                    0 <= q < nd && 0 <= k1 < k2 < adj@[q]@.len() ==> adj@[q]@[k1] < adj@[q]@[k2],
                forall|q: int, ee: int|
                    #![trigger adj@[q], edge_nodes@[ee]]
                    0 <= q < nd && 0 <= ee < edge_nodes@.len() && incident(edge_nodes@, ee, q)
                        ==> adj@[q]@.contains(ee as usize),
            decreases n - nd,
        {
            let mut row: Vec<usize> = Vec::new();
            let mut ee: usize = 0;
            while ee < m
                invariant
                    ee <= m,
                    m == board.edges@.len(),
                    edge_nodes@.len() == m,
                    nd < n,
                    forall|k: int|
                        0 <= k < row@.len() ==> (#[trigger] row@[k]) < board.edges@.len()
                            && incident(edge_nodes@, row@[k] as int, nd as int),
                    forall|k1: int, k2: int|
                        0 <= k1 < k2 < row@.len() ==> row@[k1] < row@[k2],
                    forall|k: int| 0 <= k < row@.len() ==> row@[k] < ee,
                    forall|q: int|
                        0 <= q < ee && incident(edge_nodes@, q, nd as int) ==> row@.contains(
                            q as usize,
                        ),
                decreases m - ee,
            {
                let pair = edge_nodes[ee];
                if pair.0 == nd || pair.1 == nd {
                    let ghost old_row = row@;
                    row.push(ee);
                    proof {
                        assert forall|q: int|
                            0 <= q <= ee as int && incident(
                                edge_nodes@,
                                q,
                                nd as int,
                            ) implies row@.contains(q as usize) by {
                            if q == ee as int {
                                assert(row@[row@.len() - 1] == ee);
                            } else {
                                assert(old_row.contains(q as usize));
                                let k = choose|k: int|
                                    0 <= k < old_row.len() && old_row[k] == q as usize;
                                assert(row@[k] == q as usize);
                            }
                        }
                    }
                }
                ee = ee + 1;
            }
            adj.push(row);
            nd = nd + 1;
        }

        let mut edge_counts: Vec<NumEdges> = Vec::new();
        let mut k: usize = 0;
        while k < m
            invariant
                k <= m,
                edge_counts@.len() == k,
                forall|q: int| 0 <= q < k ==> (#[trigger] edge_counts@[q]) is Zero,
            decreases m - k,
        {
            edge_counts.push(NumEdges::Zero);
            k = k + 1;
        }

        let mut node_counts: Vec<u8> = Vec::new();
        let mut k: usize = 0;
        while k < n
            invariant
                k <= n,
                node_counts@.len() == k,
                forall|q: int| 0 <= q < k ==> (#[trigger] node_counts@[q]) == 0,
            decreases n - k,
        {
            node_counts.push(0);
            k = k + 1;
        }

        let st = SolveState {
            soln: Vec::new(),
            log: Vec::new(),
            depth: 0,
            edge_counts,
            node_counts,
            edge_nodes,
            edges_adjacent_to_node: adj,
            visited: Vec::new(),
            board,
        };
        proof {
            assert forall|i: int| 0 <= i < st.node_counts@.len() implies (
            #[trigger] st.node_counts@[i]) as int == sum_incident_upto(
                st.edge_nodes@,
                st.edge_counts@,
                i,
                st.edge_counts@.len() as int,
            ) by {
                lemma_sum_zero(st.edge_nodes@, st.edge_counts@, i, st.edge_counts@.len() as int);
            }
            assert forall|q: int| 0 <= q < st.edge_counts@.len() implies occ(st.soln@, q as usize)
                == (#[trigger] st.edge_counts@[q]).val() by {
                lemma_occ_empty(q as usize);
                assert(st.soln@ =~= Seq::<usize>::empty());
            }
        }
        st
    }

    /// The island's unmet demand, executably.  Demand never goes negative:
    /// the satisfied count staying at or below the requirement is part of
    /// well-formedness.
    pub fn remaining(&self, idx: usize) -> (r: u8)
        requires
            self.wf(),
            idx < self.node_counts@.len(),
        ensures
            r as int == self.spec_rem(idx as int),
    {
        self.board.nodes[idx].n - self.node_counts[idx]
    }

    /// The total unmet demand over all islands, the solver's fuel.
    pub fn total_remaining(&self) -> (r: usize)
        requires
            self.wf(),
        ensures
            r as int == self.total_rem(),
    {
        let n = self.board.nodes.len();
        let mut sum: usize = 0;
        let mut i: usize = 0;
        while i < n
            invariant
                i <= n,
                self.wf(),
                n == self.board.nodes@.len(),
                sum as int == total_rem_upto(self.board.nodes@, self.node_counts@, i as int),
                sum <= 9 * i,
            decreases n - i,
        {
            let d = self.remaining(i);
            sum = sum + d as usize;
            i = i + 1;
        }
        sum
    }

    /// Places one more bridge on `edge` and updates every dependent view.
    /// The caller must hand a placeable edge: spare capacity, demand at both
    /// endpoints, and no crossing edge in use.
    pub fn add_edge(&mut self, edge: usize, reason: &'static str)
        requires
            old(self).wf(),
            (edge as int) < old(self).edge_counts@.len(),
            old(self).edge_counts@[edge as int].val() < 2,
            old(self).spec_rem(old(self).edge_nodes@[edge as int].0 as int) >= 1,
            old(self).spec_rem(old(self).edge_nodes@[edge as int].1 as int) >= 1,
            forall|j: int|
                old(self).board.spec_cross(edge as int, j) ==> (#[trigger] old(self).edge_counts@[j]) is Zero,
        ensures
            final(self).wf(),
            final(self).board == old(self).board,
            final(self).edge_nodes@ == old(self).edge_nodes@,
            final(self).edges_adjacent_to_node@ == old(self).edges_adjacent_to_node@,
            final(self).visited@ == old(self).visited@,
            final(self).depth == old(self).depth,
            final(self).soln@ == old(self).soln@.push(edge),
            final(self).log@ == old(self).log@.push(reason),
            final(self).edge_counts@.len() == old(self).edge_counts@.len(),
            final(self).edge_counts@[edge as int].val() == old(self).edge_counts@[edge
                as int].val() + 1,
            forall|j: int|
                0 <= j < old(self).edge_counts@.len() && j != edge as int ==> final(self).edge_counts@[j] == old(self).edge_counts@[j],
            final(self).node_counts@.len() == old(self).node_counts@.len(),
            final(self).node_counts@[old(self).edge_nodes@[edge as int].0 as int] == old(self).node_counts@[old(self).edge_nodes@[edge as int].0 as int] + 1,
            final(self).node_counts@[old(self).edge_nodes@[edge as int].1 as int] == old(self).node_counts@[old(self).edge_nodes@[edge as int].1 as int] + 1,
            forall|i: int|
                0 <= i < old(self).node_counts@.len() && i != old(self).edge_nodes@[edge
                    as int].0 as int && i != old(self).edge_nodes@[edge as int].1 as int ==> final(self).node_counts@[i] == old(self).node_counts@[i],
            final(self).total_rem() == old(self).total_rem() - 2,
    {
        proof {
            assert(old(self).board.wf());
        }
        self.soln.push(edge);
        self.log.push(reason);
        let mut c = self.edge_counts[edge];
        c.increment();
        self.edge_counts[edge] = c;

        let pair = self.edge_nodes[edge];
        let a = pair.0;
        let b = pair.1;
        let ghost mid_nc = self.node_counts@;
        let na = self.node_counts[a] + 1;
        self.node_counts[a] = na;
        let ghost after_a = self.node_counts@;
        let nb = self.node_counts[b] + 1;
        self.node_counts[b] = nb;

        proof {
            let st0 = *old(self);
            let en = st0.edge_nodes@;
            let c1 = st0.edge_counts@;
            let c2 = self.edge_counts@;
            let m = c1.len() as int;

            // satisfied counts stay the incident sums
            assert forall|i: int| 0 <= i < self.node_counts@.len() implies (
            #[trigger] self.node_counts@[i]) as int == sum_incident_upto(en, c2, i, m) by {
                lemma_sum_update(en, c1, c2, edge as int, i, m);
            }
            // the chosen sequence still aggregates to the multiplicities
            assert forall|q: int| 0 <= q < c2.len() implies occ(self.soln@, q as usize) == (
            #[trigger] c2[q]).val() by {
                lemma_occ_push(st0.soln@, edge, q as usize);
            }
            // the total unmet demand fell by exactly two
            lemma_total_rem_update(st0.board.nodes@, mid_nc, after_a, a as int, st0.board.nodes@.len() as int);
            lemma_total_rem_update(
                st0.board.nodes@,
                after_a,
                self.node_counts@,
                b as int,
                st0.board.nodes@.len() as int,
            );
        }
    }

    /// The last position in the chosen sequence holding `val`.
    fn rposition_eq(v: &Vec<usize>, val: usize) -> (r: Option<usize>)
        ensures
            r matches Some(k) ==> (k as int) < v@.len() && v@[k as int] == val && (forall|m: int|
                k < m < v@.len() ==> v@[m] != val),
            r is None ==> forall|m: int| 0 <= m < v@.len() ==> v@[m] != val,
    {
        let mut j: usize = v.len();
        while j > 0
            invariant
                j <= v@.len(),
                forall|m: int| j as int <= m < v@.len() ==> v@[m] != val,
            decreases j,
        {
            j = j - 1;
            if v[j] == val {
                return Some(j);
            }
        }
        None
    }

    /// Takes one bridge off `edge`: the latest placement of that edge leaves
    /// the chosen sequence, and every dependent view steps back.
    pub fn remove_edge(&mut self, edge: usize)
        requires
            old(self).wf(),
            (edge as int) < old(self).edge_counts@.len(),
            old(self).edge_counts@[edge as int].val() >= 1,
        ensures
            final(self).wf(),
            final(self).board == old(self).board,
            final(self).edge_nodes@ == old(self).edge_nodes@,
            final(self).edges_adjacent_to_node@ == old(self).edges_adjacent_to_node@,
            final(self).visited@ == old(self).visited@,
            final(self).depth == old(self).depth,
            exists|k: int|
                0 <= k < old(self).soln@.len() && old(self).soln@[k] == edge && (forall|m: int|
                    k < m < old(self).soln@.len() ==> old(self).soln@[m] != edge) && final(self).soln@ == old(self).soln@.remove(k) && final(self).log@ == old(self).log@.remove(
                    k,
                ),
            final(self).edge_counts@.len() == old(self).edge_counts@.len(),
            final(self).edge_counts@[edge as int].val() == old(self).edge_counts@[edge
                as int].val() - 1,
            forall|j: int|
                0 <= j < old(self).edge_counts@.len() && j != edge as int ==> final(self).edge_counts@[j] == old(self).edge_counts@[j],
            final(self).node_counts@.len() == old(self).node_counts@.len(),
            forall|i: int|
                0 <= i < old(self).node_counts@.len() && i != old(self).edge_nodes@[edge
                    as int].0 as int && i != old(self).edge_nodes@[edge as int].1 as int ==> final(self).node_counts@[i] == old(self).node_counts@[i],
            final(self).total_rem() == old(self).total_rem() + 2,
    {
        proof {
            lemma_occ_contains(old(self).soln@, edge);
        }
        let idx = match Self::rposition_eq(&self.soln, edge) {
            Some(idx) => idx,
            None => {
                proof {
                    assert(occ(old(self).soln@, edge) > 0);
                    assert(old(self).soln@.contains(edge));
                    let w = choose|w: int|
                        0 <= w < old(self).soln@.len() && old(self).soln@[w] == edge;
                    assert(false);
                }
                unreached()
            },
        };
        self.soln.remove(idx);
        self.log.remove(idx);
        let mut c = self.edge_counts[edge];
        c.decrement();
        self.edge_counts[edge] = c;

        let pair = self.edge_nodes[edge];
        let a = pair.0;
        let b = pair.1;
        proof {
            lemma_sum_lower_bound(
                old(self).edge_nodes@,
                old(self).edge_counts@,
                a as int,
                old(self).edge_counts@.len() as int,
                edge as int,
            );
            lemma_sum_lower_bound(
                old(self).edge_nodes@,
                old(self).edge_counts@,
                b as int,
                old(self).edge_counts@.len() as int,
                edge as int,
            );
        }
        let ghost mid_nc = self.node_counts@;
        let na = self.node_counts[a] - 1;
        self.node_counts[a] = na;
        let ghost after_a = self.node_counts@;
        let nb = self.node_counts[b] - 1;
        self.node_counts[b] = nb;

        proof {
            let st0 = *old(self);
            let en = st0.edge_nodes@;
            let c1 = st0.edge_counts@;
            let c2 = self.edge_counts@;
            let m = c1.len() as int;

            assert forall|i: int| 0 <= i < self.node_counts@.len() implies (
            #[trigger] self.node_counts@[i]) as int == sum_incident_upto(en, c2, i, m) by {
                lemma_sum_update(en, c1, c2, edge as int, i, m);
            }
            assert forall|q: int| 0 <= q < c2.len() implies occ(self.soln@, q as usize) == (
            #[trigger] c2[q]).val() by {
                lemma_occ_remove(st0.soln@, idx as int, q as usize);
            }
            lemma_total_rem_update(st0.board.nodes@, mid_nc, after_a, a as int, st0.board.nodes@.len() as int);
            lemma_total_rem_update(
                st0.board.nodes@,
                after_a,
                self.node_counts@,
                b as int,
                st0.board.nodes@.len() as int,
            );
        }
    }
    /// A copy of the multiplicity vector, for the transposition table.
    pub fn snapshot_counts(&self) -> (r: Vec<NumEdges>)
        ensures
            r@ == self.edge_counts@,
    {
        let mut r: Vec<NumEdges> = Vec::new();
        let mut k: usize = 0;
        let m = self.edge_counts.len();
        while k < m
            invariant
                k <= m,
                m == self.edge_counts@.len(),
                r@ == self.edge_counts@.take(k as int),
            decreases m - k,
        {
            r.push(self.edge_counts[k]);
            proof {
                assert(r@ =~= self.edge_counts@.take(k as int + 1));
            }
            k = k + 1;
        }
        proof {
            assert(self.edge_counts@.take(m as int) =~= self.edge_counts@);
        }
        r
    }

    /// A copy of the chosen-edge sequence.
    pub fn snapshot_soln(&self) -> (r: Vec<usize>)
        ensures
            r@ == self.soln@,
    {
        let mut r: Vec<usize> = Vec::new();
        let mut k: usize = 0;
        let m = self.soln.len();
        while k < m
            invariant
                k <= m,
                m == self.soln@.len(),
                r@ == self.soln@.take(k as int),
            decreases m - k,
        {
            r.push(self.soln[k]);
            proof {
                assert(r@ =~= self.soln@.take(k as int + 1));
            }
            k = k + 1;
        }
        proof {
            assert(self.soln@.take(m as int) =~= self.soln@);
        }
        r
    }

    /// A copy of the justification sequence.
    pub fn snapshot_log(&self) -> (r: Vec<&'static str>)
        ensures
            r@ == self.log@,
    {
        let mut r: Vec<&'static str> = Vec::new();
        let mut k: usize = 0;
        let m = self.log.len();
        while k < m
            invariant
                k <= m,
                m == self.log@.len(),
                r@ == self.log@.take(k as int),
            decreases m - k,
        {
            r.push(self.log[k]);
            proof {
                assert(r@ =~= self.log@.take(k as int + 1));
            }
            k = k + 1;
        }
        proof {
            assert(self.log@.take(m as int) =~= self.log@);
        }
        r
    }
}

/// Whether two multiplicity vectors are equal entry for entry.
fn counts_eq(a: &Vec<NumEdges>, b: &Vec<NumEdges>) -> (r: bool)
    ensures
        r == (a@ == b@),
{
    if a.len() != b.len() {
        return false;
    }
    let m = a.len();
    let mut k: usize = 0;
    while k < m
        invariant
            k <= m,
            m == a@.len() == b@.len(),
            forall|t: int| 0 <= t < k ==> a@[t] == b@[t],
        decreases m - k,
    {
        if a[k] != b[k] {
            return false;
        }
        k = k + 1;
    }
    proof {
        assert(a@ =~= b@);
    }
    true
}

/// Whether the transposition table already holds `probe`.
pub fn visited_contains(visited: &Vec<Vec<NumEdges>>, probe: &Vec<NumEdges>) -> (r: bool)
    ensures
        r == exists|k: int| 0 <= k < visited@.len() && (#[trigger] visited@[k])@ == probe@,
{
    let m = visited.len();
    let mut k: usize = 0;
    while k < m
        invariant
            k <= m,
            m == visited@.len(),
            forall|t: int| 0 <= t < k ==> (#[trigger] visited@[t])@ != probe@,
        decreases m - k,
    {
        if counts_eq(&visited[k], probe) {
            return true;
        }
        k = k + 1;
    }
    false
}

impl<'b> SolveState<'b> {
    /// Whether placing one more bridge on `edge` would land on a multiplicity
    /// vector the search has already explored.  The state is unchanged.
    pub fn already_visited(&mut self, edge: usize) -> (r: bool)
        requires
            old(self).wf(),
            (edge as int) < old(self).edge_counts@.len(),
            old(self).edge_counts@[edge as int].val() < 2,
        ensures
            final(self).wf(),
            final(self).board == old(self).board,
            final(self).edge_nodes@ == old(self).edge_nodes@,
            final(self).edges_adjacent_to_node@ == old(self).edges_adjacent_to_node@,
            final(self).visited@ == old(self).visited@,
            final(self).depth == old(self).depth,
            final(self).soln@ == old(self).soln@,
            final(self).log@ == old(self).log@,
            final(self).edge_counts@ == old(self).edge_counts@,
            final(self).node_counts@ == old(self).node_counts@,
            final(self).total_rem() == old(self).total_rem(),
            r == exists|k: int|
                0 <= k < old(self).visited@.len() && (#[trigger] old(self).visited@[k])@ == old(
                    self,
                ).edge_counts@.update(
                    edge as int,
                    NumEdges::from_count((old(self).edge_counts@[edge as int].val() + 1) as nat),
                ),
    {
        let ghost c0 = self.edge_counts@;
        let mut c = self.edge_counts[edge];
        c.increment();
        self.edge_counts[edge] = c;
        proof {
            assert(self.edge_counts@ =~= c0.update(
                edge as int,
                NumEdges::from_count((c0[edge as int].val() + 1) as nat),
            ));
        }
        let r = visited_contains(&self.visited, &self.edge_counts);
        let mut c2 = self.edge_counts[edge];
        c2.decrement();
        self.edge_counts[edge] = c2;
        proof {
            assert(self.edge_counts@ =~= c0);
        }
        r
    }

    /// The incident edges of `node` that currently carry at least one
    /// bridge.
    pub fn assigned_edges_for_node(&self, node: usize) -> (r: Vec<usize>)
        requires
            self.wf(),
            (node as int) < self.board.nodes@.len(),
        ensures
            forall|k: int|
                0 <= k < r@.len() ==> (#[trigger] r@[k]) < self.edge_counts@.len() && incident(
                    self.edge_nodes@,
                    r@[k] as int,
                    node as int,
                ) && !(self.edge_counts@[r@[k] as int] is Zero),
            forall|e: int|
                0 <= e < self.edge_nodes@.len() && incident(self.edge_nodes@, e, node as int) && !((
                #[trigger] self.edge_counts@[e]) is Zero) ==> r@.contains(e as usize),
            forall|k1: int, k2: int| 0 <= k1 < k2 < r@.len() ==> r@[k1] < r@[k2],
    {
        let mut r: Vec<usize> = Vec::new();
        let lst = &self.edges_adjacent_to_node[node];
        let m = lst.len();
        let mut k: usize = 0;
        while k < m
            invariant
                k <= m,
                self.wf(),
                (node as int) < self.board.nodes@.len(),
                lst@ == self.edges_adjacent_to_node@[node as int]@,
                m == lst@.len(),
                forall|t: int|
                    0 <= t < r@.len() ==> (#[trigger] r@[t]) < self.edge_counts@.len() && incident(
                        self.edge_nodes@,
                        r@[t] as int,
                        node as int,
                    ) && !(self.edge_counts@[r@[t] as int] is Zero),
                forall|t: int|
                    0 <= t < k && !(self.edge_counts@[lst@[t] as int] is Zero) ==> r@.contains(
                        #[trigger] lst@[t],
                    ),
                forall|k1: int, k2: int| 0 <= k1 < k2 < r@.len() ==> r@[k1] < r@[k2],
                forall|t: int|
                    0 <= t < r@.len() ==> exists|q: int| 0 <= q < k && (#[trigger] r@[t]) == lst@[q],
            decreases m - k,
        {
            let e = lst[k];
            if !matches!(self.edge_counts[e], NumEdges::Zero) {
                let ghost old_r = r@;
                r.push(e);
                proof {
                    assert forall|k1: int, k2: int|
                        0 <= k1 < k2 < r@.len() implies r@[k1] < r@[k2] by {
                        if k2 == r@.len() - 1 {
                            let q = choose|q: int| 0 <= q < k && old_r[k1] == lst@[q];
                            assert(lst@[q] < lst@[k as int]);
                        }
                    }
                    assert forall|t: int|
                        0 <= t <= k as int && !(self.edge_counts@[lst@[t] as int] is Zero) implies r@.contains(
                        #[trigger] lst@[t],
                    ) by {
                        if t == k as int {
                            assert(r@[r@.len() - 1] == lst@[t]);
                        } else {
                            assert(old_r.contains(lst@[t]));
                            let w = choose|w: int| 0 <= w < old_r.len() && old_r[w] == lst@[t];
                            assert(r@[w] == lst@[t]);
                        }
                    }
                }
            }
            k = k + 1;
        }
        proof {
            assert forall|e: int|
                0 <= e < self.edge_nodes@.len() && incident(self.edge_nodes@, e, node as int) && !((
            #[trigger] self.edge_counts@[e]) is Zero) implies r@.contains(e as usize) by {
                assert(self.edges_adjacent_to_node@[node as int]@.contains(e as usize));
                let t = choose|t: int|
                    0 <= t < lst@.len() && lst@[t] == e as usize;
            }
        }
        r
    }

    /// The candidate list of `node`, over the first `k` of its incident
    /// edges: each viable edge paired with how many more bridges it can
    /// take.
    pub open spec fn avail_list(self, nd: int, k: int) -> Seq<(usize, u8)>
        decreases k,
    {
        if k <= 0 {
            Seq::empty()
        } else {
            let prev = self.avail_list(nd, k - 1);
            let e = self.edges_adjacent_to_node@[nd]@[k - 1] as int;
            if self.viable(e) {
                prev.push((e as usize, self.spec_avail(e) as u8))
            } else {
                prev
            }
        }
    }

    /// The full candidate list of `node`.
    pub open spec fn avail_full(self, nd: int) -> Seq<(usize, u8)> {
        self.avail_list(nd, self.edges_adjacent_to_node@[nd]@.len() as int)
    }

    /// `node` has at least one candidate edge left.
    pub open spec fn has_candidate(self, nd: int) -> bool {
        self.avail_full(nd).len() > 0
    }

    /// Every entry of a candidate list is a viable edge with its exact
    /// spare capacity, which is one or two.
    pub proof fn lemma_avail_list_props(self, nd: int, k: int)
        requires
            self.wf(),
            0 <= nd < self.edges_adjacent_to_node@.len(),
            k <= self.edges_adjacent_to_node@[nd]@.len(),
        ensures
            forall|t: int|
                0 <= t < self.avail_list(nd, k).len() ==> {
                    let pr = #[trigger] self.avail_list(nd, k)[t];
                    &&& self.viable(pr.0 as int)
                    &&& pr.1 == self.spec_avail(pr.0 as int)
                    &&& 1 <= pr.1 <= 2
                    &&& incident(self.edge_nodes@, pr.0 as int, nd)
                },
        decreases k,
    {
        if k > 0 {
            self.lemma_avail_list_props(nd, k - 1);
            let e = self.edges_adjacent_to_node@[nd]@[k - 1] as int;
            let prev = self.avail_list(nd, k - 1);
            let cur = self.avail_list(nd, k);
            assert forall|t: int| 0 <= t < cur.len() implies {
                let pr = #[trigger] cur[t];
                &&& self.viable(pr.0 as int)
                &&& pr.1 == self.spec_avail(pr.0 as int)
                &&& 1 <= pr.1 <= 2
                &&& incident(self.edge_nodes@, pr.0 as int, nd)
            } by {
                if self.viable(e) && t == prev.len() {
                    assert(self.spec_avail(e) >= 1);
                    assert(self.spec_avail(e) <= 2);
                    assert(incident(self.edge_nodes@, e, nd));
                    assert(cur[t] == (e as usize, self.spec_avail(e) as u8));
                } else {
                    assert(cur[t] == prev[t]);
                    let pr = prev[t];
                    assert(self.viable(pr.0 as int));
                }
            }
        }
    }

    /// If some incident edge of `node` is viable, its candidate list is not
    /// empty.
    pub proof fn lemma_avail_list_nonempty(self, nd: int, k: int, t: int)
        requires
            self.wf(),
            0 <= nd < self.edges_adjacent_to_node@.len(),
            k <= self.edges_adjacent_to_node@[nd]@.len(),
            0 <= t < k,
            self.viable(self.edges_adjacent_to_node@[nd]@[t] as int),
        ensures
            self.avail_list(nd, k).len() > 0,
        decreases k,
    {
        if t < k - 1 {
            self.lemma_avail_list_nonempty(nd, k - 1, t);
        }
    }

    /// The candidates of `node`: among its incident edges, those that can
    /// still take a bridge, paired with how many more they can take.
    pub fn available_edges_for_node(&self, node: usize) -> (r: Vec<(usize, u8)>)
        requires
            self.wf(),
            (node as int) < self.board.nodes@.len(),
        ensures
            r@ == self.avail_full(node as int),
    {
        let mut r: Vec<(usize, u8)> = Vec::new();
        let lst = &self.edges_adjacent_to_node[node];
        let m = lst.len();
        let mut k: usize = 0;
        while k < m
            invariant
                k <= m,
                self.wf(),
                (node as int) < self.board.nodes@.len(),
                lst@ == self.edges_adjacent_to_node@[node as int]@,
                m == lst@.len(),
                r@ == self.avail_list(node as int, k as int),
            decreases m - k,
        {
            let e = lst[k];
            let cnt = self.edge_counts[e];
            let unused_slots: u8 = 2 - cnt.value();
            if unused_slots > 0 {
                let pair = self.edge_nodes[e];
                let n1 = pair.0;
                let n2 = pair.1;
                let rem1 = self.remaining(n1);
                let rem2 = self.remaining(n2);
                let rem_min = if rem1 <= rem2 {
                    rem1
                } else {
                    rem2
                };
                let available = if unused_slots <= rem_min {
                    unused_slots
                } else {
                    rem_min
                };
                proof {
                    assert(available as int == self.spec_avail(e as int));
                }
                let mut is_viable = available > 0;

                // no single bridge between two islands that both need one,
                // and no second bridge between two islands that both need two
                if self.board.nodes[n1].n == self.board.nodes[n2].n {
                    if self.board.nodes[n1].n == 1 || (self.board.nodes[n2].n == 2 && matches!(
                        cnt,
                        NumEdges::One,
                    )) {
                        is_viable = false;
                    }
                }

                if is_viable {
                    // a crossing edge already in use rules the edge out
                    let row = &self.board.edge_intersections[e];
                    let rl = row.len();
                    let mut q: usize = 0;
                    while q < rl
                        invariant
                            q <= rl,
                            self.wf(),
                            (e as int) < self.board.edges@.len(),
                            row@ == self.board.edge_intersections@[e as int]@,
                            rl == row@.len(),
                            is_viable <==> (forall|w: int|
                                0 <= w < q ==> self.edge_counts@[(#[trigger] row@[w]) as int] is Zero),
                        decreases rl - q,
                    {
                        if !matches!(self.edge_counts[row[q]], NumEdges::Zero) {
                            is_viable = false;
                        }
                        q = q + 1;
                    }
                    if is_viable {
                        proof {
                            assert forall|j: int| self.board.spec_cross(e as int, j) implies (
                            #[trigger] self.edge_counts@[j]) is Zero by {
                                assert(self.board.edge_intersections@[e as int]@.contains(
                                    j as usize,
                                ));
                                let w = choose|w: int|
                                    0 <= w < row@.len() && row@[w] == j as usize;
                                assert(self.edge_counts@[row@[w] as int] is Zero);
                            }
                            assert(self.viable(e as int));
                        }
                        r.push((e, available));
                    } else {
                        proof {
                            let w = choose|w: int|
                                0 <= w < row@.len() && !(self.edge_counts@[(
                                #[trigger] row@[w]) as int] is Zero);
                            assert(self.board.spec_cross(e as int, row@[w] as int));
                            assert(!self.viable(e as int));
                        }
                    }
                }
            }
            proof {
                assert(r@ =~= self.avail_list(node as int, k as int + 1));
            }
            k = k + 1;
        }
        r
    }

    /// A candidate list folded onto an accumulator: each edge joins on its
    /// first appearance only.
    pub open spec fn append_new(prev: Seq<usize>, av: Seq<(usize, u8)>, k: int) -> Seq<usize>
        decreases k,
    {
        if k <= 0 {
            prev
        } else {
            let cur = Self::append_new(prev, av, k - 1);
            if cur.contains(av[k - 1].0) {
                cur
            } else {
                cur.push(av[k - 1].0)
            }
        }
    }

    /// The deduplicated candidates of the first `idx` islands with unmet
    /// demand, in island-index and then discovery order.
    pub open spec fn next_edges_upto(self, idx: int) -> Seq<usize>
        decreases idx,
    {
        if idx <= 0 {
            Seq::empty()
        } else {
            let prev = self.next_edges_upto(idx - 1);
            if self.spec_rem(idx - 1) == 0 {
                prev
            } else {
                Self::append_new(
                    prev,
                    self.avail_full(idx - 1),
                    self.avail_full(idx - 1).len() as int,
                )
            }
        }
    }

    /// Every edge that is a candidate for some island with unmet demand,
    /// deduplicated, in island-index then discovery order.
    pub fn find_next_edges(&self) -> (r: Vec<usize>)
        requires
            self.wf(),
        ensures
            r@ == self.next_edges_upto(self.board.nodes@.len() as int),
            forall|k: int| 0 <= k < r@.len() ==> self.viable(#[trigger] r@[k] as int),
            forall|k1: int, k2: int| 0 <= k1 < k2 < r@.len() ==> r@[k1] != r@[k2],
    {
        let mut viable: Vec<usize> = Vec::new();
        let n = self.board.nodes.len();
        let mut idx: usize = 0;
        while idx < n
            invariant
                idx <= n,
                self.wf(),
                n == self.board.nodes@.len(),
                viable@ == self.next_edges_upto(idx as int),
                forall|k: int| 0 <= k < viable@.len() ==> self.viable(#[trigger] viable@[k] as int),
                forall|k1: int, k2: int|
                    0 <= k1 < k2 < viable@.len() ==> viable@[k1] != viable@[k2],
            decreases n - idx,
        {
            if self.remaining(idx) != 0 {
                let avail = self.available_edges_for_node(idx);
                proof {
                    self.lemma_avail_list_props(
                        idx as int,
                        self.edges_adjacent_to_node@[idx as int]@.len() as int,
                    );
                }
                let ghost before = viable@;
                let al = avail.len();
                let mut k: usize = 0;
                while k < al
                    invariant
                        k <= al,
                        self.wf(),
                        al == avail@.len(),
                        avail@ == self.avail_full(idx as int),
                        viable@ == Self::append_new(before, avail@, k as int),
                        forall|t: int|
                            0 <= t < avail@.len() ==> self.viable(
                                (#[trigger] avail@[t]).0 as int,
                            ),
                        forall|t: int|
                            0 <= t < viable@.len() ==> self.viable(#[trigger] viable@[t] as int),
                        forall|k1: int, k2: int|
                            0 <= k1 < k2 < viable@.len() ==> viable@[k1] != viable@[k2],
                    decreases al - k,
                {
                    let e = avail[k].0;
                    if !contains_usize(&viable, e) {
                        viable.push(e);
                    }
                    k = k + 1;
                }
            }
            idx = idx + 1;
        }
        viable
    }
}

/// Whether the list holds the value.
fn contains_usize(v: &Vec<usize>, val: usize) -> (r: bool)
    ensures
        r == v@.contains(val),
{
    let m = v.len();
    let mut k: usize = 0;
    while k < m
        invariant
            k <= m,
            m == v@.len(),
            forall|t: int| 0 <= t < k ==> v@[t] != val,
        decreases m - k,
    {
        if v[k] == val {
            return true;
        }
        k = k + 1;
    }
    proof {
        assert(!v@.contains(val));
    }
    false
}

} // verus!
