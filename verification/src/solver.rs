//! The constraint-propagation backtracking search: forced-move deduction,
//! feasibility checks, the connectivity test, and the bounded recursive
//! search itself.

use vstd::prelude::*;

verus! {

use crate::bridges::NumEdges;
use crate::errors::SolveError;
use crate::state::SolveState;
use crate::state::visited_contains;

/// Every island's demand is met.
pub open spec fn spec_complete(s: SolveState) -> bool {
    forall|i: int| 0 <= i < s.node_counts@.len() ==> s.spec_rem(i) == 0
}

/// The label vector of the union-find pass after folding the first `e`
/// edges: placed edges merge their endpoints' labels, relabelling the larger
/// of the two everywhere to the smaller.
pub open spec fn djs_upto(en: Seq<(usize, usize)>, cnts: Seq<NumEdges>, n: int, e: int) -> Seq<
    usize,
>
    decreases e,
{
    if e <= 0 {
        Seq::new(n as nat, |i: int| i as usize)
    } else {
        let prev = djs_upto(en, cnts, n, e - 1);
        if cnts[e - 1] is Zero {
            prev
        } else {
            let d1 = prev[en[e - 1].0 as int];
            let d2 = prev[en[e - 1].1 as int];
            let mn = if d1 <= d2 {
                d1
            } else {
                d2
            };
            let mx = if d1 <= d2 {
                d2
            } else {
                d1
            };
            if mn == mx {
                prev
            } else {
                prev.map_values(
                    |v: usize|
                        if v == mx {
                            mn
                        } else {
                            v
                        },
                )
            }
        }
    }
}

/// The board is solved: every island's demand is met and the placed edges
/// connect all islands into the single component labelled zero.
pub open spec fn spec_solved(s: SolveState) -> bool {
    &&& spec_complete(s)
    &&& forall|k: int|
        0 <= k < s.board.nodes@.len() ==> djs_upto(
            s.edge_nodes@,
            s.edge_counts@,
            s.board.nodes@.len() as int,
            s.edge_counts@.len() as int,
        )[k] == 0
}

/// The edges of a candidate list that offer exactly one more bridge.
pub open spec fn ones_upto(av: Seq<(usize, u8)>, k: int) -> Seq<usize>
    decreases k,
{
    if k <= 0 {
        Seq::empty()
    } else {
        let prev = ones_upto(av, k - 1);
        if av[k - 1].1 == 1 {
            prev.push(av[k - 1].0)
        } else {
            prev
        }
    }
}

/// The edges of a candidate list that offer two more bridges and carry none
/// yet.
pub open spec fn twos_upto(av: Seq<(usize, u8)>, cnts: Seq<NumEdges>, k: int) -> Seq<usize>
    decreases k,
{
    if k <= 0 {
        Seq::empty()
    } else {
        let prev = twos_upto(av, cnts, k - 1);
        if av[k - 1].1 == 2 && cnts[av[k - 1].0 as int] is Zero {
            prev.push(av[k - 1].0)
        } else {
            prev
        }
    }
}

/// The forced-move table: given an island's remaining demand and its
/// one-slot and two-slot candidate buckets, the edge that must take another
/// bridge, with its justification, where the combination determines one.
pub open spec fn forced_choice(rem: u8, ones: Seq<usize>, twos: Seq<usize>) -> Option<
    (usize, &'static str),
> {
    let n1 = ones.len();
    let n2 = twos.len();
    if rem == 1 && n1 == 1 && n2 == 0 {
        Option::Some((ones[0], "only viable edge"))
    } else if rem == 1 && n1 == 0 && n2 == 1 {
        Option::Some((twos[0], "only viable edge"))
    } else if rem == 2 && n1 == 0 && n2 == 1 {
        Option::Some((twos[0], "must include all remaining edges"))
    } else if rem == 2 && n1 == 1 && n2 == 1 {
        Option::Some((twos[0], "must include at least one of the double-bond"))
    } else if rem == 2 && n1 == 2 && n2 == 0 {
        Option::Some((ones[0], "must include all of the remaining edges"))
    } else if rem == 3 && n1 == 0 && n2 == 2 {
        Option::Some((twos[0], "must include at least one of each double-bond"))
    } else if rem == 3 && n1 == 1 && n2 == 1 {
        Option::Some((twos[0], "must include all of the remaining edges"))
    } else if rem == 3 && n1 == 2 && n2 == 1 {
        Option::Some((twos[0], "must include at least one of the double-bond"))
    } else if rem == 3 && n1 == 3 && n2 == 0 {
        Option::Some((ones[0], "must include all of the remaining edges"))
    } else if rem == 4 && n1 == 0 && n2 == 2 {
        Option::Some((twos[0], "must include all of the remaining edges"))
    } else if rem == 4 && n1 == 1 && n2 == 2 {
        Option::Some((twos[0], "must include at least one of each double-bond"))
    } else if rem == 4 && n1 == 2 && n2 == 1 {
        Option::Some((twos[0], "must include all of the remaining edges"))
    } else if rem == 4 && n1 == 3 && n2 == 1 {
        Option::Some((twos[0], "must include at least one of the double-bond"))
    } else if rem == 5 && n1 == 0 && n2 == 3 {
        Option::Some((twos[0], "must include at least one of each double-bond"))
    } else if rem == 5 && n1 == 1 && n2 == 2 {
        Option::Some((twos[0], "must include all of the remaining edges"))
    } else if rem == 5 && n1 == 2 && n2 == 2 {
        Option::Some((twos[0], "must include at least one of each double-bond"))
    } else if rem == 5 && n1 == 3 && n2 == 1 {
        Option::Some((twos[0], "must include all of the remaining edges"))
    } else if rem == 6 && n1 == 0 && n2 == 3 {
        Option::Some((twos[0], "must include all of the remaining edges"))
    } else if rem == 6 && n1 == 2 && n2 == 2 {
        Option::Some((twos[0], "must include all of the remaining edges"))
    } else if rem == 7 && n1 == 0 && n2 == 4 {
        Option::Some((twos[0], "must include all but one of the double-bond"))
    } else if rem == 7 && n1 == 1 && n2 == 3 {
        Option::Some((ones[0], "must include all of the remaining edges"))
    } else if rem == 8 && n1 == 0 && n2 == 4 {
        Option::Some((twos[0], "must include all of the remaining edges"))
    } else {
        Option::None
    }
}

/// A justification text the solver can attach to a chosen edge: one of the
/// six forced-move readings or the speculative marker.
pub open spec fn is_justification(s: &'static str) -> bool {
    ||| s@ == "only viable edge"@
    ||| s@ == "must include all remaining edges"@
    ||| s@ == "must include all of the remaining edges"@
    ||| s@ == "must include at least one of the double-bond"@
    ||| s@ == "must include at least one of each double-bond"@
    ||| s@ == "must include all but one of the double-bond"@
    ||| s@ == "speculative"@
}

/// Every entry of a justification sequence is one of the fixed texts.
pub open spec fn log_justified(log: Seq<&'static str>) -> bool {
    forall|k: int| 0 <= k < log.len() ==> is_justification(#[trigger] log[k])
}

/// No entry of a justification sequence marks a speculative step.
pub open spec fn no_speculative(log: Seq<&'static str>) -> bool {
    forall|k: int| 0 <= k < log.len() ==> (#[trigger] log[k])@ != "speculative"@
}

/// A forced move's justification is never the speculative marker: the six
/// forced texts all differ from it.
proof fn lemma_forced_choice_not_speculative(rem: u8, ones: Seq<usize>, twos: Seq<usize>)
    ensures
        forced_choice(rem, ones, twos) matches Some(pr) ==> pr.1@ != "speculative"@,
{
    reveal_strlit("speculative");
    reveal_strlit("only viable edge");
    reveal_strlit("must include all remaining edges");
    reveal_strlit("must include all of the remaining edges");
    reveal_strlit("must include at least one of the double-bond");
    reveal_strlit("must include at least one of each double-bond");
    reveal_strlit("must include all but one of the double-bond");
    assert(("speculative"@).len() == 11);
    assert(("only viable edge"@).len() == 16);
    assert(("must include all remaining edges"@).len() == 32);
    assert(("must include all of the remaining edges"@).len() == 39);
    assert(("must include at least one of the double-bond"@).len() == 44);
    assert(("must include at least one of each double-bond"@).len() == 45);
    assert(("must include all but one of the double-bond"@).len() == 43);
}

/// The forced-move table only ever hands out the fixed justification
/// texts.
proof fn lemma_forced_choice_justified(rem: u8, ones: Seq<usize>, twos: Seq<usize>)
    ensures
        forced_choice(rem, ones, twos) matches Some(pr) ==> is_justification(pr.1),
{
}

impl<'b> SolveState<'b> {
    /// The forced move at one island, if the table determines one.
    pub open spec fn forced_at(self, idx: int) -> Option<(usize, &'static str)> {
        if self.spec_rem(idx) == 0 {
            Option::None
        } else {
            let av = self.avail_full(idx);
            forced_choice(
                self.spec_rem(idx) as u8,
                ones_upto(av, av.len() as int),
                twos_upto(av, self.edge_counts@, av.len() as int),
            )
        }
    }

    /// The first forced move, scanning the islands in index order from
    /// position `i`.
    pub open spec fn forced_scan(self, i: int) -> Option<(usize, &'static str)>
        decreases self.board.nodes@.len() - i,
    {
        if i < 0 || i >= self.board.nodes@.len() {
            Option::None
        } else if self.forced_at(i) is Some {
            self.forced_at(i)
        } else {
            self.forced_scan(i + 1)
        }
    }

    /// A forced move found by the scan carries one of the fixed
    /// justification texts.
    proof fn lemma_forced_scan_justified(self, i: int)
        ensures
            self.forced_scan(i) matches Some(pr) ==> is_justification(pr.1),
        decreases self.board.nodes@.len() - i,
    {
        if i < 0 || i >= self.board.nodes@.len() {
        } else if self.forced_at(i) is Some {
            if self.spec_rem(i) != 0 {
                let av = self.avail_full(i);
                lemma_forced_choice_justified(
                    self.spec_rem(i) as u8,
                    ones_upto(av, av.len() as int),
                    twos_upto(av, self.edge_counts@, av.len() as int),
                );
            }
        } else {
            self.lemma_forced_scan_justified(i + 1);
        }
    }

    /// A forced move found by the scan never carries the speculative
    /// marker.
    proof fn lemma_forced_scan_not_speculative(self, i: int)
        ensures
            self.forced_scan(i) matches Some(pr) ==> pr.1@ != "speculative"@,
        decreases self.board.nodes@.len() - i,
    {
        if i < 0 || i >= self.board.nodes@.len() {
        } else if self.forced_at(i) is Some {
            if self.spec_rem(i) != 0 {
                let av = self.avail_full(i);
                lemma_forced_choice_not_speculative(
                    self.spec_rem(i) as u8,
                    ones_upto(av, av.len() as int),
                    twos_upto(av, self.edge_counts@, av.len() as int),
                );
            }
        } else {
            self.lemma_forced_scan_not_speculative(i + 1);
        }
    }

    /// Whether the current state is a solution: demands met everywhere, and
    /// one spanning component under the placed edges, decided by a
    /// disjoint-set pass over the full edge list.
    pub fn solved(&self) -> (r: bool)
        requires
            self.wf(),
        ensures
            r == spec_solved(*self),
    {
        let n = self.board.nodes.len();
        let m = self.edge_counts.len();

        // demands first
        let mut idx: usize = 0;
        while idx < n
            invariant
                idx <= n,
                self.wf(),
                n == self.board.nodes@.len(),
                forall|i: int| 0 <= i < idx ==> self.spec_rem(i) == 0,
            decreases n - idx,
        {
            if self.node_counts[idx] != self.board.nodes[idx].n {
                proof {
                    assert(self.spec_rem(idx as int) != 0);
                    assert(!spec_complete(*self));
                }
                return false;
            }
            idx = idx + 1;
        }

        // connectivity by a disjoint-set fold over the placed edges
        let ghost en = self.edge_nodes@;
        let ghost cnts = self.edge_counts@;
        let mut djs: Vec<usize> = Vec::new();
        let mut k: usize = 0;
        while k < n
            invariant
                k <= n,
                djs@.len() == k,
                forall|t: int| 0 <= t < k ==> djs@[t] == t,
            decreases n - k,
        {
            djs.push(k);
            k = k + 1;
        }
        proof {
            assert(djs@ =~= djs_upto(en, cnts, n as int, 0));
        }

        let mut e: usize = 0;
        while e < m
            invariant
                e <= m,
                self.wf(),
                n == self.board.nodes@.len(),
                m == self.edge_counts@.len(),
                en == self.edge_nodes@,
                cnts == self.edge_counts@,
                djs@.len() == n,
                djs@ == djs_upto(en, cnts, n as int, e as int),
            decreases m - e,
        {
            if !matches!(self.edge_counts[e], NumEdges::Zero) {
                let pair = self.edge_nodes[e];
                let d1 = djs[pair.0];
                let d2 = djs[pair.1];
                let mn = if d1 <= d2 {
                    d1
                } else {
                    d2
                };
                let mx = if d1 <= d2 {
                    d2
                } else {
                    d1
                };
                if mn != mx {
                    let ghost prev = djs@;
                    let mut t: usize = 0;
                    while t < n
                        invariant
                            t <= n,
                            djs@.len() == n,
                            prev.len() == n,
                            forall|w: int|
                                0 <= w < t ==> djs@[w] == (if prev[w] == mx {
                                    mn
                                } else {
                                    prev[w]
                                }),
                            forall|w: int| t <= w < n ==> djs@[w] == prev[w],
                        decreases n - t,
                    {
                        if djs[t] == mx {
                            djs[t] = mn;
                        }
                        t = t + 1;
                    }
                    proof {
                        assert(djs@ =~= prev.map_values(
                            |v: usize|
                                if v == mx {
                                    mn
                                } else {
                                    v
                                },
                        ));
                        assert(djs@ =~= djs_upto(en, cnts, n as int, e as int + 1));
                    }
                } else {
                    proof {
                        assert(djs@ =~= djs_upto(en, cnts, n as int, e as int + 1));
                    }
                }
            } else {
                proof {
                    assert(djs@ =~= djs_upto(en, cnts, n as int, e as int + 1));
                }
            }
            e = e + 1;
        }

        let mut t: usize = 0;
        while t < n
            invariant
                t <= n,
                djs@.len() == n,
                djs@ == djs_upto(en, cnts, n as int, m as int),
                n == self.board.nodes@.len(),
                m == self.edge_counts@.len(),
                en == self.edge_nodes@,
                cnts == self.edge_counts@,
                spec_complete(*self),
                forall|w: int| 0 <= w < t ==> djs@[w] == 0,
            decreases n - t,
        {
            if djs[t] != 0 {
                return false;
            }
            t = t + 1;
        }
        true
    }

    /// The forced-move deduction: for each island with unmet demand,
    /// partition its candidates into one-slot and two-slot edges; when the
    /// remaining demand and the bucket sizes uniquely determine an edge that
    /// must take another bridge, report it with a short justification.
    ///
    /// Deliberate behaviour change for a defect layout: an island can hold
    /// more than four candidate buckets only when the edge derivation has
    /// synthesised overlapping edges, a state once treated as a hard stop.
    /// Verified code does not halt, so the table names no forced move there
    /// and the speculative search takes over; soundness is unaffected
    /// because every table entry is still a viable edge.
    pub fn solve_fully_constrained(&self) -> (r: Option<(usize, &'static str)>)
        requires
            self.wf(),
        ensures
            r == self.forced_scan(0),
            r matches Some(pr) ==> self.viable(pr.0 as int),
    {
        let n = self.board.nodes.len();
        let mut idx: usize = 0;
        while idx < n
            invariant
                idx <= n,
                self.wf(),
                n == self.board.nodes@.len(),
                self.forced_scan(0) == self.forced_scan(idx as int),
            decreases n - idx,
        {
            let remaining = self.remaining(idx);
            if remaining != 0 {
                let avail = self.available_edges_for_node(idx);
                proof {
                    self.lemma_avail_list_props(
                        idx as int,
                        self.edges_adjacent_to_node@[idx as int]@.len() as int,
                    );
                }
                let al = avail.len();
                let mut one_slots: Vec<usize> = Vec::new();
                let mut two_slots: Vec<usize> = Vec::new();
                let mut k: usize = 0;
                while k < al
                    invariant
                        k <= al,
                        self.wf(),
                        al == avail@.len(),
                        forall|t: int|
                            0 <= t < avail@.len() ==> self.viable((#[trigger] avail@[t]).0 as int),
                        forall|t: int|
                            0 <= t < one_slots@.len() ==> self.viable(
                                #[trigger] one_slots@[t] as int,
                            ),
                        forall|t: int|
                            0 <= t < two_slots@.len() ==> self.viable(
                                #[trigger] two_slots@[t] as int,
                            ),
                        one_slots@ == ones_upto(avail@, k as int),
                        two_slots@ == twos_upto(avail@, self.edge_counts@, k as int),
                    decreases al - k,
                {
                    let pr = avail[k];
                    if pr.1 == 1 {
                        one_slots.push(pr.0);
                    } else if pr.1 == 2 && matches!(self.edge_counts[pr.0], NumEdges::Zero) {
                        two_slots.push(pr.0);
                    }
                    proof {
                        assert(one_slots@ =~= ones_upto(avail@, k as int + 1));
                        assert(two_slots@ =~= twos_upto(avail@, self.edge_counts@, k as int + 1));
                    }
                    k = k + 1;
                }

                let v: Option<(usize, &'static str)> = match (
                    remaining,
                    one_slots.len(),
                    two_slots.len(),
                ) {
                    (1, 1, 0) => Some((one_slots[0], "only viable edge")),
                    (1, 0, 1) => Some((two_slots[0], "only viable edge")),
                    (2, 0, 1) => Some((two_slots[0], "must include all remaining edges")),
                    (2, 1, 1) => Some(
                        (two_slots[0], "must include at least one of the double-bond"),
                    ),
                    (2, 2, 0) => Some((one_slots[0], "must include all of the remaining edges")),
                    (3, 0, 2) => Some(
                        (two_slots[0], "must include at least one of each double-bond"),
                    ),
                    (3, 1, 1) => Some((two_slots[0], "must include all of the remaining edges")),
                    (3, 2, 1) => Some(
                        (two_slots[0], "must include at least one of the double-bond"),
                    ),
                    (3, 3, 0) => Some((one_slots[0], "must include all of the remaining edges")),
                    (4, 0, 2) => Some((two_slots[0], "must include all of the remaining edges")),
                    (4, 1, 2) => Some(
                        (two_slots[0], "must include at least one of each double-bond"),
                    ),
                    (4, 2, 1) => Some((two_slots[0], "must include all of the remaining edges")),
                    (4, 3, 1) => Some(
                        (two_slots[0], "must include at least one of the double-bond"),
                    ),
                    (5, 0, 3) => Some(
                        (two_slots[0], "must include at least one of each double-bond"),
                    ),
                    (5, 1, 2) => Some((two_slots[0], "must include all of the remaining edges")),
                    (5, 2, 2) => Some(
                        (two_slots[0], "must include at least one of each double-bond"),
                    ),
                    (5, 3, 1) => Some((two_slots[0], "must include all of the remaining edges")),
                    (6, 0, 3) => Some((two_slots[0], "must include all of the remaining edges")),
                    (6, 2, 2) => Some((two_slots[0], "must include all of the remaining edges")),
                    (7, 0, 4) => Some((two_slots[0], "must include all but one of the double-bond")),
                    (7, 1, 3) => Some((one_slots[0], "must include all of the remaining edges")),
                    (8, 0, 4) => Some((two_slots[0], "must include all of the remaining edges")),
                    _ => None,
                };
                proof {
                    assert(v == self.forced_at(idx as int));
                }
                if v.is_some() {
                    return v;
                }
            } else {
                proof {
                    assert(self.forced_at(idx as int) is None);
                }
            }
            idx = idx + 1;
        }
        None
    }
    /// The solvability pre-check.  Two conditions: every island with unmet
    /// demand must still have a candidate edge, and no connected component
    /// of the placed-edge graph may be without candidates while islands
    /// remain outside it.  The contract pins the first condition exactly:
    /// `NodeCannotBeCompleted` comes back precisely when it fails.  The
    /// component walk behind `IsolatedComponent` is checked dynamically; a
    /// contract for it would need the component structure as a spec-level
    /// fixpoint, which this crate does not model.  What the walk protects —
    /// that a state with a sealed-off group is never reported solved — is
    /// proved independently as `laws::lemma_separated_cluster_never_solved`.
    pub fn solvable(&self) -> (r: Result<(), SolveError>)
        requires
            self.wf(),
        ensures
            (r == Result::<(), SolveError>::Err(SolveError::NodeCannotBeCompleted)) <==> (
            exists|i: int|
                0 <= i < self.board.nodes@.len() && self.spec_rem(i) > 0 && !self.has_candidate(
                    i,
                )),
            r is Ok || r == Result::<(), SolveError>::Err(SolveError::NodeCannotBeCompleted) || r
                == Result::<(), SolveError>::Err(SolveError::IsolatedComponent),
    {
        let n = self.board.nodes.len();
        let mut idx: usize = 0;
        while idx < n
            invariant
                idx <= n,
                self.wf(),
                n == self.board.nodes@.len(),
                forall|i: int| 0 <= i < idx && self.spec_rem(i) > 0 ==> self.has_candidate(i),
            decreases n - idx,
        {
            let is_complete = self.remaining(idx) == 0;
            if !is_complete {
                let avail = self.available_edges_for_node(idx);
                if avail.len() == 0 {
                    proof {
                        assert(self.spec_rem(idx as int) > 0);
                        assert(!self.has_candidate(idx as int));
                    }
                    return Result::Err(SolveError::NodeCannotBeCompleted);
                }
            }
            idx = idx + 1;
        }

        // walk each component of the placed-edge graph; a saturated
        // component that does not already span everything seals islands off
        let mut labels: Vec<usize> = Vec::new();
        let mut k: usize = 0;
        while k < n
            invariant
                k <= n,
                labels@.len() == k,
                forall|t: int| 0 <= t < k ==> (#[trigger] labels@[t]) == usize::MAX,
            decreases n - k,
        {
            labels.push(usize::MAX);
            k = k + 1;
        }

        let mut idx: usize = 0;
        while idx < n
            invariant
                idx <= n,
                self.wf(),
                n == self.board.nodes@.len(),
                labels@.len() == n,
                forall|i: int| 0 <= i < n && self.spec_rem(i) > 0 ==> self.has_candidate(i),
            decreases n - idx,
        {
            if labels[idx] == usize::MAX {
                let mut has_free_edges = false;
                let mut stk: Vec<usize> = Vec::new();
                stk.push(idx);
                proof {
                    lemma_count_unlabeled_nonneg(labels@, n as int);
                }
                while stk.len() > 0
                    invariant
                        self.wf(),
                        n == self.board.nodes@.len(),
                        labels@.len() == n,
                        idx < n,
                        forall|t: int| 0 <= t < stk@.len() ==> (#[trigger] stk@[t]) < n,
                    decreases count_unlabeled(labels@, n as int), stk@.len(),
                {
                    let nd = match stk.pop() {
                        Some(nd) => nd,
                        None => {
                            proof {
                                assert(false);
                            }
                            0
                        },
                    };
                    if labels[nd] == usize::MAX {
                        let ghost l0 = labels@;
                        labels[nd] = idx;
                        proof {
                            lemma_count_unlabeled_update(l0, labels@, nd as int, n as int);
                            lemma_count_unlabeled_nonneg(labels@, n as int);
                        }
                        let assigned = self.assigned_edges_for_node(nd);
                        let al = assigned.len();
                        let mut q: usize = 0;
                        while q < al
                            invariant
                                q <= al,
                                self.wf(),
                                n == self.board.nodes@.len(),
                                labels@.len() == n,
                                idx < n,
                                nd < n,
                                al == assigned@.len(),
                                forall|t: int|
                                    0 <= t < assigned@.len() ==> (#[trigger] assigned@[t])
                                        < self.edge_counts@.len(),
                                forall|t: int| 0 <= t < stk@.len() ==> (#[trigger] stk@[t]) < n,
                            decreases al - q,
                        {
                            let e = assigned[q];
                            let pair = self.edge_nodes[e];
                            if pair.0 == nd && labels[pair.1] == usize::MAX {
                                stk.push(pair.1);
                            }
                            if pair.1 == nd && labels[pair.0] == usize::MAX {
                                stk.push(pair.0);
                            }
                            q = q + 1;
                        }
                        let avail = self.available_edges_for_node(nd);
                        if avail.len() > 0 {
                            has_free_edges = true;
                        }
                    }
                }
                if !has_free_edges {
                    let mut all_zero = true;
                    let mut t: usize = 0;
                    while t < n
                        invariant
                            t <= n,
                            labels@.len() == n,
                        decreases n - t,
                    {
                        if labels[t] != 0 {
                            all_zero = false;
                        }
                        t = t + 1;
                    }
                    if !all_zero {
                        return Result::Err(SolveError::IsolatedComponent);
                    }
                }
            }
            idx = idx + 1;
        }

        Result::Ok(())
    }

    /// The search: forced moves first, speculative depth-first branching
    /// with a transposition table, bounded by a depth budget and a
    /// state-count budget.  On success the chosen edges and their
    /// justifications come back, in discovery order; on failure the
    /// multiplicities, satisfied counts and chosen sequence are exactly as
    /// they were.  The depth budget must leave room for one more level, so
    /// the machine's maximum is not a valid budget.
    pub fn solve(&mut self, max_depth: usize, max_visited: usize) -> (r: Result<
        (Vec<usize>, Vec<&'static str>),
        SolveError,
    >)
        requires
            old(self).wf(),
            max_depth < usize::MAX,
        ensures
            final(self).wf(),
            final(self).board == old(self).board,
            final(self).edge_nodes@ == old(self).edge_nodes@,
            final(self).edges_adjacent_to_node@ == old(self).edges_adjacent_to_node@,
            match r {
                Result::Ok(pr) => {
                    &&& pr.0@ == final(self).soln@
                    &&& pr.1@ == final(self).log@
                    &&& pr.0@.len() == pr.1@.len()
                    &&& spec_solved(*final(self))
                },
                Result::Err(_) => {
                    &&& final(self).soln@ == old(self).soln@
                    &&& final(self).log@ == old(self).log@
                    &&& final(self).edge_counts@ == old(self).edge_counts@
                    &&& final(self).node_counts@ == old(self).node_counts@
                    &&& final(self).depth == old(self).depth
                },
            },
            spec_solved(*old(self)) ==> r is Ok,
            r matches Err(e) ==> (e is NodeCannotBeCompleted || e is IsolatedComponent
                || e is DepthExceeded || e is SearchBudgetExceeded || e is Exhausted),
            (r matches Err(e) && e is DepthExceeded) <==> (!spec_solved(*old(self)) && old(
                self,
            ).depth > max_depth),
            (r matches Err(e) && e is SearchBudgetExceeded) ==> final(self).visited@.len()
                > max_visited,
            old(self).visited@.len() <= final(self).visited@.len(),
            forall|k: int|
                0 <= k < old(self).visited@.len() ==> final(self).visited@[k] == old(
                    self,
                ).visited@[k],
            log_justified(old(self).log@) ==> log_justified(final(self).log@),
            (max_visited == 0 && no_speculative(old(self).log@) && r is Ok) ==> no_speculative(
                final(self).log@,
            ),
    {
        let fuel = self.total_remaining();
        self.solve_rec(max_depth, max_visited, fuel)
    }

    /// The recursive worker behind [`Self::solve`].  `fuel` bounds the total
    /// unmet demand and shrinks with every placed bridge, which is what
    /// makes the recursion terminate.
    fn solve_rec(&mut self, max_depth: usize, max_visited: usize, fuel: usize) -> (r: Result<
        (Vec<usize>, Vec<&'static str>),
        SolveError,
    >)
        requires
            old(self).wf(),
            old(self).total_rem() <= fuel,
            max_depth < usize::MAX,
        ensures
            final(self).wf(),
            final(self).board == old(self).board,
            final(self).edge_nodes@ == old(self).edge_nodes@,
            final(self).edges_adjacent_to_node@ == old(self).edges_adjacent_to_node@,
            match r {
                Result::Ok(pr) => {
                    &&& pr.0@ == final(self).soln@
                    &&& pr.1@ == final(self).log@
                    &&& pr.0@.len() == pr.1@.len()
                    &&& spec_solved(*final(self))
                },
                Result::Err(_) => {
                    &&& final(self).soln@ == old(self).soln@
                    &&& final(self).log@ == old(self).log@
                    &&& final(self).edge_counts@ == old(self).edge_counts@
                    &&& final(self).node_counts@ == old(self).node_counts@
                    &&& final(self).depth == old(self).depth
                    &&& final(self).total_rem() == old(self).total_rem()
                },
            },
            spec_solved(*old(self)) ==> r is Ok,
            r matches Err(e) ==> (e is NodeCannotBeCompleted || e is IsolatedComponent
                || e is DepthExceeded || e is SearchBudgetExceeded || e is Exhausted),
            (r matches Err(e) && e is DepthExceeded) <==> (!spec_solved(*old(self)) && old(
                self,
            ).depth > max_depth),
            (r matches Err(e) && e is SearchBudgetExceeded) ==> final(self).visited@.len()
                > max_visited,
            old(self).visited@.len() <= final(self).visited@.len(),
            forall|k: int|
                0 <= k < old(self).visited@.len() ==> final(self).visited@[k] == old(
                    self,
                ).visited@[k],
            log_justified(old(self).log@) ==> log_justified(final(self).log@),
            (max_visited == 0 && no_speculative(old(self).log@) && r is Ok) ==> no_speculative(
                final(self).log@,
            ),
        decreases fuel,
    {
        if self.solved() {
            let s = self.snapshot_soln();
            let l = self.snapshot_log();
            return Result::Ok((s, l));
        }
        if self.depth > max_depth {
            return Result::Err(SolveError::DepthExceeded);
        }
        match self.solvable() {
            Result::Err(e) => {
                return Result::Err(e);
            },
            Result::Ok(()) => {},
        }

        // a forced move costs no depth and prunes the branching sharply
        match self.solve_fully_constrained() {
            Option::Some((idx, reason)) => {
                let ghost pre = *self;
                proof {
                    self.lemma_forced_scan_justified(0);
                    self.lemma_forced_scan_not_speculative(0);
                    assert(is_justification(reason));
                    assert(reason@ != "speculative"@);
                    assert(self.spec_avail(idx as int) > 0);
                }
                self.add_edge(idx, reason);
                proof {
                    crate::state::lemma_total_rem_nonneg(
                        self.board.nodes@,
                        self.node_counts@,
                        self.board.nodes@.len() as int,
                    );
                }
                let ghost mid = *self;
                proof {
                    if log_justified(old(self).log@) {
                        assert forall|k: int|
                            0 <= k < mid.log@.len() implies is_justification(
                            #[trigger] mid.log@[k],
                        ) by {
                            if k < pre.log@.len() {
                                assert(is_justification(pre.log@[k]));
                            }
                        }
                    }
                    if no_speculative(old(self).log@) {
                        assert forall|k: int|
                            0 <= k < mid.log@.len() implies (#[trigger] mid.log@[k])@
                            != "speculative"@ by {
                            if k < pre.log@.len() {
                                assert(pre.log@[k]@ != "speculative"@);
                            }
                        }
                    }
                }
                let ret = self.solve_rec(max_depth, max_visited, fuel - 1);
                proof {
                    assert forall|k: int|
                        0 <= k < old(self).visited@.len() implies self.visited@[k] == old(
                        self,
                    ).visited@[k] by {
                        assert(self.visited@[k] == mid.visited@[k]);
                    }
                }
                match ret {
                    Result::Ok(v) => {
                        return Result::Ok(v);
                    },
                    Result::Err(_) => {
                        self.remove_edge(idx);
                        proof {
                            let s1 = pre.soln@.push(idx);
                            let l1 = pre.log@.push(reason);
                            let kk = choose|kk: int|
                                0 <= kk < s1.len() && s1[kk] == idx && (forall|m: int|
                                    kk < m < s1.len() ==> s1[m] != idx) && self.soln@ == s1.remove(
                                    kk,
                                ) && self.log@ == l1.remove(kk);
                            assert(s1[s1.len() - 1] == idx);
                            assert(kk == s1.len() - 1);
                            assert(s1.remove(s1.len() - 1) =~= pre.soln@);
                            assert(l1.remove(l1.len() - 1) =~= pre.log@);
                            assert(self.edge_counts@ =~= pre.edge_counts@);
                            assert forall|i: int| 0 <= i < self.node_counts@.len() implies (
                            #[trigger] self.node_counts@[i]) == pre.node_counts@[i] by {}
                            assert(self.node_counts@ =~= pre.node_counts@);
                        }
                    },
                }
            },
            Option::None => {},
        }

        // record this state; too many distinct states ends the attempt
        let snap = self.snapshot_counts();
        let seen = visited_contains(&self.visited, &snap);
        if !seen {
            self.visited.push(snap);
        }
        if self.visited.len() > max_visited {
            return Result::Err(SolveError::SearchBudgetExceeded);
        }
        proof {
            // the table now holds this state's vector, so a zero state-count
            // budget never reaches the speculative loop
            if seen {
                let kk = choose|kk: int|
                    0 <= kk < self.visited@.len() && (#[trigger] self.visited@[kk])@ == snap@;
            }
            assert(self.visited@.len() >= 1);
            assert(max_visited >= 1);
        }

        // speculative branching over every candidate of an unmet island
        let next = self.find_next_edges();
        let ghost pre = *self;
        let nn = next.len();
        let mut k: usize = 0;
        while k < nn
            invariant
                self.wf(),
                k <= nn,
                nn == next@.len(),
                max_depth < usize::MAX,
                pre.wf(),
                self.board == pre.board,
                self.edge_nodes@ == pre.edge_nodes@,
                self.edges_adjacent_to_node@ == pre.edges_adjacent_to_node@,
                self.soln@ == pre.soln@,
                self.log@ == pre.log@,
                self.edge_counts@ == pre.edge_counts@,
                self.node_counts@ == pre.node_counts@,
                self.depth == pre.depth,
                pre.depth <= max_depth,
                pre.board == old(self).board,
                pre.edge_nodes@ == old(self).edge_nodes@,
                pre.edges_adjacent_to_node@ == old(self).edges_adjacent_to_node@,
                pre.soln@ == old(self).soln@,
                pre.log@ == old(self).log@,
                pre.edge_counts@ == old(self).edge_counts@,
                pre.node_counts@ == old(self).node_counts@,
                pre.depth == old(self).depth,
                pre.total_rem() == old(self).total_rem(),
                old(self).total_rem() <= fuel,
                max_visited >= 1,
                old(self).visited@.len() <= self.visited@.len(),
                forall|k2: int|
                    0 <= k2 < old(self).visited@.len() ==> self.visited@[k2] == old(
                        self,
                    ).visited@[k2],
                forall|t: int| 0 <= t < next@.len() ==> pre.viable(#[trigger] next@[t] as int),
            decreases nn - k,
        {
            let idx = next[k];
            proof {
                assert(pre.viable(idx as int));
                assert(self.viable(idx as int));
            }
            if !self.already_visited(idx) {
                let ghost before_add = *self;
                proof {
                    assert(self.spec_avail(idx as int) > 0);
                }
                self.add_edge(idx, "speculative");
                self.depth = self.depth + 1;
                let ghost mid = *self;
                proof {
                    crate::state::lemma_total_rem_nonneg(
                        self.board.nodes@,
                        self.node_counts@,
                        self.board.nodes@.len() as int,
                    );
                    if log_justified(old(self).log@) {
                        assert forall|k2: int|
                            0 <= k2 < mid.log@.len() implies is_justification(
                            #[trigger] mid.log@[k2],
                        ) by {
                            if k2 < before_add.log@.len() {
                                assert(is_justification(old(self).log@[k2]));
                            } else {
                                assert(mid.log@[k2]@ == "speculative"@);
                            }
                        }
                    }
                }
                let ret = self.solve_rec(max_depth, max_visited, fuel - 1);
                proof {
                    assert forall|k2: int|
                        0 <= k2 < old(self).visited@.len() implies self.visited@[k2] == old(
                        self,
                    ).visited@[k2] by {
                        assert(self.visited@[k2] == mid.visited@[k2]);
                    }
                }
                match ret {
                    Result::Ok(v) => {
                        return Result::Ok(v);
                    },
                    Result::Err(_) => {
                        self.remove_edge(idx);
                        self.depth = self.depth - 1;
                        proof {
                            let s1 = before_add.soln@.push(idx);
                            let l1 = before_add.log@.push("speculative");
                            let kk = choose|kk: int|
                                0 <= kk < s1.len() && s1[kk] == idx && (forall|m: int|
                                    kk < m < s1.len() ==> s1[m] != idx) && self.soln@ == s1.remove(
                                    kk,
                                ) && self.log@ == l1.remove(kk);
                            assert(s1[s1.len() - 1] == idx);
                            assert(kk == s1.len() - 1);
                            assert(s1.remove(s1.len() - 1) =~= before_add.soln@);
                            assert(l1.remove(l1.len() - 1) =~= before_add.log@);
                            assert(self.edge_counts@ =~= before_add.edge_counts@);
                            assert forall|i: int| 0 <= i < self.node_counts@.len() implies (
                            #[trigger] self.node_counts@[i]) == before_add.node_counts@[i] by {}
                            assert(self.node_counts@ =~= before_add.node_counts@);
                        }
                    },
                }
            }
            k = k + 1;
        }

        Result::Err(SolveError::Exhausted)
    }
}

/// How many islands the component walk has not labelled yet.
pub open spec fn count_unlabeled(labels: Seq<usize>, k: int) -> int
    decreases k,
{
    if k <= 0 {
        0
    } else {
        count_unlabeled(labels, k - 1) + if labels[k - 1] == usize::MAX {
            1int
        } else {
            0int
        }
    }
}

/// The count of unlabelled islands is never negative.
pub proof fn lemma_count_unlabeled_nonneg(labels: Seq<usize>, k: int)
    ensures
        count_unlabeled(labels, k) >= 0,
    decreases k,
{
    if k > 0 {
        lemma_count_unlabeled_nonneg(labels, k - 1);
    }
}

/// Labelling one island lowers the count of unlabelled islands by one.
pub proof fn lemma_count_unlabeled_update(l1: Seq<usize>, l2: Seq<usize>, t: int, k: int)
    requires
        l1.len() == l2.len(),
        0 <= t < l1.len(),
        k <= l1.len(),
        l1[t] == usize::MAX,
        l2[t] != usize::MAX,
        forall|i: int| 0 <= i < l1.len() && i != t ==> l1[i] == l2[i],
    ensures
        count_unlabeled(l2, k) == count_unlabeled(l1, k) - if t < k {
            1int
        } else {
            0int
        },
    decreases k,
{
    if k > 0 {
        lemma_count_unlabeled_update(l1, l2, t, k - 1);
    }
}

} // verus!
