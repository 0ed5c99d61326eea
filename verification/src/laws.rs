//! The library's stated laws, proved once and for all over the solver's
//! invariants.

use vstd::prelude::*;

verus! {

use crate::board::Board;
use crate::render::spec_render;
use crate::solver::djs_upto;
use crate::solver::spec_complete;
use crate::solver::spec_solved;
use crate::state::sum_incident_upto;
use crate::state::SolveState;
use vstd::set::Set;

/// Law: in every well-formed search state — so at every point during and
/// after a search — each island's satisfied count equals the sum of the
/// multiplicities of its incident edges.  The two views never drift.
pub proof fn lemma_counts_match_incident_sums(s: SolveState, i: int)
    requires
        s.wf(),
        0 <= i < s.node_counts@.len(),
    ensures
        s.node_counts@[i] as int == sum_incident_upto(
            s.edge_nodes@,
            s.edge_counts@,
            i,
            s.edge_counts@.len() as int,
        ),
{
}

/// Law: an edge can carry two bridges only while every edge crossing it
/// carries none.  More strongly, an edge carrying any bridge keeps all its
/// crossing edges empty.
pub proof fn lemma_placed_edge_keeps_crossings_empty(s: SolveState, e: int, j: int)
    requires
        s.wf(),
        0 <= e < s.edge_counts@.len(),
        !(s.edge_counts@[e] is Zero),
        s.board.spec_cross(e, j),
    ensures
        s.edge_counts@[j] is Zero,
{
}

/// Law: the crossing relation is symmetric and irreflexive, so each
/// crossing pair appears in both edges' crossing lists and no edge crosses
/// itself.
pub proof fn lemma_crossing_symmetric(b: Board, e: int, j: int)
    ensures
        b.spec_cross(e, j) == b.spec_cross(j, e),
        !b.spec_cross(e, e),
{
}

/// Law: rendering is a function of the board and the chosen-edge prefix
/// alone, so rendering the same prefix twice yields the identical text.
pub proof fn lemma_render_deterministic(b: Board, soln: Seq<usize>, r1: Seq<char>, r2: Seq<char>)
    requires
        r1 == spec_render(b, soln),
        r2 == spec_render(b, soln),
    ensures
        r1 == r2,
{
}

/// Law: on a solved board the sum of each island's incident placed-edge
/// multiplicities equals exactly its required count, for every island.
pub proof fn lemma_solved_meets_demands(s: SolveState, i: int)
    requires
        s.wf(),
        spec_complete(s),
        0 <= i < s.node_counts@.len(),
    ensures
        sum_incident_upto(s.edge_nodes@, s.edge_counts@, i, s.edge_counts@.len() as int)
            == s.board.nodes@[i].n,
{
    assert(s.spec_rem(i) == 0);
    assert(s.node_counts@[i] == s.board.nodes@[i].n);
}

/// The disjoint-set pass never relabels an island across a cut that no
/// placed edge crosses: labels keep to their own side, and stay in range.
proof fn lemma_djs_side(
    en: Seq<(usize, usize)>,
    cnts: Seq<NumEdges>,
    n: int,
    e: int,
    side: Set<int>,
)
    requires
        0 <= n <= usize::MAX,
        en.len() == cnts.len(),
        e <= en.len(),
        forall|k: int| 0 <= k < en.len() ==> (#[trigger] en[k]).0 < n && en[k].1 < n,
        forall|k: int|
            0 <= k < cnts.len() && !((#[trigger] cnts[k]) is Zero) ==> (side.contains(
                en[k].0 as int,
            ) <==> side.contains(en[k].1 as int)),
    ensures
        djs_upto(en, cnts, n, e).len() == n,
        forall|k: int| 0 <= k < n ==> 0 <= (#[trigger] djs_upto(en, cnts, n, e)[k]) < n,
        forall|k: int|
            0 <= k < n ==> (side.contains(k) <==> side.contains(
                (#[trigger] djs_upto(en, cnts, n, e)[k]) as int,
            )),
    decreases e,
{
    if e <= 0 {
        assert forall|k: int| 0 <= k < n implies 0 <= (#[trigger] djs_upto(en, cnts, n, e)[k]) < n
            && (side.contains(k) <==> side.contains(djs_upto(en, cnts, n, e)[k] as int)) by {
            assert(djs_upto(en, cnts, n, e)[k] == k as usize);
        }
    } else {
        lemma_djs_side(en, cnts, n, e - 1, side);
        let prev = djs_upto(en, cnts, n, e - 1);
        let cur = djs_upto(en, cnts, n, e);
        if cnts[e - 1] is Zero {
        } else {
            let a = en[e - 1].0 as int;
            let b = en[e - 1].1 as int;
            let d1 = prev[a];
            let d2 = prev[b];
            assert(side.contains(a) <==> side.contains(d1 as int));
            assert(side.contains(b) <==> side.contains(d2 as int));
            assert(side.contains(a) <==> side.contains(b));
            let mn = if d1 <= d2 {
                d1
            } else {
                d2
            };
            let mx = if d1 <= d2 {
                d2
            } else {
                d1
            };
            if mn == mx {
            } else {
                assert(side.contains(mn as int) <==> side.contains(mx as int));
                assert forall|k: int| 0 <= k < n implies 0 <= (#[trigger] cur[k]) < n && (
                side.contains(k) <==> side.contains(cur[k] as int)) by {
                    assert(prev[k] == mx || cur[k] == prev[k] || cur[k] == mn);
                    if prev[k] == mx {
                        assert(cur[k] == mn);
                        assert(side.contains(k) <==> side.contains(mx as int));
                    } else {
                        assert(cur[k] == prev[k]);
                    }
                }
            }
        }
    }
}

use crate::bridges::NumEdges;

/// Law: a board is reported solved only when the placed edges connect all
/// islands.  If some set of islands containing island zero is never left by
/// any placed edge, while another island lies outside that set, the state
/// is not solved: the union-find pass cannot merge the outsider's label to
/// zero.  In particular two disjoint fully-satisfied clusters are never
/// reported solved.
pub proof fn lemma_separated_cluster_never_solved(s: SolveState, side: Set<int>, outside: int)
    requires
        s.wf(),
        side.contains(0),
        0 <= outside < s.board.nodes@.len(),
        !side.contains(outside),
        forall|e: int|
            0 <= e < s.edge_counts@.len() && !((#[trigger] s.edge_counts@[e]) is Zero) ==> (
            side.contains(s.edge_nodes@[e].0 as int) <==> side.contains(
                s.edge_nodes@[e].1 as int,
            )),
    ensures
        !spec_solved(s),
{
    let n = s.board.nodes@.len() as int;
    let m = s.edge_counts@.len() as int;
    lemma_djs_side(s.edge_nodes@, s.edge_counts@, n, m, side);
    let labels = djs_upto(s.edge_nodes@, s.edge_counts@, n, m);
    assert(side.contains(outside) <==> side.contains(labels[outside] as int));
    if spec_solved(s) {
        assert(labels[outside] == 0);
        assert(side.contains(0));
        assert(false);
    }
}

} // verus!
