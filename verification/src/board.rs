//! The immutable board model: islands, the derived candidate-edge set, and
//! the precomputed crossing relation between edges.

use vstd::prelude::*;

verus! {

use crate::errors::SolveError;
use crate::geometry::Edge;

/// An island: a required bridge count and a grid position `(x, y)`.
#[derive(Debug, Copy, Clone)]
pub struct Node {
    pub n: u8,
    pub pos: (usize, usize),
}

/// The sort key used while deriving edges: the x coordinate for the
/// horizontal scan, the y coordinate for the vertical scan.
pub open spec fn node_key(nd: Node, by_y: bool) -> usize {
    if by_y {
        nd.pos.1
    } else {
        nd.pos.0
    }
}

/// Non-decreasing in the chosen coordinate.
pub open spec fn sorted_nodes(s: Seq<Node>, by_y: bool) -> bool {
    forall|a: int, b: int|
        0 <= a < b < s.len() ==> node_key(#[trigger] s[a], by_y) <= node_key(#[trigger] s[b], by_y)
}

/// Some island sits at position `p`.
pub open spec fn seq_has_node_at(s: Seq<Node>, p: (usize, usize)) -> bool {
    exists|i: int| 0 <= i < s.len() && (#[trigger] s[i]).pos == p
}

/// No two islands share a position.
pub open spec fn positions_distinct(s: Seq<Node>) -> bool {
    forall|a: int, b: int|
        0 <= a < b < s.len() ==> (#[trigger] s[a]).pos != (#[trigger] s[b]).pos
}

/// Required counts are single digits and coordinates stay well inside the
/// machine's range, so that grid and budget arithmetic cannot overflow.
pub open spec fn nodes_bounded(s: Seq<Node>) -> bool {
    forall|i: int|
        0 <= i < s.len() ==> (#[trigger] s[i]).n <= 9 && s[i].pos.0 < 0x1000_0000 && s[i].pos.1
            < 0x1000_0000
}

/// Whether edges `e` and `j` of `edges` cross.  The segment test is
/// symmetric, so the relation is too.
pub open spec fn edges_cross(edges: Seq<Edge>, e: int, j: int) -> bool {
    &&& 0 <= e < edges.len()
    &&& 0 <= j < edges.len()
    &&& e != j
    &&& edges[e].spec_intersects(edges[j])
}

/// The board model: islands, candidate edges, and for each edge the list of
/// edges it crosses.
#[derive(Debug, Clone)]
pub struct Board {
    pub nodes: Vec<Node>,
    pub edges: Vec<Edge>,
    pub edge_intersections: Vec<Vec<usize>>,
}

impl Board {
    /// Whether edges `e` and `j` cross.
    pub open spec fn spec_cross(self, e: int, j: int) -> bool {
        edges_cross(self.edges@, e, j)
    }

    /// Well-formedness of a constructed board: islands are distinct and
    /// bounded, every edge spans a real interval between two island
    /// positions, and the crossing lists are sound and complete for the
    /// crossing relation.
    pub open spec fn wf(self) -> bool {
        &&& self.nodes@.len() <= 0x1000_0000
        &&& self.edges@.len() <= 0x2000_0000
        &&& positions_distinct(self.nodes@)
        &&& nodes_bounded(self.nodes@)
        &&& forall|e: int| 0 <= e < self.edges@.len() ==> (#[trigger] self.edges@[e]).spec_wf()
        &&& forall|e: int|
            0 <= e < self.edges@.len() ==> seq_has_node_at(
                self.nodes@,
                (#[trigger] self.edges@[e]).spec_p1(),
            )
        &&& forall|e: int|
            0 <= e < self.edges@.len() ==> seq_has_node_at(
                self.nodes@,
                (#[trigger] self.edges@[e]).spec_p2(),
            )
        &&& forall|e: int|
            0 <= e < self.edges@.len() ==> (#[trigger] self.edges@[e]).spec_hi() < 0x1000_0000
        &&& self.edge_intersections@.len() == self.edges@.len()
        &&& forall|e: int, k: int|
            0 <= e < self.edge_intersections@.len() && 0 <= k < (
            #[trigger] self.edge_intersections@[e])@.len() ==> self.spec_cross(
                e,
                #[trigger] self.edge_intersections@[e]@[k] as int,
            )
        &&& forall|e: int, j: int|
            #[trigger] self.spec_cross(e, j) ==> self.edge_intersections@[e]@.contains(j as usize)
    }
}

/// The stable insertion of one island into a key-sorted list: it lands
/// after every island whose key is at or below its own.
pub open spec fn insert_sorted(s: Seq<Node>, x: Node, by_y: bool) -> Seq<Node>
    decreases s.len(),
{
    if s.len() == 0 {
        seq![x]
    } else if node_key(x, by_y) < node_key(s.last(), by_y) {
        insert_sorted(s.drop_last(), x, by_y).push(s.last())
    } else {
        s.push(x)
    }
}

/// The stable sort of the islands by one coordinate: islands with equal
/// keys keep their relative order.
pub open spec fn sort_spec(s: Seq<Node>, by_y: bool) -> Seq<Node>
    decreases s.len(),
{
    if s.len() == 0 {
        Seq::empty()
    } else {
        insert_sorted(sort_spec(s.drop_last(), by_y), s.last(), by_y)
    }
}

/// Inserting at the first position from the end whose predecessor's key is
/// at or below the new key is exactly the stable insertion.
proof fn lemma_insert_sorted_at(s: Seq<Node>, x: Node, by_y: bool, p: int)
    requires
        0 <= p <= s.len(),
        forall|a: int| p <= a < s.len() ==> node_key(#[trigger] s[a], by_y) > node_key(x, by_y),
        p > 0 ==> node_key(s[p - 1], by_y) <= node_key(x, by_y),
    ensures
        insert_sorted(s, x, by_y) == s.insert(p, x),
    decreases s.len(),
{
    if p == s.len() {
        if s.len() == 0 {
            assert(insert_sorted(s, x, by_y) =~= s.insert(p, x));
        } else {
            assert(node_key(x, by_y) >= node_key(s.last(), by_y));
            assert(s.push(x) =~= s.insert(p, x));
        }
    } else {
        assert(node_key(s.last(), by_y) > node_key(x, by_y));
        lemma_insert_sorted_at(s.drop_last(), x, by_y, p);
        assert(insert_sorted(s, x, by_y) == insert_sorted(s.drop_last(), x, by_y).push(s.last()));
        assert(s.drop_last().insert(p, x).push(s.last()) =~= s.insert(p, x));
    }
}

/// The sort key, executably.
fn key_of(nd: Node, by_y: bool) -> (r: usize)
    ensures
        r == node_key(nd, by_y),
{
    if by_y {
        nd.pos.1
    } else {
        nd.pos.0
    }
}

/// Stable insertion sort of islands by one coordinate.  Each island is
/// inserted after every island with a key less than or equal to its own, so
/// islands with equal keys keep their relative order.
fn sort_nodes(nodes: &Vec<Node>, by_y: bool) -> (r: Vec<Node>)
    ensures
        r@ == sort_spec(nodes@, by_y),
        r@.to_multiset() == nodes@.to_multiset(),
        r@.len() == nodes@.len(),
        sorted_nodes(r@, by_y),
{
    let mut out: Vec<Node> = Vec::new();
    let mut k: usize = 0;
    proof {
        broadcast use vstd::seq_lib::group_to_multiset_ensures;

        assert(nodes@.take(0) =~= Seq::<Node>::empty());
        assert(out@.to_multiset() =~= nodes@.take(0).to_multiset());
    }
    while k < nodes.len()
        invariant
            k <= nodes@.len(),
            out@.len() == k,
            out@ == sort_spec(nodes@.take(k as int), by_y),
            out@.to_multiset() == nodes@.take(k as int).to_multiset(),
            sorted_nodes(out@, by_y),
        decreases nodes@.len() - k,
    {
        let x = nodes[k];
        let mut p: usize = out.len();
        while p > 0 && key_of(out[p - 1], by_y) > key_of(x, by_y)
            invariant
                p <= out@.len(),
                sorted_nodes(out@, by_y),
                forall|a: int|
                    p <= a < out@.len() ==> node_key(#[trigger] out@[a], by_y) > node_key(x, by_y),
            decreases p,
        {
            p = p - 1;
        }
        let ghost old_out = out@;
        out.insert(p, x);
        proof {
            broadcast use vstd::seq_lib::group_to_multiset_ensures;
            broadcast use vstd::seq_lib::to_multiset_insert;

            old_out.insert_ensures(p as int, x);
            lemma_insert_sorted_at(old_out, x, by_y, p as int);
            assert(nodes@.take(k as int + 1) =~= nodes@.take(k as int).push(nodes@[k as int]));
            assert(nodes@.take(k as int + 1).drop_last() =~= nodes@.take(k as int));
            assert(out@ == insert_sorted(old_out, x, by_y));
            assert(out@ == sort_spec(nodes@.take(k as int + 1), by_y));
            assert forall|a: int, b: int| 0 <= a < b < out@.len() implies node_key(
                #[trigger] out@[a],
                by_y,
            ) <= node_key(#[trigger] out@[b], by_y) by {
                if b < p {
                } else if a < p && b == p {
                    assert(out@[a] == old_out[a]);
                    if p > 0 {
                        assert(node_key(old_out[a], by_y) <= node_key(old_out[p - 1], by_y));
                    }
                } else if a < p && b > p {
                    assert(out@[b] == old_out[b - 1]);
                } else if a == p {
                    assert(out@[b] == old_out[b - 1]);
                    assert(node_key(old_out[b - 1], by_y) > node_key(x, by_y));
                } else {
                    assert(out@[a] == old_out[a - 1]);
                    assert(out@[b] == old_out[b - 1]);
                }
            }
        }
        k = k + 1;
    }
    proof {
        assert(nodes@.take(nodes@.len() as int) =~= nodes@);
        assert(out@ == sort_spec(nodes@, by_y));
    }
    out
}

/// The first island at or after position `j` in the scan list that shares
/// island `i`'s row and lies more than one unit to its right.
pub open spec fn h_partner_spec(s: Seq<Node>, i: int, j: int) -> Option<int>
    decreases s.len() - j,
{
    if j < 0 || j >= s.len() {
        Option::None
    } else if s[j].pos.1 == s[i].pos.1 && s[j].pos.0 > s[i].pos.0 + 1 {
        Option::Some(j)
    } else {
        h_partner_spec(s, i, j + 1)
    }
}

/// The first island at or after position `j` in the scan list that shares
/// island `i`'s column and lies more than one unit below it.
pub open spec fn v_partner_spec(s: Seq<Node>, i: int, j: int) -> Option<int>
    decreases s.len() - j,
{
    if j < 0 || j >= s.len() {
        Option::None
    } else if s[j].pos.0 == s[i].pos.0 && s[j].pos.1 > s[i].pos.1 + 1 {
        Option::Some(j)
    } else {
        v_partner_spec(s, i, j + 1)
    }
}

/// The horizontal edges the row scan derives from the first `i` islands of
/// the x-sorted list: each island's edge to its scan partner, if it has
/// one.  Islands at unit separation are skipped without ending the scan, so
/// in rare layouts a derived edge can span a third island with room on both
/// sides; that behaviour is deliberate and kept as it is.
pub open spec fn h_edges_upto(s: Seq<Node>, i: int) -> Seq<Edge>
    decreases i,
{
    if i <= 0 {
        Seq::empty()
    } else {
        let prev = h_edges_upto(s, i - 1);
        match h_partner_spec(s, i - 1, i) {
            Option::Some(j) => prev.push(
                Edge::H { y: s[i - 1].pos.1, x_range: (s[i - 1].pos.0, s[j].pos.0) },
            ),
            Option::None => prev,
        }
    }
}

/// The vertical edges the column scan derives from the first `i` islands
/// of the y-sorted list.
pub open spec fn v_edges_upto(s: Seq<Node>, i: int) -> Seq<Edge>
    decreases i,
{
    if i <= 0 {
        Seq::empty()
    } else {
        let prev = v_edges_upto(s, i - 1);
        match v_partner_spec(s, i - 1, i) {
            Option::Some(j) => prev.push(
                Edge::V { x: s[i - 1].pos.0, y_range: (s[i - 1].pos.1, s[j].pos.1) },
            ),
            Option::None => prev,
        }
    }
}

/// The islands of a constructed board: the input islands, sorted stably by
/// x and again by y.
pub open spec fn board_nodes_of(input: Seq<Node>) -> Seq<Node> {
    sort_spec(sort_spec(input, false), true)
}

/// The candidate edges of a constructed board: the row scan over the
/// x-sorted islands, followed by the column scan over the y-sorted ones.
pub open spec fn board_edges_of(input: Seq<Node>) -> Seq<Edge> {
    h_edges_upto(sort_spec(input, false), input.len() as int) + v_edges_upto(
        board_nodes_of(input),
        input.len() as int,
    )
}

/// The indices among the first `j` edges that cross edge `e`, ascending.
pub open spec fn cross_row_upto(edges: Seq<Edge>, e: int, j: int) -> Seq<usize>
    decreases j,
{
    if j <= 0 {
        Seq::empty()
    } else {
        let prev = cross_row_upto(edges, e, j - 1);
        if edges_cross(edges, e, j - 1) {
            prev.push((j - 1) as usize)
        } else {
            prev
        }
    }
}

/// The horizontal scan partner of island `i` in an x-sorted island list.
fn h_partner(nodes: &Vec<Node>, i: usize) -> (r: Option<usize>)
    requires
        i < nodes@.len(),
        sorted_nodes(nodes@, false),
    ensures
        match r {
            Option::Some(j) => h_partner_spec(nodes@, i as int, i as int + 1)
                == Option::Some(j as int) && i < j < nodes@.len() && nodes@[j as int].pos.1
                == nodes@[i as int].pos.1 && nodes@[j as int].pos.0 > nodes@[i as int].pos.0 + 1,
            Option::None => h_partner_spec(nodes@, i as int, i as int + 1) is None,
        },
{
    let n = nodes.len();
    let mut j: usize = i + 1;
    while j < n
        invariant
            n == nodes@.len(),
            i < j <= nodes@.len(),
            i < nodes@.len(),
            sorted_nodes(nodes@, false),
            h_partner_spec(nodes@, i as int, i as int + 1) == h_partner_spec(
                nodes@,
                i as int,
                j as int,
            ),
        decreases nodes@.len() - j,
    {
        if nodes[j].pos.1 == nodes[i].pos.1 && nodes[j].pos.0 - nodes[i].pos.0 > 1 {
            return Some(j);
        }
        j = j + 1;
    }
    None
}

/// The vertical scan partner of island `i` in a y-sorted island list.
fn v_partner(nodes: &Vec<Node>, i: usize) -> (r: Option<usize>)
    requires
        i < nodes@.len(),
        sorted_nodes(nodes@, true),
    ensures
        match r {
            Option::Some(j) => v_partner_spec(nodes@, i as int, i as int + 1)
                == Option::Some(j as int) && i < j < nodes@.len() && nodes@[j as int].pos.0
                == nodes@[i as int].pos.0 && nodes@[j as int].pos.1 > nodes@[i as int].pos.1 + 1,
            Option::None => v_partner_spec(nodes@, i as int, i as int + 1) is None,
        },
{
    let n = nodes.len();
    let mut j: usize = i + 1;
    while j < n
        invariant
            n == nodes@.len(),
            i < j <= nodes@.len(),
            i < nodes@.len(),
            sorted_nodes(nodes@, true),
            v_partner_spec(nodes@, i as int, i as int + 1) == v_partner_spec(
                nodes@,
                i as int,
                j as int,
            ),
        decreases nodes@.len() - j,
    {
        if nodes[j].pos.0 == nodes[i].pos.0 && nodes[j].pos.1 - nodes[i].pos.1 > 1 {
            return Some(j);
        }
        j = j + 1;
    }
    None
}

impl Board {
    /// Builds the board model from a list of islands: derives the candidate
    /// edges by the row and column scans, and precomputes the crossing
    /// relation over all edge pairs.
    #[verifier::loop_isolation(false)]
    pub fn new(nodes: Vec<Node>) -> (r: Board)
        requires
            nodes@.len() <= 0x1000_0000,
            positions_distinct(nodes@),
            nodes_bounded(nodes@),
        ensures
            r.wf(),
            r.nodes@ == board_nodes_of(nodes@),
            r.edges@ == board_edges_of(nodes@),
            forall|e: int|
                0 <= e < r.edges@.len() ==> (#[trigger] r.edge_intersections@[e])@
                    == cross_row_upto(r.edges@, e, r.edges@.len() as int),
            r.nodes@.to_multiset() == nodes@.to_multiset(),
            r.nodes@.len() == nodes@.len(),
            sorted_nodes(r.nodes@, true),
    {
        let n = nodes.len();
        let mut edges: Vec<Edge> = Vec::new();

        // horizontal edges, scanning islands sorted by x
        let sx = sort_nodes(&nodes, false);
        proof {
            lemma_bounds_transfer(nodes@, sx@);
        }
        let mut i: usize = 0;
        while i < n
            invariant
                i <= n,
                n == nodes@.len(),
                sx@.len() == n,
                sorted_nodes(sx@, false),
                nodes_bounded(sx@),
                edges@.len() <= i,
                edges@ == h_edges_upto(sx@, i as int),
                forall|e: int|
                    0 <= e < edges@.len() ==> (#[trigger] edges@[e]).spec_wf() && seq_has_node_at(
                        sx@,
                        edges@[e].spec_p1(),
                    ) && seq_has_node_at(sx@, edges@[e].spec_p2()) && edges@[e].spec_hi()
                        < 0x1000_0000,
            decreases n - i,
        {
            match h_partner(&sx, i) {
                Option::Some(j) => {
                    let e = Edge::H {
                        y: sx[i].pos.1,
                        x_range: (sx[i].pos.0, sx[j].pos.0),
                    };
                    proof {
                        assert(seq_has_node_at(sx@, e.spec_p1()));
                        assert(seq_has_node_at(sx@, e.spec_p2()));
                    }
                    edges.push(e);
                    proof {
                        assert(edges@ =~= h_edges_upto(sx@, i as int + 1));
                    }
                },
                Option::None => {
                    proof {
                        assert(edges@ =~= h_edges_upto(sx@, i as int + 1));
                    }
                },
            }
            i = i + 1;
        }

        // vertical edges, scanning islands sorted by y
        let sy = sort_nodes(&sx, true);
        proof {
            lemma_bounds_transfer(sx@, sy@);
            assert forall|e: int| 0 <= e < edges@.len() implies seq_has_node_at(
                sy@,
                (#[trigger] edges@[e]).spec_p1(),
            ) && seq_has_node_at(sy@, edges@[e].spec_p2()) by {
                lemma_has_node_at_transfer(sx@, sy@, edges@[e].spec_p1());
                lemma_has_node_at_transfer(sx@, sy@, edges@[e].spec_p2());
            }
        }
        let ghost h_count = edges@.len();
        let mut i: usize = 0;
        while i < n
            invariant
                i <= n,
                n == nodes@.len(),
                sy@.len() == n,
                sorted_nodes(sy@, true),
                nodes_bounded(sy@),
                edges@.len() <= h_count + i,
                h_count <= n,
                edges@ == h_edges_upto(sx@, n as int) + v_edges_upto(sy@, i as int),
                sx@.len() == n,
                forall|e: int|
                    0 <= e < edges@.len() ==> (#[trigger] edges@[e]).spec_wf() && seq_has_node_at(
                        sy@,
                        edges@[e].spec_p1(),
                    ) && seq_has_node_at(sy@, edges@[e].spec_p2()) && edges@[e].spec_hi()
                        < 0x1000_0000,
            decreases n - i,
        {
            match v_partner(&sy, i) {
                Option::Some(j) => {
                    let e = Edge::V {
                        x: sy[i].pos.0,
                        y_range: (sy[i].pos.1, sy[j].pos.1),
                    };
                    proof {
                        assert(seq_has_node_at(sy@, e.spec_p1()));
                        assert(seq_has_node_at(sy@, e.spec_p2()));
                    }
                    edges.push(e);
                    proof {
                        assert(edges@ =~= h_edges_upto(sx@, n as int) + v_edges_upto(
                            sy@,
                            i as int + 1,
                        ));
                    }
                },
                Option::None => {
                    proof {
                        assert(edges@ =~= h_edges_upto(sx@, n as int) + v_edges_upto(
                            sy@,
                            i as int + 1,
                        ));
                    }
                },
            }
            i = i + 1;
        }

        // the crossing relation, one list per edge
        let m = edges.len();
        let mut inter: Vec<Vec<usize>> = Vec::new();
        let mut e: usize = 0;
        while e < m
            invariant
                e <= m,
                m == edges@.len(),
                m <= 0x2000_0000,
                inter@.len() == e,
                forall|a: int| 0 <= a < edges@.len() ==> (#[trigger] edges@[a]).spec_wf(),
                forall|a: int, k: int|
                    0 <= a < e && 0 <= k < (#[trigger] inter@[a])@.len() ==> edges_cross(
                        edges@,
                        a,
                        #[trigger] inter@[a]@[k] as int,
                    ),
                forall|a: int, j: int|
                    0 <= a < e && #[trigger] edges_cross(edges@, a, j) ==> inter@[a]@.contains(
                        j as usize,
                    ),
                forall|a: int|
                    0 <= a < e ==> (#[trigger] inter@[a])@ == cross_row_upto(edges@, a, m as int),
            decreases m - e,
        {
            let mut row: Vec<usize> = Vec::new();
            let mut j: usize = 0;
            while j < m
                invariant
                    j <= m,
                    e < m,
                    m == edges@.len(),
                    forall|a: int| 0 <= a < edges@.len() ==> (#[trigger] edges@[a]).spec_wf(),
                    forall|k: int|
                        0 <= k < row@.len() ==> edges_cross(edges@, e as int, #[trigger] row@[k] as int),
                    forall|jj: int|
                        0 <= jj < j && edges_cross(edges@, e as int, jj) ==> row@.contains(
                            jj as usize,
                        ),
                    row@ == cross_row_upto(edges@, e as int, j as int),
                decreases m - j,
            {
                if j != e {
                    let crossing = edges[e].intersects(edges[j]);
                    if crossing {
                        let ghost old_row = row@;
                        row.push(j);
                        proof {
                            assert forall|jj: int|
                                0 <= jj <= j as int && edges_cross(
                                    edges@,
                                    e as int,
                                    jj,
                                ) implies row@.contains(jj as usize) by {
                                if jj == j as int {
                                    assert(row@[row@.len() - 1] == j);
                                } else {
                                    assert(old_row.contains(jj as usize));
                                    let k = choose|k: int|
                                        0 <= k < old_row.len() && old_row[k] == jj as usize;
                                    assert(row@[k] == jj as usize);
                                }
                            }
                        }
                    }
                }
                proof {
                    assert(row@ =~= cross_row_upto(edges@, e as int, j as int + 1));
                }
                j = j + 1;
            }
            inter.push(row);
            e = e + 1;
        }

        let r = Board { nodes: sy, edges, edge_intersections: inter };
        proof {
            lemma_bounds_transfer(sx@, r.nodes@);
            lemma_positions_distinct_transfer(nodes@, sx@);
            lemma_positions_distinct_transfer(sx@, r.nodes@);
            assert(r.nodes@.to_multiset() == nodes@.to_multiset());
        }
        r
    }
}

/// A digit character, `'0'` through `'9'`.
pub open spec fn is_digit_char(c: char) -> bool {
    48 <= (c as u32) <= 57
}

/// The island count a digit character denotes.
pub open spec fn spec_digit_val(c: char) -> u8 {
    ((c as u32) - 48) as u8
}

/// The characters a board text may hold: digits, blanks and line breaks.
pub open spec fn valid_char(c: char) -> bool {
    c == ' ' || c == '\n' || is_digit_char(c)
}

/// The column of the scan after reading the first `i` characters.
pub open spec fn scan_x(s: Seq<char>, i: int) -> int
    decreases i,
{
    if i <= 0 {
        0
    } else if s[i - 1] == '\n' {
        0
    } else {
        scan_x(s, i - 1) + 1
    }
}

/// The row of the scan after reading the first `i` characters.
pub open spec fn scan_y(s: Seq<char>, i: int) -> int
    decreases i,
{
    if i <= 0 {
        0
    } else if s[i - 1] == '\n' {
        scan_y(s, i - 1) + 1
    } else {
        scan_y(s, i - 1)
    }
}

/// The islands the first `i` characters of a board text denote, in reading
/// order: every digit becomes an island at its column and row.
pub open spec fn text_nodes(s: Seq<char>, i: int) -> Seq<Node>
    decreases i,
{
    if i <= 0 {
        Seq::empty()
    } else {
        let prev = text_nodes(s, i - 1);
        if is_digit_char(s[i - 1]) {
            prev.push(
                Node {
                    n: spec_digit_val(s[i - 1]),
                    pos: (scan_x(s, i - 1) as usize, scan_y(s, i - 1) as usize),
                },
            )
        } else {
            prev
        }
    }
}

/// Strictly earlier in reading order: a smaller row, or the same row and a
/// smaller column.
pub open spec fn lex_lt(p: (usize, usize), q: (usize, usize)) -> bool {
    p.1 < q.1 || (p.1 == q.1 && p.0 < q.0)
}

impl Board {
    /// Parses a rectangular block of text: digits become islands with that
    /// required count, blanks are empty cells, and any other character fails
    /// with `InvalidCharacter` naming the first offending character.  The
    /// length bound keeps island coordinates well inside the machine's
    /// range.
    #[verifier::loop_isolation(false)]
    pub fn parse(s: &str) -> (r: Result<Board, SolveError>)
        requires
            s@.len() <= 0x0800_0000,
        ensures
            match r {
                Result::Ok(b) => {
                    &&& b.wf()
                    &&& forall|k: int| 0 <= k < s@.len() ==> valid_char(#[trigger] s@[k])
                    &&& b.nodes@ == board_nodes_of(text_nodes(s@, s@.len() as int))
                    &&& b.edges@ == board_edges_of(text_nodes(s@, s@.len() as int))
                    &&& b.nodes@.to_multiset() == text_nodes(s@, s@.len() as int).to_multiset()
                    &&& b.nodes@.len() == text_nodes(s@, s@.len() as int).len()
                    &&& sorted_nodes(b.nodes@, true)
                },
                Result::Err(e) => exists|i: int|
                    0 <= i < s@.len() && !valid_char(#[trigger] s@[i]) && e
                        == SolveError::InvalidCharacter(s@[i]) && (forall|k: int|
                        0 <= k < i ==> valid_char(#[trigger] s@[k])),
            },
    {
        let cs = chars_of(s);
        let len = cs.len();
        let mut nodes: Vec<Node> = Vec::new();
        let mut x: usize = 0;
        let mut y: usize = 0;
        let mut i: usize = 0;
        while i < len
            invariant
                i <= len,
                x == scan_x(cs@, i as int),
                y == scan_y(cs@, i as int),
                x <= i,
                y <= i,
                nodes@ == text_nodes(cs@, i as int),
                nodes@.len() <= i,
                forall|k: int| 0 <= k < i ==> valid_char(#[trigger] cs@[k]),
                forall|t: int| 0 <= t < nodes@.len() ==> lex_lt((#[trigger] nodes@[t]).pos, (x, y)),
                positions_distinct(nodes@),
                nodes_bounded(nodes@),
            decreases len - i,
        {
            let c = cs[i];
            if c == '\n' {
                y = y + 1;
                x = 0;
            } else if c == ' ' {
                x = x + 1;
            } else if c as u32 >= 48 && c as u32 <= 57 {
                let d: u32 = c as u32 - 48;
                let nd = Node { n: d as u8, pos: (x, y) };
                proof {
                    assert(forall|t: int|
                        0 <= t < nodes@.len() ==> (#[trigger] nodes@[t]).pos != nd.pos);
                }
                nodes.push(nd);
                x = x + 1;
            } else {
                return Result::Err(SolveError::InvalidCharacter(c));
            }
            i = i + 1;
        }
        Result::Ok(Board::new(nodes))
    }
}

/// The characters of a text, as an indexable list.
fn chars_of(s: &str) -> (r: Vec<char>)
    ensures
        r@ == s@,
{
    let mut r: Vec<char> = Vec::new();
    proof {
        broadcast use vstd::string::axiom_spec_iter;

    }
    for c in it: s.chars()
        invariant
            r@ == it.seq().take(it.index() as int),
    {
        r.push(c);
    }
    proof {
        assert(r@ =~= s@);
    }
    r
}

/// Multiset-equal island lists satisfy the same bounds.
proof fn lemma_bounds_transfer(s1: Seq<Node>, s2: Seq<Node>)
    requires
        s1.to_multiset() == s2.to_multiset(),
        nodes_bounded(s1),
    ensures
        nodes_bounded(s2),
{
    broadcast use vstd::seq_lib::group_to_multiset_ensures;

    assert forall|i: int|
        0 <= i < s2.len() implies (#[trigger] s2[i]).n <= 9 && s2[i].pos.0 < 0x1000_0000
        && s2[i].pos.1 < 0x1000_0000 by {
        assert(s2.contains(s2[i]));
        crate::seqs::lemma_same_multiset_same_contains(s1, s2, s2[i]);
        assert(s1.contains(s2[i]));
        let w = choose|k: int| 0 <= k < s1.len() && s1[k] == s2[i];
        assert(s1[w].n <= 9);
    }
}

/// Multiset-equal island lists agree on which positions hold an island.
proof fn lemma_has_node_at_transfer(s1: Seq<Node>, s2: Seq<Node>, p: (usize, usize))
    requires
        s1.to_multiset() == s2.to_multiset(),
        seq_has_node_at(s1, p),
    ensures
        seq_has_node_at(s2, p),
{
    broadcast use vstd::seq_lib::group_to_multiset_ensures;

    let i = choose|i: int| 0 <= i < s1.len() && (#[trigger] s1[i]).pos == p;
    assert(s1.contains(s1[i]));
    crate::seqs::lemma_same_multiset_same_contains(s1, s2, s1[i]);
    assert(s2.contains(s1[i]));
    let k = choose|k: int| 0 <= k < s2.len() && s2[k] == s1[i];
    assert(s2[k].pos == p);
}

/// Distinct positions survive any reordering of the islands.
proof fn lemma_positions_distinct_transfer(s1: Seq<Node>, s2: Seq<Node>)
    requires
        s1.to_multiset() == s2.to_multiset(),
        positions_distinct(s1),
    ensures
        positions_distinct(s2),
{
    broadcast use vstd::seq_lib::group_to_multiset_ensures;
    broadcast use vstd::multiset::group_multiset_axioms;

    assert forall|a: int, b: int|
        0 <= a < b < s2.len() implies (#[trigger] s2[a]).pos != (#[trigger] s2[b]).pos by {
        if s2[a] == s2[b] {
            // the same island value twice means multiplicity at least two,
            // which the distinct-position source list cannot supply
            let v = s2[a];
            assert(s2.remove(a).to_multiset() == s2.to_multiset().remove(v));
            assert(s2.remove(a)[b - 1] == v);
            assert(s2.remove(a).contains(v));
            assert(s2.to_multiset().remove(v).count(v) > 0);
            assert(s2.to_multiset().count(v) >= 2);
            assert(s1.to_multiset().count(v) >= 2);
            lemma_count_two_has_pair(s1, v);
            let (i, j): (int, int) = choose|i: int, j: int|
                0 <= i < j < s1.len() && s1[i] == v && s1[j] == v;
            assert(s1[i].pos != s1[j].pos);
        } else if s2[a].pos == s2[b].pos {
            assert(s2.contains(s2[a]));
            assert(s2.contains(s2[b]));
            crate::seqs::lemma_same_multiset_same_contains(s1, s2, s2[a]);
            crate::seqs::lemma_same_multiset_same_contains(s1, s2, s2[b]);
            assert(s1.contains(s2[a]));
            assert(s1.contains(s2[b]));
            let i = choose|i: int| 0 <= i < s1.len() && s1[i] == s2[a];
            let j = choose|j: int| 0 <= j < s1.len() && s1[j] == s2[b];
            assert(i != j);
            if i < j {
                assert(s1[i].pos != s1[j].pos);
            } else {
                assert(s1[j].pos != s1[i].pos);
            }
        }
    }
}

/// A multiplicity of two or more forces two distinct indices holding the
/// same value.
proof fn lemma_count_two_has_pair(s: Seq<Node>, v: Node)
    requires
        s.to_multiset().count(v) >= 2,
    ensures
        exists|a: int, b: int| 0 <= a < b < s.len() && s[a] == v && s[b] == v,
{
    broadcast use vstd::seq_lib::group_to_multiset_ensures;
    broadcast use vstd::multiset::group_multiset_axioms;

    assert(s.contains(v));
    let i = choose|i: int| 0 <= i < s.len() && s[i] == v;
    assert(s.remove(i).to_multiset() == s.to_multiset().remove(v));
    assert(s.remove(i).to_multiset().count(v) >= 1);
    assert(s.remove(i).contains(v));
    let k = choose|k: int| 0 <= k < s.remove(i).len() && s.remove(i)[k] == v;
    if k < i {
        assert(s[k] == v);
        assert(0 <= k < i < s.len() && s[k] == v && s[i] == v);
    } else {
        assert(s[k + 1] == v);
        assert(0 <= i < k + 1 < s.len() && s[i] == v && s[k + 1] == v);
    }
}

} // verus!
