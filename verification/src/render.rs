//! Rendering a board with placed bridges as a rectangular character grid.
//!
//! Islands render as their digit; an edge renders as `-` or `=`
//! horizontally, `|` or `‖` vertically; overlapping glyphs (possible only at
//! a crossing, which a valid solution never produces) render defensively as
//! `+`.

use vstd::prelude::*;

verus! {

use crate::board::Board;
use crate::board::Node;
use crate::board::nodes_bounded;
use crate::board::positions_distinct;
use crate::board::seq_has_node_at;
use crate::bridges::NumEdges;
use crate::geometry::Edge;
use crate::seqs::lemma_occ_push;
use crate::seqs::occ;

/// Relies on `String::push` of the standard library: it appends exactly the
/// given character to the string.
pub assume_specification[ String::push ](s: &mut String, ch: char)
    ensures
        final(s)@ == old(s)@.push(ch),
;

/// The largest x coordinate among the first `k` islands, or zero.
pub open spec fn max_x_upto(nodes: Seq<Node>, k: int) -> int
    decreases k,
{
    if k <= 0 {
        0
    } else {
        let m = max_x_upto(nodes, k - 1);
        if nodes[k - 1].pos.0 > m {
            nodes[k - 1].pos.0 as int
        } else {
            m
        }
    }
}

/// The largest y coordinate among the first `k` islands, or zero.
pub open spec fn max_y_upto(nodes: Seq<Node>, k: int) -> int
    decreases k,
{
    if k <= 0 {
        0
    } else {
        let m = max_y_upto(nodes, k - 1);
        if nodes[k - 1].pos.1 > m {
            nodes[k - 1].pos.1 as int
        } else {
            m
        }
    }
}

/// The width of the rendered grid.
pub open spec fn grid_w(nodes: Seq<Node>) -> int {
    max_x_upto(nodes, nodes.len() as int) + 1
}

/// The height of the rendered grid.
pub open spec fn grid_h(nodes: Seq<Node>) -> int {
    max_y_upto(nodes, nodes.len() as int) + 1
}

/// Every island's x coordinate is within the running maximum.
pub proof fn lemma_max_x_bound(nodes: Seq<Node>, k: int, i: int)
    requires
        0 <= i < k <= nodes.len(),
    ensures
        nodes[i].pos.0 <= max_x_upto(nodes, k),
        max_x_upto(nodes, k) >= 0,
    decreases k,
{
    if i < k - 1 {
        lemma_max_x_bound(nodes, k - 1, i);
    } else {
        lemma_max_nonneg(nodes, k - 1);
    }
}

/// Every island's y coordinate is within the running maximum.
pub proof fn lemma_max_y_bound(nodes: Seq<Node>, k: int, i: int)
    requires
        0 <= i < k <= nodes.len(),
    ensures
        nodes[i].pos.1 <= max_y_upto(nodes, k),
        max_y_upto(nodes, k) >= 0,
    decreases k,
{
    if i < k - 1 {
        lemma_max_y_bound(nodes, k - 1, i);
    }
}

/// The running maxima start at zero and never drop below it.
pub proof fn lemma_max_nonneg(nodes: Seq<Node>, k: int)
    ensures
        max_x_upto(nodes, k) >= 0,
        max_y_upto(nodes, k) >= 0,
    decreases k,
{
    if k > 0 {
        lemma_max_nonneg(nodes, k - 1);
    }
}

/// One rendering step: a glyph lands on a cell that is blank or already
/// shows the same glyph; anything else marks a conflict.
pub open spec fn cell_step(c0: char, c: char) -> char {
    if c0 == ' ' || c0 == c {
        c
    } else {
        '+'
    }
}

/// The character at cell `(x, y)` after drawing the first `e` edges.
pub open spec fn cell_upto(edges: Seq<Edge>, cnts: Seq<NumEdges>, x: int, y: int, e: int) -> char
    decreases e,
{
    if e <= 0 {
        ' '
    } else {
        let c0 = cell_upto(edges, cnts, x, y, e - 1);
        if !(cnts[e - 1] is Zero) && edges[e - 1].spec_covers(x, y) {
            cell_step(c0, edges[e - 1].spec_char(cnts[e - 1]))
        } else {
            c0
        }
    }
}

/// The digit glyph of an island's required count.
pub open spec fn digit_char(n: u8) -> char {
    ((48 + n) as u8) as char
}

/// Some island sits at cell `(x, y)`.
pub open spec fn node_at(nodes: Seq<Node>, x: int, y: int) -> bool {
    exists|i: int| 0 <= i < nodes.len() && (#[trigger] nodes[i]).pos.0 == x && nodes[i].pos.1 == y
}

/// The final character of cell `(x, y)`: an island digit where an island
/// sits, else the fold of the placed edges over the cell.
pub open spec fn cell_char(
    nodes: Seq<Node>,
    edges: Seq<Edge>,
    cnts: Seq<NumEdges>,
    x: int,
    y: int,
) -> char {
    if node_at(nodes, x, y) {
        let i = choose|i: int|
            0 <= i < nodes.len() && (#[trigger] nodes[i]).pos.0 == x && nodes[i].pos.1 == y;
        digit_char(nodes[i].n)
    } else {
        cell_upto(edges, cnts, x, y, edges.len() as int)
    }
}

/// The first `x` characters of row `y`.
pub open spec fn row_chars(
    nodes: Seq<Node>,
    edges: Seq<Edge>,
    cnts: Seq<NumEdges>,
    y: int,
    x: int,
) -> Seq<char>
    decreases x,
{
    if x <= 0 {
        Seq::empty()
    } else {
        row_chars(nodes, edges, cnts, y, x - 1).push(cell_char(nodes, edges, cnts, x - 1, y))
    }
}

/// Row `y` shows nothing.
pub open spec fn row_blank(
    nodes: Seq<Node>,
    edges: Seq<Edge>,
    cnts: Seq<NumEdges>,
    w: int,
    y: int,
) -> bool {
    forall|x: int| 0 <= x < w ==> cell_char(nodes, edges, cnts, x, y) == ' '
}

/// The first `h` rendered rows: each row's characters unless the row is
/// entirely blank, followed by a line break either way.
pub open spec fn render_rows(
    nodes: Seq<Node>,
    edges: Seq<Edge>,
    cnts: Seq<NumEdges>,
    w: int,
    h: int,
) -> Seq<char>
    decreases h,
{
    if h <= 0 {
        Seq::empty()
    } else {
        render_rows(nodes, edges, cnts, w, h - 1) + (if row_blank(nodes, edges, cnts, w, h - 1) {
            Seq::empty()
        } else {
            row_chars(nodes, edges, cnts, h - 1, w)
        }).push('\n')
    }
}

/// The full rendering of a board under a given multiplicity vector.
pub open spec fn spec_render_counts(
    nodes: Seq<Node>,
    edges: Seq<Edge>,
    cnts: Seq<NumEdges>,
) -> Seq<char> {
    render_rows(nodes, edges, cnts, grid_w(nodes), grid_h(nodes))
}

/// The multiplicity each edge gets from a chosen-edge sequence.
pub open spec fn agg_counts(soln: Seq<usize>, m: int) -> Seq<NumEdges> {
    Seq::new(m as nat, |e: int| NumEdges::from_count(occ(soln, e as usize)))
}

/// The rendering of a board under the bridges a chosen-edge sequence
/// places.
pub open spec fn spec_render(b: Board, soln: Seq<usize>) -> Seq<char> {
    spec_render_counts(b.nodes@, b.edges@, agg_counts(soln, b.edges@.len() as int))
}

/// A segment covers a cell exactly when one of its walked points is that
/// cell.
proof fn lemma_covers_point(edge: Edge, x: int, y: int)
    requires
        edge.spec_wf(),
    ensures
        edge.spec_covers(x, y) <==> exists|t: int|
            0 <= t < edge.spec_point_count() && (#[trigger] edge.spec_point(t)).0 == x
                && edge.spec_point(t).1 == y,
{
    if edge.spec_covers(x, y) {
        match edge {
            Edge::H { y: ey, x_range } => {
                let t = x - x_range.0;
                assert(edge.spec_point(t).0 == x && edge.spec_point(t).1 == y);
            },
            Edge::V { x: ex, y_range } => {
                let t = y - y_range.0;
                assert(edge.spec_point(t).0 == x && edge.spec_point(t).1 == y);
            },
        }
    }
}

/// Lays out the grid: blanks, then every placed edge's glyph along its
/// segment (conflicts as `+`), then each island's digit, and appends the
/// rows to `out`, blank rows as bare line breaks.
#[verifier::loop_isolation(false)]
pub fn fmt_viz(
    nodes: &Vec<Node>,
    edges: &Vec<Edge>,
    edge_counts: &Vec<NumEdges>,
    out: &mut String,
)
    requires
        positions_distinct(nodes@),
        nodes_bounded(nodes@),
        edge_counts@.len() == edges@.len(),
        forall|e: int| 0 <= e < edges@.len() ==> (#[trigger] edges@[e]).spec_wf(),
        forall|e: int|
            0 <= e < edges@.len() ==> seq_has_node_at(nodes@, (#[trigger] edges@[e]).spec_p1()),
        forall|e: int|
            0 <= e < edges@.len() ==> seq_has_node_at(nodes@, (#[trigger] edges@[e]).spec_p2()),
    ensures
        final(out)@ == old(out)@ + spec_render_counts(nodes@, edges@, edge_counts@),
{
    let n = nodes.len();

    // the bounds
    let mut mx: usize = 0;
    let mut i: usize = 0;
    while i < n
        invariant
            i <= n,
            mx == max_x_upto(nodes@, i as int),
            mx < 0x1000_0000,
        decreases n - i,
    {
        if nodes[i].pos.0 > mx {
            mx = nodes[i].pos.0;
        }
        i = i + 1;
    }
    let mut my: usize = 0;
    let mut i: usize = 0;
    while i < n
        invariant
            i <= n,
            my == max_y_upto(nodes@, i as int),
            my < 0x1000_0000,
        decreases n - i,
    {
        if nodes[i].pos.1 > my {
            my = nodes[i].pos.1;
        }
        i = i + 1;
    }
    let w = mx + 1;
    let h = my + 1;
    proof {
        assert(w == grid_w(nodes@));
        assert(h == grid_h(nodes@));
    }

    // a blank grid, one vector of cells per column
    let mut arr: Vec<Vec<char>> = Vec::new();
    let mut x: usize = 0;
    while x < w
        invariant
            x <= w,
            arr@.len() == x,
            forall|a: int| 0 <= a < x ==> (#[trigger] arr@[a])@.len() == h,
            forall|a: int, b: int|
                0 <= a < x && 0 <= b < h ==> (#[trigger] arr@[a]@[b]) == ' ',
        decreases w - x,
    {
        let mut col: Vec<char> = Vec::new();
        let mut y: usize = 0;
        while y < h
            invariant
                y <= h,
                col@.len() == y,
                forall|b: int| 0 <= b < y ==> (#[trigger] col@[b]) == ' ',
            decreases h - y,
        {
            col.push(' ');
            y = y + 1;
        }
        arr.push(col);
        x = x + 1;
    }

    // draw the placed edges
    let m = edges.len();
    let mut e: usize = 0;
    while e < m
        invariant
            e <= m,
            arr@.len() == w,
            forall|a: int| 0 <= a < w ==> (#[trigger] arr@[a])@.len() == h,
            forall|a: int, b: int|
                0 <= a < w && 0 <= b < h ==> (#[trigger] arr@[a]@[b]) == cell_upto(
                    edges@,
                    edge_counts@,
                    a,
                    b,
                    e as int,
                ),
        decreases m - e,
    {
        let cnt = edge_counts[e];
        if !matches!(cnt, NumEdges::Zero) {
            let ed = edges[e];
            proof {
                let p2 = ed.spec_p2();
                let wpt = choose|i: int|
                    0 <= i < nodes@.len() && (#[trigger] nodes@[i]).pos == p2;
                assert(nodes@[wpt].pos.0 < 0x1000_0000 && nodes@[wpt].pos.1 < 0x1000_0000);
                assert(ed.spec_hi() < usize::MAX);
            }
            let ch = ed.as_char(cnt);
            let pts = ed.points();
            let pl = pts.len();
            let ghost base = arr@;
            let mut t: usize = 0;
            while t < pl
                invariant
                    t <= pl,
                    pl == ed.spec_point_count(),
                    cnt == edge_counts@[e as int],
                    !(cnt is Zero),
                    ed == edges@[e as int],
                    ch == ed.spec_char(cnt),
                    forall|k: int| 0 <= k < pl ==> pts@[k] == ed.spec_point(k),
                    arr@.len() == w,
                    forall|a: int| 0 <= a < w ==> (#[trigger] arr@[a])@.len() == h,
                    forall|a: int, b: int|
                        0 <= a < w && 0 <= b < h ==> (#[trigger] base[a]@[b]) == cell_upto(
                            edges@,
                            edge_counts@,
                            a,
                            b,
                            e as int,
                        ),
                    forall|a: int, b: int|
                        0 <= a < w && 0 <= b < h ==> (#[trigger] arr@[a]@[b]) == (if exists|q: int|
                            0 <= q < t && (#[trigger] ed.spec_point(q)).0 == a && ed.spec_point(
                                q,
                            ).1 == b {
                            cell_step(base[a]@[b], ch)
                        } else {
                            base[a]@[b]
                        }),
                decreases pl - t,
            {
                let p = pts[t];
                let px = p.0;
                let py = p.1;
                proof {
                    let p1 = ed.spec_p1();
                    let p2 = ed.spec_p2();
                    let w1 = choose|i: int|
                        0 <= i < nodes@.len() && (#[trigger] nodes@[i]).pos == p1;
                    let w2 = choose|i: int|
                        0 <= i < nodes@.len() && (#[trigger] nodes@[i]).pos == p2;
                    lemma_max_x_bound(nodes@, nodes@.len() as int, w1);
                    lemma_max_x_bound(nodes@, nodes@.len() as int, w2);
                    lemma_max_y_bound(nodes@, nodes@.len() as int, w1);
                    lemma_max_y_bound(nodes@, nodes@.len() as int, w2);
                    match ed {
                        Edge::H { y: ey, x_range } => {
                            assert(p1 == (x_range.0, ey) && p2 == (x_range.1, ey));
                            assert(pl == x_range.1 - x_range.0 + 1);
                            assert(x_range.0 + (t as int) <= x_range.1);
                            assert((px, py) == ed.spec_point(t as int));
                            assert(px == x_range.0 + t);
                            assert(px <= x_range.1);
                            assert(py == ey);
                        },
                        Edge::V { x: ex, y_range } => {
                            assert(p1 == (ex, y_range.0) && p2 == (ex, y_range.1));
                            assert(pl == y_range.1 - y_range.0 + 1);
                            assert(y_range.0 + (t as int) <= y_range.1);
                            assert((px, py) == ed.spec_point(t as int));
                            assert(py == y_range.0 + t);
                            assert(py <= y_range.1);
                            assert(px == ex);
                        },
                    }
                    assert(px < w && py < h);
                }
                let ghost before = arr@;
                let cur = arr[px][py];
                let c2 = if cur == ' ' || cur == ch {
                    ch
                } else {
                    '+'
                };
                arr[px][py] = c2;
                proof {
                    assert(ed.spec_point(t as int) == (px, py));
                    assert forall|a: int, b: int|
                        0 <= a < w && 0 <= b < h implies (#[trigger] arr@[a]@[b]) == (if exists|
                        q: int,
                    |
                        0 <= q < t + 1 && (#[trigger] ed.spec_point(q)).0 == a && ed.spec_point(
                            q,
                        ).1 == b {
                        cell_step(base[a]@[b], ch)
                    } else {
                        base[a]@[b]
                    }) by {
                        if a == px as int && b == py as int {
                            assert(ed.spec_point(t as int).0 == a && ed.spec_point(t as int).1
                                == b);
                            if exists|q: int|
                                0 <= q < t && (#[trigger] ed.spec_point(q)).0 == a
                                    && ed.spec_point(q).1 == b {
                                let q = choose|q: int|
                                    0 <= q < t && (#[trigger] ed.spec_point(q)).0 == a
                                        && ed.spec_point(q).1 == b;
                                assert(ed.spec_point(q) == ed.spec_point(t as int));
                                assert(false);
                            }
                            assert(cur == base[a]@[b]);
                            assert(arr@[a]@[b] == cell_step(base[a]@[b], ch));
                        } else {
                            assert(arr@[a]@[b] == before[a]@[b]);
                            assert forall|q: int|
                                0 <= q < t + 1 && (#[trigger] ed.spec_point(q)).0 == a
                                    && ed.spec_point(q).1 == b implies q < t by {
                                if q == t as int {
                                    assert(false);
                                }
                            }
                        }
                    }
                }
                t = t + 1;
            }
            proof {
                assert forall|a: int, b: int| 0 <= a < w && 0 <= b < h implies (
                #[trigger] arr@[a]@[b]) == cell_upto(edges@, edge_counts@, a, b, e as int + 1) by {
                    lemma_covers_point(ed, a, b);
                }
            }
        }
        e = e + 1;
    }

    // island digits overwrite whatever lies beneath them
    let mut i: usize = 0;
    while i < n
        invariant
            i <= n,
            arr@.len() == w,
            forall|a: int| 0 <= a < w ==> (#[trigger] arr@[a])@.len() == h,
            forall|t: int|
                0 <= t < i ==> arr@[(#[trigger] nodes@[t]).pos.0 as int]@[nodes@[t].pos.1 as int]
                    == digit_char(nodes@[t].n),
            forall|a: int, b: int|
                0 <= a < w && 0 <= b < h && !(exists|t: int|
                    0 <= t < i && (#[trigger] nodes@[t]).pos.0 == a && nodes@[t].pos.1 == b) ==> (
                #[trigger] arr@[a]@[b]) == cell_upto(
                    edges@,
                    edge_counts@,
                    a,
                    b,
                    edges@.len() as int,
                ),
        decreases n - i,
    {
        let nd = nodes[i];
        proof {
            lemma_max_x_bound(nodes@, nodes@.len() as int, i as int);
            lemma_max_y_bound(nodes@, nodes@.len() as int, i as int);
        }
        let d: u8 = 48 + nd.n;
        let ghost before = arr@;
        arr[nd.pos.0][nd.pos.1] = d as char;
        proof {
            assert(arr@[nd.pos.0 as int]@[nd.pos.1 as int] == digit_char(nd.n));
            assert forall|t: int|
                0 <= t < i + 1 implies arr@[(#[trigger] nodes@[t]).pos.0 as int]@[nodes@[t].pos.1
                as int] == digit_char(nodes@[t].n) by {
                lemma_max_x_bound(nodes@, nodes@.len() as int, t);
                lemma_max_y_bound(nodes@, nodes@.len() as int, t);
                if t < i as int {
                    assert(nodes@[t].pos != nodes@[i as int].pos);
                    if nodes@[t].pos.0 == nd.pos.0 {
                        assert(nodes@[t].pos.1 != nd.pos.1);
                        assert(arr@[nodes@[t].pos.0 as int]@[nodes@[t].pos.1 as int]
                            == before[nodes@[t].pos.0 as int]@[nodes@[t].pos.1 as int]);
                    } else {
                        assert(arr@[nodes@[t].pos.0 as int] == before[nodes@[t].pos.0 as int]);
                    }
                }
            }
            assert forall|a: int, b: int|
                0 <= a < w && 0 <= b < h && !(exists|t: int|
                    0 <= t < i + 1 && (#[trigger] nodes@[t]).pos.0 == a && nodes@[t].pos.1
                        == b) implies (#[trigger] arr@[a]@[b]) == cell_upto(
                edges@,
                edge_counts@,
                a,
                b,
                edges@.len() as int,
            ) by {
                assert(!(nd.pos.0 == a && nd.pos.1 == b));
                if a == nd.pos.0 as int {
                    assert(arr@[a]@[b] == before[a]@[b]);
                } else {
                    assert(arr@[a] == before[a]);
                }
            }
        }
        i = i + 1;
    }
    proof {
        assert forall|a: int, b: int| 0 <= a < w && 0 <= b < h implies (#[trigger] arr@[a]@[b])
            == cell_char(nodes@, edges@, edge_counts@, a, b) by {
            if node_at(nodes@, a, b) {
                let wi = choose|wi: int|
                    0 <= wi < nodes@.len() && (#[trigger] nodes@[wi]).pos.0 == a && nodes@[wi].pos.1
                        == b;
                assert(arr@[a]@[b] == digit_char(nodes@[wi].n));
            }
        }
    }

    // emit the rows
    let ghost out0 = out@;
    let mut y: usize = 0;
    while y < h
        invariant
            y <= h,
            arr@.len() == w,
            forall|a: int| 0 <= a < w ==> (#[trigger] arr@[a])@.len() == h,
            forall|a: int, b: int|
                0 <= a < w && 0 <= b < h ==> (#[trigger] arr@[a]@[b]) == cell_char(
                    nodes@,
                    edges@,
                    edge_counts@,
                    a,
                    b,
                ),
            out@ == out0 + render_rows(nodes@, edges@, edge_counts@, w as int, y as int),
        decreases h - y,
    {
        let mut blank = true;
        let mut x: usize = 0;
        while x < w
            invariant
                x <= w,
                y < h,
                blank <==> (forall|a: int|
                    0 <= a < x ==> cell_char(nodes@, edges@, edge_counts@, a, y as int) == ' '),
            decreases w - x,
        {
            if arr[x][y] != ' ' {
                blank = false;
            }
            x = x + 1;
        }
        let ghost row_start = out@;
        if !blank {
            let mut x: usize = 0;
            while x < w
                invariant
                    x <= w,
                    y < h,
                    out@ == row_start + row_chars(nodes@, edges@, edge_counts@, y as int, x as int),
                decreases w - x,
            {
                out.push(arr[x][y]);
                proof {
                    assert(out@ =~= row_start + row_chars(
                        nodes@,
                        edges@,
                        edge_counts@,
                        y as int,
                        x as int + 1,
                    ));
                }
                x = x + 1;
            }
        }
        out.push('\n');
        proof {
            if blank {
                assert(row_blank(nodes@, edges@, edge_counts@, w as int, y as int));
                assert(out@ =~= out0 + render_rows(
                    nodes@,
                    edges@,
                    edge_counts@,
                    w as int,
                    y as int + 1,
                ));
            } else {
                assert(!row_blank(nodes@, edges@, edge_counts@, w as int, y as int));
                assert(out@ =~= out0 + render_rows(
                    nodes@,
                    edges@,
                    edge_counts@,
                    w as int,
                    y as int + 1,
                ));
            }
        }
        y = y + 1;
    }
    proof {
        assert(out@ =~= old(out)@ + spec_render_counts(nodes@, edges@, edge_counts@));
    }
}

/// The decimal digits of a non-negative number, most significant first.
pub open spec fn dec_spec(n: int) -> Seq<char>
    decreases n,
{
    if n < 0 {
        Seq::empty()
    } else if n < 10 {
        seq![digit_char(n as u8)]
    } else {
        dec_spec(n / 10).push(digit_char((n % 10) as u8))
    }
}

/// Appends the decimal rendering of `n` to the string.
pub fn push_decimal(out: &mut String, n: usize)
    ensures
        final(out)@ == old(out)@ + dec_spec(n as int),
    decreases n,
{
    if n < 10 {
        out.push((48 + (n as u8)) as char);
        proof {
            assert(out@ =~= old(out)@ + dec_spec(n as int));
        }
    } else {
        push_decimal(out, n / 10);
        out.push((48 + ((n % 10) as u8)) as char);
        proof {
            assert(out@ =~= old(out)@ + dec_spec(n as int));
        }
    }
}

/// The textual trace of a solution prefix by prefix: for each chosen edge a
/// step number, its justification, and the board rendered up to and
/// including that step.
pub open spec fn trace_upto(b: Board, soln: Seq<usize>, log: Seq<&'static str>, i: int) -> Seq<
    char,
>
    decreases i,
{
    if i <= 0 {
        Seq::empty()
    } else {
        trace_upto(b, soln, log, i - 1) + seq!['\n'] + "Step "@ + dec_spec(i) + seq!['\n'] + log[i
            - 1]@ + seq!['\n'] + seq!['\n'] + spec_render(b, soln.take(i))
    }
}

impl Board {
    /// The multi-step textual trace of a solution: one step per chosen
    /// edge, each showing its justification and the board rendered up to
    /// and including that step.
    pub fn render_trace(&self, soln: &Vec<usize>, log: &Vec<&'static str>) -> (r: String)
        requires
            self.wf(),
            log@.len() == soln@.len(),
            forall|k: int| 0 <= k < soln@.len() ==> (#[trigger] soln@[k]) < self.edges@.len(),
            forall|e: int| 0 <= e < self.edges@.len() ==> #[trigger] occ(soln@, e as usize) <= 2,
        ensures
            r@ == trace_upto(*self, soln@, log@, soln@.len() as int),
    {
        let mut out = String::new();
        let n = soln.len();
        let mut prefix: Vec<usize> = Vec::new();
        let mut i: usize = 0;
        while i < n
            invariant
                i <= n,
                n == soln@.len(),
                self.wf(),
                log@.len() == soln@.len(),
                forall|k: int| 0 <= k < soln@.len() ==> (#[trigger] soln@[k]) < self.edges@.len(),
                forall|e: int|
                    0 <= e < self.edges@.len() ==> #[trigger] occ(soln@, e as usize) <= 2,
                prefix@ == soln@.take(i as int),
                out@ == trace_upto(*self, soln@, log@, i as int),
            decreases n - i,
        {
            out.push('\n');
            out.append("Step ");
            push_decimal(&mut out, i + 1);
            out.push('\n');
            out.append(log[i]);
            out.push('\n');
            out.push('\n');
            prefix.push(soln[i]);
            proof {
                assert(prefix@ =~= soln@.take(i as int + 1));
                assert forall|e: int| 0 <= e < self.edges@.len() implies #[trigger] occ(
                    prefix@,
                    e as usize,
                ) <= 2 by {
                    crate::seqs::lemma_occ_take_le(soln@, i as int + 1, e as usize);
                }
            }
            self.serialize(&prefix, &mut out);
            proof {
                assert(out@ =~= trace_upto(*self, soln@, log@, i as int + 1));
            }
            i = i + 1;
        }
        proof {
            assert(out@ == trace_upto(*self, soln@, log@, soln@.len() as int));
        }
        out
    }

    /// Renders the board with the bridges that `soln` places, appending the
    /// character grid to `out`.  Each index may occur at most twice: a third
    /// bridge on one edge is a programming error upstream.
    pub fn serialize(&self, soln: &Vec<usize>, out: &mut String)
        requires
            self.wf(),
            forall|k: int| 0 <= k < soln@.len() ==> (#[trigger] soln@[k]) < self.edges@.len(),
            forall|e: int| 0 <= e < self.edges@.len() ==> #[trigger] occ(soln@, e as usize) <= 2,
        ensures
            final(out)@ == old(out)@ + spec_render(*self, soln@),
    {
        let m = self.edges.len();
        let mut agg: Vec<NumEdges> = Vec::new();
        let mut k: usize = 0;
        while k < m
            invariant
                k <= m,
                agg@.len() == k,
                forall|q: int| 0 <= q < k ==> (#[trigger] agg@[q]) is Zero,
            decreases m - k,
        {
            agg.push(NumEdges::Zero);
            k = k + 1;
        }
        proof {
            assert(soln@.take(0) =~= Seq::<usize>::empty());
            assert forall|e: int| 0 <= e < m implies (#[trigger] agg@[e])
                == NumEdges::from_count(occ(soln@.take(0), e as usize)) by {
                crate::seqs::lemma_occ_empty(e as usize);
            }
        }

        let sl = soln.len();
        let mut k: usize = 0;
        while k < sl
            invariant
                k <= sl,
                sl == soln@.len(),
                self.wf(),
                agg@.len() == m,
                m == self.edges@.len(),
                forall|t: int| 0 <= t < soln@.len() ==> (#[trigger] soln@[t]) < m,
                forall|e: int| 0 <= e < m ==> #[trigger] occ(soln@, e as usize) <= 2,
                forall|e: int|
                    0 <= e < m ==> (#[trigger] agg@[e]) == NumEdges::from_count(
                        occ(soln@.take(k as int), e as usize),
                    ),
            decreases sl - k,
        {
            let idx = soln[k];
            proof {
                let ei: int = idx as int;
                assert(0 <= ei < m);
                assert(occ(soln@, ei as usize) <= 2);
                assert(ei as usize == idx);
                crate::seqs::lemma_occ_take_le(soln@, k as int + 1, idx);
                assert(soln@.take(k as int + 1) =~= soln@.take(k as int).push(idx));
                lemma_occ_push(soln@.take(k as int), idx, idx);
                assert(occ(soln@.take(k as int), idx) < 2);
            }
            let mut c = agg[idx];
            c.increment();
            agg[idx] = c;
            proof {
                assert forall|e: int| 0 <= e < m implies (#[trigger] agg@[e])
                    == NumEdges::from_count(occ(soln@.take(k as int + 1), e as usize)) by {
                    assert(soln@.take(k as int + 1) =~= soln@.take(k as int).push(idx));
                    lemma_occ_push(soln@.take(k as int), idx, e as usize);
                }
            }
            k = k + 1;
        }
        proof {
            assert(soln@.take(sl as int) =~= soln@);
            assert(agg@ =~= agg_counts(soln@, m as int));
        }
        fmt_viz(&self.nodes, &self.edges, &agg, out);
    }

    /// The rendering of the board with the bridges that `soln` places, as a
    /// fresh string.
    pub fn serialize_to_string(&self, soln: &Vec<usize>) -> (r: String)
        requires
            self.wf(),
            forall|k: int| 0 <= k < soln@.len() ==> (#[trigger] soln@[k]) < self.edges@.len(),
            forall|e: int| 0 <= e < self.edges@.len() ==> #[trigger] occ(soln@, e as usize) <= 2,
        ensures
            r@ == spec_render(*self, soln@),
    {
        let mut s = String::new();
        self.serialize(soln, &mut s);
        proof {
            assert(Seq::<char>::empty() + spec_render(*self, soln@) =~= spec_render(*self, soln@));
        }
        s
    }
}

} // verus!
