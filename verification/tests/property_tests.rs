//! Tests of the library's stated properties on concrete boards: the view
//! consistency invariants, crossing exclusion, rendering idempotence,
//! determinism, connectivity, parse failures, and the search budgets.

use hashi_solver::Board;
use hashi_solver::Edge;
use hashi_solver::NumEdges;
use hashi_solver::SolveState;
use hashi_solver::SolveError;

const EASY_7X7: &'static str = r#"
 2    4
3  4 3 
        
 1 2  3
4    3
       
3  3  3
"#;

const HARD_25X25_2: &'static str = r#"
1  2          1 3    4 2 
                         
 2   1          5       3
                 2       
 4 6    2         2 4   5
                         
    4  2         4 3 3 2 
      1                  
                 2       
                         
      3 3        1       
    5      5    7  5     
                         
    1 2    4  1 1    1 1 
4  8               6    3
                     2 3 
               2 1       
                    1  4 
                         
   3         2           
                         
   1                     
5            5 5 4 4   4 
                         
3                   1 1 2
"#;

/// Two 1-2-1 rows that can never connect: no shared column, no shared row.
const TWO_CLUSTERS: &'static str = "1  2  1\n\n  1  2  1\n";

/// Four islands of two in a square: solvable only by a speculative choice.
const SQUARE_OF_TWOS: &'static str = "2 2\n\n2 2\n";

fn mult(m: NumEdges) -> u8 {
    m.value()
}

/// Satisfied counts always equal the sums of incident multiplicities, and
/// on a solved board those sums meet each island's demand exactly.
#[test]
fn counts_match_incident_sums_and_demands() {
    let b = Board::parse(EASY_7X7).unwrap();
    let mut st = SolveState::new(&b);
    st.solve(0, 0).unwrap();

    for i in 0..b.nodes.len() {
        let mut sum: u8 = 0;
        for e in 0..st.edge_counts.len() {
            let (a, c) = st.edge_nodes[e];
            if a == i || c == i {
                sum += mult(st.edge_counts[e]);
            }
        }
        assert_eq!(sum, st.node_counts[i]);
        assert_eq!(sum, b.nodes[i].n);
    }
}

/// A placed edge keeps every crossing edge empty, so a double bridge never
/// coexists with a crossing bridge.
#[test]
fn placed_edges_exclude_crossings() {
    let b = Board::parse(EASY_7X7).unwrap();
    let mut st = SolveState::new(&b);
    st.solve(0, 0).unwrap();

    for e in 0..st.edge_counts.len() {
        if !matches!(st.edge_counts[e], NumEdges::Zero) {
            for &j in &b.edge_intersections[e] {
                assert!(matches!(st.edge_counts[j], NumEdges::Zero));
            }
        }
    }
}

/// Rendering the same prefix twice yields the identical text, for every
/// prefix length.
#[test]
fn rendering_is_idempotent() {
    let b = Board::parse(EASY_7X7).unwrap();
    let mut st = SolveState::new(&b);
    let (soln, _log) = st.solve(0, 0).unwrap();

    for k in 0..=soln.len() {
        let prefix: Vec<usize> = soln[..k].to_vec();
        let r1 = b.serialize_to_string(&prefix);
        let r2 = b.serialize_to_string(&prefix);
        assert_eq!(r1, r2);
    }
}

/// Solving the same board with the same budgets twice yields the identical
/// chosen-edge sequence and the identical justification sequence.
#[test]
fn solving_is_deterministic() {
    let b = Board::parse(EASY_7X7).unwrap();
    let (s1, l1) = SolveState::new(&b).solve(0, 0).unwrap();
    let (s2, l2) = SolveState::new(&b).solve(0, 0).unwrap();
    assert_eq!(s1, s2);
    assert_eq!(l1, l2);
}

/// The small fully-determined board solves so that its first content row
/// shows the double bridge.
#[test]
fn easy_board_first_row_shows_double_bridge() {
    let b = Board::parse(EASY_7X7).unwrap();
    let mut st = SolveState::new(&b);
    let (soln, _log) = st.solve(0, 0).unwrap();
    let text = b.serialize_to_string(&soln);
    let lines: Vec<&str> = text.split('\n').collect();
    assert_eq!(lines[1], " 2====4");
}

/// A character outside digits and blanks fails the parse, naming the
/// character.
#[test]
fn invalid_character_is_reported() {
    assert!(matches!(
        Board::parse("1 2\n a \n"),
        Err(SolveError::InvalidCharacter('a'))
    ));
    assert!(matches!(
        Board::parse("=1 2"),
        Err(SolveError::InvalidCharacter('='))
    ));
    assert!(Board::parse("1 2\n3 4\n").is_ok());
    assert!(Board::parse("0 9\n").is_ok());
}

/// Saturating one cluster while another sits apart is recognised as an
/// isolated component by the solvability pre-check.
#[test]
fn isolated_component_is_detected() {
    let b = Board::parse(TWO_CLUSTERS).unwrap();
    let mut st = SolveState::new(&b);

    // place the two bridges of the top row's 1-2-1 cluster by hand
    for e in 0..b.edges.len() {
        let (a, c) = st.edge_nodes[e];
        if b.nodes[a].pos.1 == 0 && b.nodes[c].pos.1 == 0 {
            st.add_edge(e, "test placement");
        }
    }
    assert_eq!(st.solvable(), Err(SolveError::IsolatedComponent));
}

/// Two disconnected but individually satisfiable clusters never solve, and
/// the failing run stays within a small transposition budget.
#[test]
fn disconnected_clusters_never_solve() {
    let b = Board::parse(TWO_CLUSTERS).unwrap();
    let mut st = SolveState::new(&b);
    let r = st.solve(10, 50);
    assert!(r.is_err());
    assert!(st.visited.len() <= 51);
}

/// With both budgets at zero, a board that forced moves alone cannot solve
/// fails fast: no speculative branch is attempted.  A square of four 2s has
/// no forced move at all, yet a generous budget solves it.
#[test]
fn zero_budgets_fail_fast() {
    let b = Board::parse(SQUARE_OF_TWOS).unwrap();
    let mut st = SolveState::new(&b);
    let r = st.solve(0, 0);
    assert!(r.is_err());
    assert!(st.visited.len() <= 1);

    let b2 = Board::parse(SQUARE_OF_TWOS).unwrap();
    let mut st2 = SolveState::new(&b2);
    assert!(st2.solve(10, 1_000).is_ok());
}

/// Collinear edges on the same line cross whenever their open ranges
/// overlap, including a range nested strictly inside another; edges on
/// different lines never do.
#[test]
fn nested_collinear_edges_cross() {
    assert!(Edge::V { x: 0, y_range: (0, 6) }.intersects(Edge::V { x: 0, y_range: (2, 4) }));
    assert!(Edge::V { x: 0, y_range: (2, 4) }.intersects(Edge::V { x: 0, y_range: (0, 6) }));
    assert!(Edge::H { y: 1, x_range: (0, 6) }.intersects(Edge::H { y: 1, x_range: (2, 4) }));
    assert!(!Edge::V { x: 1, y_range: (0, 6) }.intersects(Edge::V { x: 0, y_range: (2, 4) }));
    assert!(!Edge::H { y: 2, x_range: (0, 6) }.intersects(Edge::H { y: 1, x_range: (2, 4) }));
}

/// A success under zero budgets used forced moves only.
#[test]
fn zero_budget_success_is_forced_only() {
    let b = Board::parse(EASY_7X7).unwrap();
    let (_soln, log) = SolveState::new(&b).solve(0, 0).unwrap();
    assert!(log.iter().all(|r| *r != "speculative"));
}

/// The step-by-step trace names each step, its justification, and the
/// board rendered up to that step.
#[test]
fn trace_shows_each_step() {
    let b = Board::parse("1 2 1\n").unwrap();
    let mut st = SolveState::new(&b);
    let (soln, log) = st.solve(0, 0).unwrap();
    assert_eq!(soln.len(), 2);
    let trace = b.render_trace(&soln, &log);
    assert_eq!(
        trace,
        "\nStep 1\nonly viable edge\n\n1-2 1\n\nStep 2\nonly viable edge\n\n1-2-1\n"
    );
}

/// The state-count budget error surfaces as its own kind.
#[test]
fn budget_errors_have_their_own_kinds() {
    let b = Board::parse(SQUARE_OF_TWOS).unwrap();
    let mut st = SolveState::new(&b);
    assert_eq!(st.solve(0, 0), Err(SolveError::SearchBudgetExceeded));
}

/// The larger spare board solves by forced moves alone, and every island's
/// incident multiplicities sum to its demand.
#[test]
fn second_hard_board_solves_by_forced_moves() {
    let b = Board::parse(HARD_25X25_2).unwrap();
    let mut st = SolveState::new(&b);
    st.solve(0, 0).unwrap();
    for i in 0..b.nodes.len() {
        let mut sum: u8 = 0;
        for e in 0..st.edge_counts.len() {
            let (a, c) = st.edge_nodes[e];
            if a == i || c == i {
                sum += st.edge_counts[e].value();
            }
        }
        assert_eq!(sum, b.nodes[i].n);
    }
}
