//! The end-to-end solver tests: the small fully-determined board, the
//! large board, and the edge crossing relation.

use hashi_solver::Board;
use hashi_solver::Edge;
use hashi_solver::SolveState;

const EASY_7X7: &'static str = r#"
 2    4
3  4 3 
        
 1 2  3
4    3
       
3  3  3
"#;
const EASY_7X7_SOLN: &'static str = r#"
 2====4
3==4-3‖
|  | ‖‖
|1-2 ‖3
4----3|
‖     |
3--3==3
"#;

const HARD_25X25: &'static str = r#"
3 4             5 2 1  1 
    3       2           1
     2 3        6   4  4 
                  3   3 3
2  1  3        2 2 1     
                  1      
                 5 4 1   
1                   2 4  
                         
                       4 
3                        
                   2 1   
                 6    5  
                  2  2   
3                        
                  5  5 4 
    2 4         5        
                 3       
   2            3    1 2 
                 1      
5 5               6   7 6
   2       4             
4      4  1              
                         
2 1 1  5   5      4   2 2
"#;

const HARD_25X25_SOLN: &'static str = r#"
3-4-------------5=2 1  1 
‖ ‖ 3=======2   ‖   |  |1
‖ ‖ |2=3--------6===4--4|
‖ ‖ |           | 3===3‖3
2 ‖1| 3========2|2|1  |‖‖
  ‖|| |         |‖1|  |‖‖
  ‖|| |         |5-4-1|‖‖
1 ‖|| |         |‖ |2=4‖‖
| ‖|| |         |‖ |  |‖‖
| ‖|| |         |‖ |  |4‖
3 ‖|| |         |‖ |  |‖‖
‖ ‖|| |         |‖ 2-1|‖‖
‖ ‖|| |         |6====5‖‖
‖ ‖|| |         |‖2  2‖‖‖
3 ‖|| |         |‖‖  ‖‖‖‖
| ‖|| |         |‖5==5‖4‖
| ‖|2-4=========5‖|  |‖‖‖
| ‖|            ‖3|  |‖‖‖
| ‖2------------3||  1‖2‖
| ‖              1|   ‖ ‖
5=5---------------6===7=6
‖  2=======4      ‖   | ‖
4------4--1‖      ‖   | ‖
|      ‖   ‖      ‖   | ‖
2-1 1--5===5------4---2 2
"#;

#[test]
fn test_easy_7x7() {
    let b = Board::parse(EASY_7X7).unwrap();
    let mut st = SolveState::new(&b);
    let (soln, _log) = st.solve(0, 0).unwrap();

    assert_eq!(b.serialize_to_string(&soln), EASY_7X7_SOLN);
}

#[test]
fn test_hard_25x25() {
    let b = Board::parse(HARD_25X25).unwrap();
    let mut st = SolveState::new(&b);
    let (soln, _log) = st.solve(0, 0).unwrap();
    assert_eq!(b.serialize_to_string(&soln), HARD_25X25_SOLN);
}

#[test]
fn test_edge_intersections() {
    // parallel intersections: collinear edges cross exactly when their
    // open ranges overlap, so a range nested in another counts as crossing
    assert!(Edge::V { x: 0, y_range: (0, 3) }.intersects(Edge::V { x: 0, y_range: (2, 4) }));
    assert!(!Edge::V { x: 0, y_range: (0, 2) }.intersects(Edge::V { x: 0, y_range: (2, 4) }));
    assert!(Edge::V { x: 0, y_range: (2, 5) }.intersects(Edge::V { x: 0, y_range: (2, 4) }));
    assert!(Edge::H { y: 0, x_range: (0, 3) }.intersects(Edge::H { y: 0, x_range: (2, 4) }));
    assert!(!Edge::H { y: 0, x_range: (0, 2) }.intersects(Edge::H { y: 0, x_range: (2, 4) }));
    assert!(Edge::H { y: 0, x_range: (2, 5) }.intersects(Edge::H { y: 0, x_range: (2, 4) }));

    // perpendicular intersections
    assert!(Edge::V { x: 1, y_range: (0, 2) }.intersects(Edge::H { y: 1, x_range: (0, 2) }));
    assert!(!Edge::V { x: 2, y_range: (0, 2) }.intersects(Edge::H { y: 1, x_range: (0, 2) }));
    assert!(!Edge::V { x: 1, y_range: (0, 2) }.intersects(Edge::H { y: 2, x_range: (0, 2) }));
}
