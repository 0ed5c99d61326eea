//! Candidate bridges: horizontal or vertical segments between two islands,
//! and the crossing test between two such segments.

use vstd::prelude::*;

verus! {

use crate::bridges::NumEdges;

/// A candidate bridge.  A vertical edge spans an open-ended y-range at a fixed
/// x; a horizontal edge spans an x-range at a fixed y.  The range endpoints
/// are the positions of the two islands the edge connects.
#[derive(Debug, Copy, Clone, PartialEq, Eq)]
pub enum Edge {
    V { x: usize, y_range: (usize, usize) },
    H { x_range: (usize, usize), y: usize },
}

impl Edge {
    /// A well-formed edge spans a non-empty open interval: its two endpoint
    /// coordinates differ by at least two grid units.
    pub open spec fn spec_wf(self) -> bool {
        match self {
            Edge::V { x, y_range } => y_range.0 < y_range.1,
            Edge::H { x_range, y } => x_range.0 < x_range.1,
        }
    }

    /// `v` lies strictly inside the open interval `interval`.
    pub open spec fn spec_in_interval(v: int, interval: (usize, usize)) -> bool {
        interval.0 < v < interval.1
    }

    /// The open intervals `(a.0, a.1)` and `(b.0, b.1)` share a point:
    /// the larger of the lower bounds lies strictly below the smaller of
    /// the upper bounds.
    pub open spec fn spec_intervals_overlap(a: (usize, usize), b: (usize, usize)) -> bool {
        (if a.0 >= b.0 {
            a.0
        } else {
            b.0
        }) < (if a.1 <= b.1 {
            a.1
        } else {
            b.1
        })
    }

    /// The crossing test: perpendicular edges cross when each one's fixed
    /// coordinate lies strictly inside the other's range; collinear edges
    /// cross when their open ranges overlap.  Endpoints that merely touch do
    /// not cross.
    pub open spec fn spec_intersects(self, other: Edge) -> bool {
        match (self, other) {
            (Edge::V { x, y_range }, Edge::V { x: x2, y_range: y_range2 }) => {
                x == x2 && Edge::spec_intervals_overlap(y_range, y_range2)
            },
            (Edge::H { y, x_range }, Edge::H { y: y2, x_range: x_range2 }) => {
                y == y2 && Edge::spec_intervals_overlap(x_range, x_range2)
            },
            (Edge::H { y, x_range }, Edge::V { x, y_range }) => {
                Edge::spec_in_interval(x as int, x_range) && Edge::spec_in_interval(
                    y as int,
                    y_range,
                )
            },
            (Edge::V { x, y_range }, Edge::H { y, x_range }) => {
                Edge::spec_in_interval(x as int, x_range) && Edge::spec_in_interval(
                    y as int,
                    y_range,
                )
            },
        }
    }

    /// The first endpoint (leftmost or topmost island position).
    pub open spec fn spec_p1(self) -> (usize, usize) {
        match self {
            Edge::H { y, x_range } => (x_range.0, y),
            Edge::V { x, y_range } => (x, y_range.0),
        }
    }

    /// The second endpoint (rightmost or bottommost island position).
    pub open spec fn spec_p2(self) -> (usize, usize) {
        match self {
            Edge::H { y, x_range } => (x_range.1, y),
            Edge::V { x, y_range } => (x, y_range.1),
        }
    }

    /// How many grid cells the segment covers, endpoints included.
    pub open spec fn spec_point_count(self) -> int {
        match self {
            Edge::H { y, x_range } => x_range.1 - x_range.0 + 1,
            Edge::V { x, y_range } => y_range.1 - y_range.0 + 1,
        }
    }

    /// The `k`-th grid cell of the segment, walking from the first endpoint.
    pub open spec fn spec_point(self, k: int) -> (usize, usize) {
        match self {
            Edge::H { y, x_range } => ((x_range.0 + k) as usize, y),
            Edge::V { x, y_range } => (x, (y_range.0 + k) as usize),
        }
    }

    /// The larger endpoint coordinate along the segment's axis.
    pub open spec fn spec_hi(self) -> usize {
        match self {
            Edge::H { y, x_range } => x_range.1,
            Edge::V { x, y_range } => y_range.1,
        }
    }

    /// The segment passes through the grid cell `(x, y)`.
    pub open spec fn spec_covers(self, x: int, y: int) -> bool {
        match self {
            Edge::H { y: ey, x_range } => y == ey && x_range.0 <= x <= x_range.1,
            Edge::V { x: ex, y_range } => x == ex && y_range.0 <= y <= y_range.1,
        }
    }

    /// The glyph that renders the edge at a given multiplicity.
    pub open spec fn spec_char(self, num_edges: NumEdges) -> char {
        match (self, num_edges) {
            (Edge::H { .. }, NumEdges::Zero) => ' ',
            (Edge::V { .. }, NumEdges::Zero) => ' ',
            (Edge::H { .. }, NumEdges::One) => '-',
            (Edge::V { .. }, NumEdges::One) => '|',
            (Edge::H { .. }, NumEdges::Two) => '=',
            (Edge::V { .. }, NumEdges::Two) => '‖',
        }
    }

    /// `v` lies strictly inside the open interval.  The interval must be
    /// non-empty; an empty interval is a programming error upstream.
    pub fn value_in_interval(v: usize, interval: (usize, usize)) -> (r: bool)
        requires
            interval.0 < interval.1,
        ensures
            r == Edge::spec_in_interval(v as int, interval),
    {
        v > interval.0 && v < interval.1
    }

    /// The open intervals over `a` and `b` share a point.
    pub fn interval_intersects(a: (usize, usize), b: (usize, usize)) -> (r: bool)
        ensures
            r == Edge::spec_intervals_overlap(a, b),
    {
        let lo = if a.0 >= b.0 {
            a.0
        } else {
            b.0
        };
        let hi = if a.1 <= b.1 {
            a.1
        } else {
            b.1
        };
        lo < hi
    }

    /// Whether bridges on `self` and `other` would cross.
    pub fn intersects(self, other: Edge) -> (r: bool)
        requires
            self.spec_wf(),
            other.spec_wf(),
        ensures
            r == self.spec_intersects(other),
    {
        match (self, other) {
            (Edge::V { x, y_range }, Edge::V { x: x2, y_range: y_range2 }) => {
                x == x2 && Edge::interval_intersects(y_range, y_range2)
            },
            (Edge::H { y, x_range }, Edge::H { y: y2, x_range: x_range2 }) => {
                y == y2 && Edge::interval_intersects(x_range, x_range2)
            },
            (Edge::H { y, x_range }, Edge::V { x, y_range }) => {
                Edge::value_in_interval(x, x_range) && Edge::value_in_interval(y, y_range)
            },
            (Edge::V { x, y_range }, Edge::H { y, x_range }) => {
                Edge::value_in_interval(x, x_range) && Edge::value_in_interval(y, y_range)
            },
        }
    }

    /// Both endpoints of the segment.
    pub fn endpoints(self) -> (r: ((usize, usize), (usize, usize)))
        ensures
            r.0 == self.spec_p1(),
            r.1 == self.spec_p2(),
    {
        match self {
            Edge::H { y, x_range } => ((x_range.0, y), (x_range.1, y)),
            Edge::V { x, y_range } => ((x, y_range.0), (x, y_range.1)),
        }
    }

    /// Every grid cell the segment covers, from the first endpoint to the
    /// second.
    pub fn points(self) -> (r: Vec<(usize, usize)>)
        requires
            self.spec_wf(),
            self.spec_hi() < usize::MAX,
        ensures
            r@.len() == self.spec_point_count(),
            forall|k: int| 0 <= k < r@.len() ==> r@[k] == self.spec_point(k),
    {
        let mut r: Vec<(usize, usize)> = Vec::new();
        match self {
            Edge::H { y, x_range } => {
                let mut x: usize = x_range.0;
                while x <= x_range.1
                    invariant
                        x_range.0 <= x <= x_range.1 + 1,
                        x_range.1 < usize::MAX,
                        r@.len() == x - x_range.0,
                        forall|k: int|
                            0 <= k < r@.len() ==> r@[k] == (Edge::H { y, x_range }).spec_point(k),
                    decreases x_range.1 + 1 - x,
                {
                    r.push((x, y));
                    x = x + 1;
                }
            },
            Edge::V { x, y_range } => {
                let mut y: usize = y_range.0;
                while y <= y_range.1
                    invariant
                        y_range.0 <= y <= y_range.1 + 1,
                        y_range.1 < usize::MAX,
                        r@.len() == y - y_range.0,
                        forall|k: int|
                            0 <= k < r@.len() ==> r@[k] == (Edge::V { x, y_range }).spec_point(k),
                    decreases y_range.1 + 1 - y,
                {
                    r.push((x, y));
                    y = y + 1;
                }
            },
        }
        r
    }

    /// The glyph for the edge at a given multiplicity.
    pub fn as_char(self, num_edges: NumEdges) -> (r: char)
        ensures
            r == self.spec_char(num_edges),
    {
        match (self, num_edges) {
            (Edge::H { .. }, NumEdges::Zero) => ' ',
            (Edge::V { .. }, NumEdges::Zero) => ' ',
            (Edge::H { .. }, NumEdges::One) => '-',
            (Edge::V { .. }, NumEdges::One) => '|',
            (Edge::H { .. }, NumEdges::Two) => '=',
            (Edge::V { .. }, NumEdges::Two) => '‖',
        }
    }
}

} // verus!
