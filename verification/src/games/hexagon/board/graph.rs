//! The graph of the board: corners shared by hexagons become one node, edges shared by
//! hexagons become one road.
use crate::games::hexagon::board::layout::centre_of;
use crate::games::hexagon::board::{
    BoardView, BuildingType, Centroid, Coordinate, GameBoard, Hexagon, HexagonView, Node,
    NodeView, Road, RoadView,
};
use crate::search::{
    first_match, is_first_match, is_value, lemma_first_match_facts, lemma_first_match_is,
    lemma_first_match_none,
};
use vstd::prelude::*;

verus! {

/// The largest distance from the origin, in lattice steps, at which a centre may lie for
/// its corners to be computed.
pub const REACH: i64 = 4_000_000_000_000_000_000;

/// Whether a point lies within `REACH` of the origin in both directions.
pub open spec fn within_reach(p: Coordinate) -> bool {
    -REACH <= p.x <= REACH && -REACH <= p.y <= REACH
}

/// The way from a centre to its corner `k`, in lattice steps: the corners go round from
/// the one straight above the centre, a sixth of a turn at a time.
pub open spec fn corner_step(k: int) -> (int, int) {
    if k == 0 {
        (0, 2)
    } else if k == 1 {
        (1, 1)
    } else if k == 2 {
        (1, -1)
    } else if k == 3 {
        (0, -2)
    } else if k == 4 {
        (-1, -1)
    } else {
        (-1, 1)
    }
}

/// Corner `k` of the hexagon with this centre.
pub open spec fn corner_of(spacing: int, centre: Coordinate, k: int) -> Coordinate {
    Coordinate {
        x: (centre.x + spacing * corner_step(k).0) as i64,
        y: (centre.y + spacing * corner_step(k).1) as i64,
    }
}

/// The six corners of the hexagon with this centre.
pub open spec fn corners_of(spacing: int, centre: Coordinate) -> Seq<Coordinate> {
    Seq::new(6, |k: int| corner_of(spacing, centre, k))
}

/// The corners of all hexagons, six for each, before shared corners are made one.
pub open spec fn raw_corners(spacing: int, centroids: Seq<Centroid>) -> Seq<Coordinate> {
    Seq::new(6 * centroids.len(), |i: int| corner_of(spacing, centroids[i / 6].loc, i % 6))
}

/// Edge `e` of the hexagons' outlines, by the raw corners it joins: each hexagon has six,
/// the first from its last corner to its first, the others from one corner to the next.
pub open spec fn raw_edge(e: int) -> (int, int) {
    let base = 6 * (e / 6);
    let step = e % 6;
    if step == 0 {
        (base + 5, base)
    } else {
        (base + step - 1, base + step)
    }
}

/// The points of a list without repetitions, each where it first occurs.
pub open spec fn unique_points(raw: Seq<Coordinate>) -> Seq<Coordinate>
    decreases raw.len(),
{
    if raw.len() == 0 {
        Seq::empty()
    } else {
        let before = unique_points(raw.drop_last());
        if first_match(before, is_value(raw.last())) is Some {
            before
        } else {
            before.push(raw.last())
        }
    }
}

/// The place of a point in a list; 0 where the list does not hold it.
pub open spec fn place_of(points: Seq<Coordinate>, p: Coordinate) -> int {
    match first_match(points, is_value(p)) {
        Some(j) => j,
        None => 0,
    }
}

/// The edges of all hexagons by the nodes they join, before shared edges are made one.
pub open spec fn merged_edges(raw: Seq<Coordinate>) -> Seq<(int, int)> {
    Seq::new(
        raw.len(),
        |e: int|
            (
                place_of(unique_points(raw), raw[raw_edge(e).0]),
                place_of(unique_points(raw), raw[raw_edge(e).1]),
            ),
    )
}

/// Whether two edges join the same two nodes, in either direction.
pub open spec fn same_edge(a: (int, int), b: (int, int)) -> bool {
    (a.0 == b.0 && a.1 == b.1) || (a.0 == b.1 && a.1 == b.0)
}

/// Whether a list of edges holds one that joins the same two nodes as `e`.
pub open spec fn holds_edge(kept: Seq<(int, int)>, e: (int, int)) -> bool {
    exists|j: int| 0 <= j < kept.len() && same_edge(#[trigger] kept[j], e)
}

/// The edges of a list without repetitions in either direction, each where it first
/// occurs.
pub open spec fn unique_edges(edges: Seq<(int, int)>) -> Seq<(int, int)>
    decreases edges.len(),
{
    if edges.len() == 0 {
        Seq::empty()
    } else {
        let before = unique_edges(edges.drop_last());
        if holds_edge(before, edges.last()) {
            before
        } else {
            before.push(edges.last())
        }
    }
}

/// An empty node at this point.
pub open spec fn empty_node(p: Coordinate) -> NodeView {
    NodeView { loc: p, player_key: None, building_type: BuildingType::Empty }
}

/// A road that nobody owns along this edge.
pub open spec fn free_road(e: (int, int)) -> RoadView {
    RoadView { inds: e, player_key: None }
}

/// The board after its graph has been derived from its centroids: every hexagon has its
/// six corners, the nodes are the corners without repetitions, and the roads are the
/// hexagons' edges between those nodes without repetitions.
pub open spec fn with_graph(board: BoardView, spacing: int) -> BoardView {
    let raw = raw_corners(spacing, board.centroids);
    BoardView {
        hexagons: Seq::new(
            board.hexagons.len(),
            |i: int|
                HexagonView {
                    vertices: corners_of(spacing, board.centroids[i].loc),
                    ..board.hexagons[i]
                },
        ),
        nodes: unique_points(raw).map_values(|p: Coordinate| empty_node(p)),
        roads: unique_edges(merged_edges(raw)).map_values(|e: (int, int)| free_road(e)),
        ..board
    }
}

impl BoardView {
    /// What holds of every board that has been set up: each centroid has its hexagon, no
    /// two nodes lie at one point, every road joins two nodes of the board, no two roads
    /// join the same two nodes, and the scorpion sits on a hexagon of the board.
    pub open spec fn wf(self) -> bool {
        &&& self.hexagons.len() == self.centroids.len()
        &&& forall|i: int, j: int|
            0 <= i < j < self.nodes.len() ==> (#[trigger] self.nodes[i]).loc != (
            #[trigger] self.nodes[j]).loc
        &&& forall|j: int|
            0 <= j < self.roads.len() ==> 0 <= (#[trigger] self.roads[j]).inds.0
                < self.nodes.len() && 0 <= self.roads[j].inds.1 < self.nodes.len()
        &&& forall|i: int, j: int|
            0 <= i < j < self.roads.len() ==> !same_edge(
                (#[trigger] self.roads[i]).inds,
                (#[trigger] self.roads[j]).inds,
            )
        &&& self.scorpion_index matches Some(s) ==> 0 <= s < self.hexagons.len()
    }
}

/// Two hexagons side by side in a row share two corners, and share them exactly: the
/// second and third corner of the one on the left are the sixth and fifth of the one on
/// the right.
pub proof fn law_side_by_side_share_corners(spacing: int, row: int, place: int)
    requires
        0 <= spacing <= 255,
        -127 <= row <= 127,
        0 <= place < 254,
    ensures
        corner_of(spacing, centre_of(spacing, (row, place)), 1) == corner_of(
            spacing,
            centre_of(spacing, (row, place + 1)),
            5,
        ),
        corner_of(spacing, centre_of(spacing, (row, place)), 2) == corner_of(
            spacing,
            centre_of(spacing, (row, place + 1)),
            4,
        ),
{
    let away = if row < 0 {
        -row
    } else {
        row
    };
    assert(spacing * (away + 2 * place) + spacing * 1 == spacing * (away + 2 * (place + 1))
        + spacing * (-1)) by (nonlinear_arith);
    assert(0 <= spacing * (away + 2 * place) <= 255 * 800) by (nonlinear_arith)
        requires
            0 <= spacing <= 255,
            0 <= away + 2 * place <= 800,
    ;
    assert(0 <= spacing * (away + 2 * (place + 1)) <= 255 * 800) by (nonlinear_arith)
        requires
            0 <= spacing <= 255,
            0 <= away + 2 * (place + 1) <= 800,
    ;
    assert(-255 * 400 <= spacing * (3 * row) <= 255 * 400) by (nonlinear_arith)
        requires
            0 <= spacing <= 255,
            -400 <= 3 * row <= 400,
    ;
}

/// A hexagon shares its top corner with the two hexagons above it: the corner is the
/// third of the one above on the left and the fifth of the one above on the right. In
/// the rows above the middle the row above is the longer one, and its hexagons at the
/// same place and at the next place are the two.
pub proof fn law_rows_share_corners(spacing: int, row: int, place: int)
    requires
        0 <= spacing <= 255,
        -127 <= row < 0,
        0 <= place < 254,
    ensures
        corner_of(spacing, centre_of(spacing, (row, place)), 0) == corner_of(
            spacing,
            centre_of(spacing, (row + 1, place)),
            2,
        ),
        corner_of(spacing, centre_of(spacing, (row, place)), 0) == corner_of(
            spacing,
            centre_of(spacing, (row + 1, place + 1)),
            4,
        ),
{
    let away = -row;
    assert(spacing * (away + 2 * place) + spacing * 0 == spacing * (away - 1 + 2 * place)
        + spacing * 1) by (nonlinear_arith);
    assert(spacing * (away + 2 * place) + spacing * 0 == spacing * (away - 1 + 2 * (place + 1))
        + spacing * (-1)) by (nonlinear_arith);
    assert(spacing * (3 * row) + spacing * 2 == spacing * (3 * (row + 1)) + spacing * (-1))
        by (nonlinear_arith);
    assert(0 <= spacing * (away + 2 * place) <= 255 * 800) by (nonlinear_arith)
        requires
            0 <= spacing <= 255,
            0 <= away + 2 * place <= 800,
    ;
    assert(0 <= spacing * (away - 1 + 2 * place) <= 255 * 800) by (nonlinear_arith)
        requires
            0 <= spacing <= 255,
            0 <= away - 1 + 2 * place <= 800,
    ;
    assert(0 <= spacing * (away - 1 + 2 * (place + 1)) <= 255 * 800) by (nonlinear_arith)
        requires
            0 <= spacing <= 255,
            0 <= away - 1 + 2 * (place + 1) <= 800,
    ;
    assert(-255 * 400 <= spacing * (3 * row) <= 255 * 400) by (nonlinear_arith)
        requires
            0 <= spacing <= 255,
            -400 <= 3 * row <= 400,
    ;
    assert(-255 * 400 <= spacing * (3 * (row + 1)) <= 255 * 400) by (nonlinear_arith)
        requires
            0 <= spacing <= 255,
            -400 <= 3 * (row + 1) <= 400,
    ;
}

/// A list without repetitions holds no point twice, holds every point of the list it was
/// made from, and is no longer than that list.
pub proof fn lemma_unique_points(raw: Seq<Coordinate>)
    ensures
        unique_points(raw).len() <= raw.len(),
        forall|i: int, j: int|
            0 <= i < j < unique_points(raw).len() ==> unique_points(raw)[i] != unique_points(
                raw,
            )[j],
        forall|k: int|
            0 <= k < raw.len() ==> {
                let j = place_of(unique_points(raw), #[trigger] raw[k]);
                0 <= j < unique_points(raw).len() && unique_points(raw)[j] == raw[k]
            },
    decreases raw.len(),
{
    if raw.len() > 0 {
        let front = raw.drop_last();
        let before = unique_points(front);
        let last = raw.last();
        lemma_unique_points(front);
        lemma_first_match_facts(before, is_value(last));
        let after = unique_points(raw);
        assert forall|k: int| 0 <= k < raw.len() implies {
            let j = place_of(after, #[trigger] raw[k]);
            0 <= j < after.len() && after[j] == raw[k]
        } by {
            let p = raw[k];
            if k < front.len() {
                assert(front[k] == p);
                let j = place_of(before, p);
                lemma_first_match_facts(before, is_value(p));
                assert(before[j] == p);
                assert(is_first_match(after, is_value(p), j)) by {
                    assert forall|i: int| 0 <= i < j implies !is_value(p)(
                        #[trigger] after[i],
                    ) by {
                        assert(after[i] == before[i]);
                    }
                }
                lemma_first_match_is(after, is_value(p), j);
            } else {
                lemma_first_match_facts(after, is_value(p));
                if first_match(before, is_value(last)) is None {
                    assert(after[before.len() as int] == last);
                    assert(is_value(p)(after[before.len() as int]));
                }
            }
        }
    }
}

/// A list of edges without repetitions holds no edge twice in either direction, and
/// every edge it holds is one of the list it was made from.
pub proof fn lemma_unique_edges(edges: Seq<(int, int)>)
    ensures
        unique_edges(edges).len() <= edges.len(),
        forall|i: int, j: int|
            0 <= i < j < unique_edges(edges).len() ==> !same_edge(
                unique_edges(edges)[i],
                unique_edges(edges)[j],
            ),
        forall|j: int|
            0 <= j < unique_edges(edges).len() ==> edges.contains(
                #[trigger] unique_edges(edges)[j],
            ),
    decreases edges.len(),
{
    if edges.len() > 0 {
        let front = edges.drop_last();
        let before = unique_edges(front);
        lemma_unique_edges(front);
        let after = unique_edges(edges);
        assert forall|j: int| 0 <= j < after.len() implies edges.contains(
            #[trigger] after[j],
        ) by {
            if j < before.len() {
                assert(after[j] == before[j]);
                let k = choose|k: int| 0 <= k < front.len() && front[k] == before[j];
                assert(edges[k] == after[j]);
            } else {
                assert(edges[edges.len() - 1] == after[j]);
            }
        }
    }
}

/// The corner `k` of the hexagon with this centre.
pub fn corner(spacing: u8, centre: Coordinate, k: usize) -> (p: Coordinate)
    requires
        within_reach(centre),
        k < 6,
    ensures
        p == corner_of(spacing as int, centre, k as int),
{
    let wide: i64 = spacing as i64;
    let (dx, dy): (i64, i64) = if k == 0 {
        (0, 2)
    } else if k == 1 {
        (1, 1)
    } else if k == 2 {
        (1, -1)
    } else if k == 3 {
        (0, -2)
    } else if k == 4 {
        (-1, -1)
    } else {
        (-1, 1)
    };
    assert(-510 <= wide * dx <= 510 && -510 <= wide * dy <= 510) by (nonlinear_arith)
        requires
            0 <= wide <= 255,
            -2 <= dx <= 2,
            -2 <= dy <= 2,
    ;
    Coordinate { x: centre.x + wide * dx, y: centre.y + wide * dy }
}

/// The place of the first point of a list that is `p`.
pub fn find_point(points: &Vec<Coordinate>, p: Coordinate) -> (place: Option<usize>)
    ensures
        match place {
            Some(j) => first_match(points@, is_value(p)) == Some(j as int) && j < points.len(),
            None => first_match(points@, is_value(p)) is None,
        },
{
    let ghost wanted = is_value(p);
    let mut i: usize = 0;
    while i < points.len()
        invariant
            i <= points.len(),
            wanted == is_value(p),
            forall|j: int| 0 <= j < i ==> !wanted(#[trigger] points@[j]),
        decreases points.len() - i,
    {
        if points[i].x == p.x && points[i].y == p.y {
            proof {
                assert(is_first_match(points@, wanted, i as int));
                lemma_first_match_is(points@, wanted, i as int);
            }
            return Some(i);
        }
        i += 1;
    }
    proof {
        lemma_first_match_none(points@, wanted);
    }
    None
}

/// Whether a road of the list joins nodes `a` and `b`, in either direction.
fn has_edge(roads: &Vec<Road>, a: usize, b: usize, Ghost(kept): Ghost<Seq<(int, int)>>) -> (found:
    bool)
    requires
        roads.len() == kept.len(),
        forall|j: int| 0 <= j < kept.len() ==> (#[trigger] roads@[j])@ == free_road(kept[j]),
    ensures
        found == holds_edge(kept, (a as int, b as int)),
{
    let mut i: usize = 0;
    while i < roads.len()
        invariant
            i <= roads.len(),
            roads.len() == kept.len(),
            forall|j: int| 0 <= j < kept.len() ==> (#[trigger] roads@[j])@ == free_road(kept[j]),
            forall|j: int| 0 <= j < i ==> !same_edge(#[trigger] kept[j], (a as int, b as int)),
        decreases roads.len() - i,
    {
        let inds = roads[i].inds;
        proof {
            assert(roads@[i as int]@ == free_road(kept[i as int]));
        }
        if (inds.0 == a && inds.1 == b) || (inds.0 == b && inds.1 == a) {
            proof {
                assert(same_edge(kept[i as int], (a as int, b as int)));
            }
            return true;
        }
        i += 1;
    }
    false
}

impl GameBoard {
    /// The board's own invariant.
    pub open spec fn wf(&self) -> bool {
        self@.wf()
    }

    /// Whether the board keeps its invariant.
    pub fn is_wf(&self) -> (sound: bool)
        ensures
            sound == self.wf(),
    {
        let ghost board = self@;
        if self.hexagons.len() != self.centroids.len() {
            return false;
        }
        match self.scorpion_index {
            Some(s) => {
                if s >= self.hexagons.len() {
                    return false;
                }
            },
            None => {},
        }
        let mut j: usize = 0;
        while j < self.nodes.len()
            invariant
                j <= self.nodes.len(),
                board == self@,
                forall|a: int, b: int|
                    0 <= a < b < j ==> (#[trigger] board.nodes[a]).loc != (
                    #[trigger] board.nodes[b]).loc,
            decreases self.nodes.len() - j,
        {
            let p = self.nodes[j].loc;
            let mut i: usize = 0;
            while i < j
                invariant
                    i <= j,
                    j < self.nodes.len(),
                    board == self@,
                    p == board.nodes[j as int].loc,
                    forall|a: int| 0 <= a < i ==> (#[trigger] board.nodes[a]).loc != p,
                decreases j - i,
            {
                let q = self.nodes[i].loc;
                if q.x == p.x && q.y == p.y {
                    proof {
                        assert(board.nodes[i as int].loc == board.nodes[j as int].loc);
                    }
                    return false;
                }
                i += 1;
            }
            j += 1;
        }
        let mut j: usize = 0;
        while j < self.roads.len()
            invariant
                j <= self.roads.len(),
                board == self@,
                forall|a: int|
                    0 <= a < j ==> 0 <= (#[trigger] board.roads[a]).inds.0 < board.nodes.len()
                        && 0 <= board.roads[a].inds.1 < board.nodes.len(),
                forall|a: int, b: int|
                    0 <= a < b < j ==> !same_edge(
                        (#[trigger] board.roads[a]).inds,
                        (#[trigger] board.roads[b]).inds,
                    ),
            decreases self.roads.len() - j,
        {
            let ends = self.roads[j].inds;
            proof {
                assert(board.roads[j as int].inds == (ends.0 as int, ends.1 as int));
            }
            if ends.0 >= self.nodes.len() || ends.1 >= self.nodes.len() {
                return false;
            }
            let mut i: usize = 0;
            while i < j
                invariant
                    i <= j,
                    j < self.roads.len(),
                    board == self@,
                    board.roads[j as int].inds == (ends.0 as int, ends.1 as int),
                    forall|a: int|
                        0 <= a < i ==> !same_edge(
                            (#[trigger] board.roads[a]).inds,
                            board.roads[j as int].inds,
                        ),
                decreases j - i,
            {
                let other = self.roads[i].inds;
                proof {
                    assert(board.roads[i as int].inds == (other.0 as int, other.1 as int));
                }
                if (other.0 == ends.0 && other.1 == ends.1) || (other.0 == ends.1 && other.1
                    == ends.0) {
                    proof {
                        assert(same_edge(board.roads[i as int].inds, board.roads[j as int].inds));
                    }
                    return false;
                }
                i += 1;
            }
            j += 1;
        }
        true
    }

    /// Derives the graph of the board from its centroids: gives every hexagon its six
    /// corners, makes one node of every corner that hexagons share and one road of every
    /// edge that they share.
    pub fn compute_nodes_and_roads(&mut self, centroid_spacing: u8)
        requires
            old(self).hexagons.len() == old(self).centroids.len(),
            6 * old(self).centroids.len() <= usize::MAX,
            forall|i: int|
                0 <= i < old(self).centroids.len() ==> within_reach(
                    (#[trigger] old(self).centroids[i]).loc,
                ),
        ensures
            final(self)@ == with_graph(old(self)@, centroid_spacing as int),
    {
        let n = self.centroids.len();
        let ghost spacing = centroid_spacing as int;
        let ghost raw_spec = raw_corners(spacing, self.centroids@);

        // The corners of every hexagon, and the hexagons with their corners.
        let mut raw: Vec<Coordinate> = Vec::new();
        let mut hexagons: Vec<Hexagon> = Vec::new();
        let mut idx: usize = 0;
        while idx < n
            invariant
                idx <= n,
                n == self.centroids.len(),
                n == self.hexagons.len(),
                6 * n <= usize::MAX,
                spacing == centroid_spacing as int,
                forall|i: int|
                    0 <= i < n ==> within_reach((#[trigger] self.centroids[i]).loc),
                raw.len() == 6 * idx,
                forall|i: int|
                    0 <= i < 6 * idx ==> #[trigger] raw@[i] == corner_of(
                        spacing,
                        self.centroids@[i / 6].loc,
                        i % 6,
                    ),
                hexagons.len() == idx,
                forall|i: int|
                    0 <= i < idx ==> (#[trigger] hexagons@[i])@ == (HexagonView {
                        vertices: corners_of(spacing, self.centroids@[i].loc),
                        ..self.hexagons@[i]@
                    }),
            decreases n - idx,
        {
            let centre = self.centroids[idx].loc;
            let mut vertices: Vec<Coordinate> = Vec::new();
            let mut k: usize = 0;
            while k < 6
                invariant
                    k <= 6,
                    idx < n,
                    6 * n <= usize::MAX,
                    n == self.centroids.len(),
                    within_reach(centre),
                    centre == self.centroids@[idx as int].loc,
                    spacing == centroid_spacing as int,
                    raw.len() == 6 * idx + k,
                    forall|i: int|
                        0 <= i < 6 * idx + k ==> #[trigger] raw@[i] == corner_of(
                            spacing,
                            self.centroids@[i / 6].loc,
                            i % 6,
                        ),
                    vertices.len() == k,
                    forall|j: int|
                        0 <= j < k ==> #[trigger] vertices@[j] == corner_of(spacing, centre, j),
                decreases 6 - k,
            {
                let p = corner(centroid_spacing, centre, k);
                raw.push(p);
                vertices.push(p);
                k += 1;
            }
            proof {
                assert(vertices@ =~= corners_of(spacing, centre));
            }
            hexagons.push(
                Hexagon {
                    vertices,
                    number: self.hexagons[idx].number,
                    resource: self.hexagons[idx].resource,
                },
            );
            idx += 1;
        }
        proof {
            assert(raw@ =~= raw_spec);
        }

        // One node for every corner, however many hexagons share it.
        let mut points: Vec<Coordinate> = Vec::new();
        let mut merged: Vec<usize> = Vec::new();
        let mut i: usize = 0;
        while i < raw.len()
            invariant
                i <= raw.len(),
                points@ == unique_points(raw@.take(i as int)),
                merged.len() == i,
                forall|k: int|
                    0 <= k < i ==> (#[trigger] merged@[k]) < points.len() && points@[merged@[k] as int]
                        == raw@[k],
            decreases raw.len() - i,
        {
            let p = raw[i];
            proof {
                assert(raw@.take(i + 1).drop_last() =~= raw@.take(i as int));
                assert(raw@.take(i + 1).last() == p);
            }
            match find_point(&points, p) {
                Some(j) => {
                    proof {
                        lemma_first_match_facts(points@, is_value(p));
                    }
                    merged.push(j);
                },
                None => {
                    merged.push(points.len());
                    points.push(p);
                },
            }
            i += 1;
        }
        proof {
            assert(raw@.take(raw.len() as int) =~= raw@);
            lemma_unique_points(raw@);
            assert forall|k: int| 0 <= k < raw.len() implies #[trigger] merged@[k] == place_of(
                points@,
                raw@[k],
            ) by {
                let j = merged@[k] as int;
                assert(is_first_match(points@, is_value(raw@[k]), j));
                lemma_first_match_is(points@, is_value(raw@[k]), j);
            }
        }
        let mut nodes: Vec<Node> = Vec::new();
        let mut j: usize = 0;
        while j < points.len()
            invariant
                j <= points.len(),
                nodes.len() == j,
                forall|k: int| 0 <= k < j ==> (#[trigger] nodes@[k])@ == empty_node(points@[k]),
            decreases points.len() - j,
        {
            nodes.push(
                Node { loc: points[j], player_key: None, building_type: BuildingType::Empty },
            );
            j += 1;
        }

        // One road for every edge, however many hexagons share it.
        let ghost edges = merged_edges(raw@);
        let ghost mut kept: Seq<(int, int)> = Seq::empty();
        let mut roads: Vec<Road> = Vec::new();
        let mut e: usize = 0;
        while e < raw.len()
            invariant
                e <= raw.len(),
                raw.len() == 6 * n,
                merged.len() == raw.len(),
                points@ == unique_points(raw@),
                edges == merged_edges(raw@),
                forall|k: int|
                    0 <= k < raw.len() ==> #[trigger] merged@[k] == place_of(points@, raw@[k]),
                kept == unique_edges(edges.take(e as int)),
                roads.len() == kept.len(),
                forall|j: int|
                    0 <= j < kept.len() ==> (#[trigger] roads@[j])@ == free_road(kept[j]),
            decreases raw.len() - e,
        {
            let step = e % 6;
            let base = e - step;
            let (from, to) = if step == 0 {
                (base + 5, base)
            } else {
                (base + step - 1, base + step)
            };
            proof {
                assert(base == 6 * (e as int / 6));
                assert((from as int, to as int) == raw_edge(e as int));
                assert(edges.take(e + 1).drop_last() =~= edges.take(e as int));
                assert(edges.take(e + 1).last() == (merged@[from as int] as int, merged@[to as int] as int));
            }
            let a = merged[from];
            let b = merged[to];
            if !has_edge(&roads, a, b, Ghost(kept)) {
                roads.push(Road { inds: (a, b), player_key: None });
                proof {
                    kept = kept.push((a as int, b as int));
                }
            }
            e += 1;
        }
        proof {
            assert(edges.take(raw.len() as int) =~= edges);
        }
        self.hexagons = hexagons;
        self.nodes = nodes;
        self.roads = roads;
        proof {
            let after = with_graph(old(self)@, spacing);
            assert(self@.hexagons =~= after.hexagons);
            assert(self@.nodes =~= after.nodes);
            assert(self@.roads =~= after.roads);
        }
    }
}

} // verus!
