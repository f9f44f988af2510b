//! How many nodes and roads a board has.
//!
//! The corners of all hexagons are numbered so that corners at one point get one number
//! and no number is left out; the edges are numbered in the same way. What is left once
//! shared corners and shared edges are made one is then as many as there are numbers.
use crate::games::hexagon::board::graph::{
    corner_of, corner_step, holds_edge, lemma_unique_edges, lemma_unique_points, merged_edges,
    place_of, raw_corners, raw_edge, same_edge, unique_edges, unique_points,
};
use crate::games::hexagon::board::layout::{
    centre_of, grid, grid_centroids, grid_rows, half_rows, lemma_grid_is_small, row_len,
};
use crate::games::hexagon::board::Coordinate;
use vstd::prelude::*;

verus! {

/// Every point of a list without repetitions is a point of the list it was made from.
pub proof fn lemma_unique_points_come_from(raw: Seq<Coordinate>)
    ensures
        forall|j: int|
            0 <= j < unique_points(raw).len() ==> raw.contains(#[trigger] unique_points(raw)[j]),
    decreases raw.len(),
{
    if raw.len() > 0 {
        let front = raw.drop_last();
        lemma_unique_points_come_from(front);
        let before = unique_points(front);
        let after = unique_points(raw);
        assert forall|j: int| 0 <= j < after.len() implies raw.contains(#[trigger] after[j]) by {
            if j < before.len() {
                assert(after[j] == before[j]);
                let k = choose|k: int| 0 <= k < front.len() && front[k] == before[j];
                assert(raw[k] == after[j]);
            } else {
                assert(raw[raw.len() - 1] == after[j]);
            }
        }
    }
}

/// Where every point of a list has a number from 0 up to `total`, two points have the
/// same number exactly when they are the same point, and `source` names for every number
/// a place whose point has it, the list holds `total` different points.
pub proof fn lemma_count_by_numbers(
    raw: Seq<Coordinate>,
    number: spec_fn(int) -> int,
    source: spec_fn(int) -> int,
    total: int,
)
    requires
        total >= 0,
        forall|i: int| 0 <= i < raw.len() ==> 0 <= #[trigger] number(i) < total,
        forall|i: int, j: int|
            0 <= i < raw.len() && 0 <= j < raw.len() ==> ((#[trigger] number(i)
                == #[trigger] number(j)) <==> raw[i] == raw[j]),
        forall|t: int|
            0 <= t < total ==> 0 <= #[trigger] source(t) < raw.len() && number(source(t)) == t,
    ensures
        unique_points(raw).len() == total,
{
    let points = unique_points(raw);
    lemma_unique_points(raw);
    lemma_unique_points_come_from(raw);
    let from = |j: int| choose|i: int| 0 <= i < raw.len() && raw[i] == points[j];
    let numbers = Seq::new(points.len(), |j: int| number(from(j)));
    assert forall|j: int| 0 <= j < points.len() implies 0 <= #[trigger] from(j) < raw.len()
        && raw[from(j)] == points[j] by {
        assert(raw.contains(points[j]));
    }
    assert(numbers.no_duplicates()) by {
        assert forall|j: int, k: int|
            0 <= j < numbers.len() && 0 <= k < numbers.len() && j != k implies numbers[j]
            != numbers[k] by {
            assert(raw[from(j)] == points[j]);
            assert(raw[from(k)] == points[k]);
            if j < k {
                assert(points[j] != points[k]);
            } else {
                assert(points[k] != points[j]);
            }
        }
    }
    assert(numbers.to_set() =~= vstd::set_lib::set_int_range(0, total)) by {
        assert forall|t: int| numbers.to_set().contains(t) <==> 0 <= t < total by {
            if numbers.contains(t) {
                let j = choose|j: int| 0 <= j < numbers.len() && numbers[j] == t;
                assert(0 <= from(j) < raw.len());
            }
            if 0 <= t < total {
                let i = source(t);
                let p = place_of(points, raw[i]);
                assert(points[p] == raw[i]);
                assert(raw[from(p)] == points[p]);
                assert(number(from(p)) == number(i));
                assert(numbers[p] == t);
            }
        }
    }
    numbers.unique_seq_to_set();
    vstd::set_lib::lemma_int_range(0, total);
}

/// The place in the grid of the first cell of row `r`.
pub open spec fn row_start(width: int, r: int) -> int {
    grid_rows(width, r).len() as int
}

/// The cell at place `h` of row `r` stands in the grid at the row's start plus `h`.
pub proof fn lemma_cell_place(width: int, upto: int, r: int, h: int)
    requires
        width >= 1,
        -half_rows(width) <= r < upto <= half_rows(width) + 1,
        0 <= h < row_len(width, r),
    ensures
        0 <= row_start(width, r) + h < grid_rows(width, upto).len(),
        grid_rows(width, upto)[row_start(width, r) + h] == (r, h),
    decreases upto + half_rows(width),
{
    let before = grid_rows(width, upto - 1);
    let row = Seq::new(row_len(width, upto - 1) as nat, |p: int| (upto - 1, p));
    assert(grid_rows(width, upto) == before + row);
    if r == upto - 1 {
        assert((before + row)[before.len() + h] == row[h]);
    } else {
        lemma_cell_place(width, upto - 1, r, h);
        assert((before + row)[row_start(width, r) + h] == before[row_start(width, r) + h]);
    }
}

/// The number of nodes at level `b` of a board with `n` rows on either side of the
/// middle. The levels are the heights at which nodes lie, counted from the middle.
pub open spec fn level_size(n: int, b: int) -> int {
    2 * n + 2 - if b < 0 {
        -b
    } else {
        b
    }
}

/// The number of nodes at the levels below level `b`.
pub open spec fn level_start(n: int, b: int) -> int
    decreases b + n + 1,
{
    if b <= -n - 1 {
        0
    } else {
        level_start(n, b - 1) + level_size(n, b - 1)
    }
}

/// The levels start one after the other.
pub proof fn lemma_level_start_grows(n: int, b: int, c: int)
    requires
        n >= 0,
        -n - 1 <= b <= c <= n + 1,
    ensures
        0 <= level_start(n, b) <= level_start(n, c),
    decreases c + n + 1,
{
    if b < c {
        lemma_level_start_grows(n, b, c - 1);
    } else if b > -n - 1 {
        lemma_level_start_grows(n, b - 1, b - 1);
    }
}

/// Twice the number of nodes below a level, in closed form.
proof fn lemma_level_start_closed(n: int, b: int)
    requires
        n >= 0,
        -n - 1 <= b <= n + 1,
    ensures
        b <= 1 ==> 2 * level_start(n, b) == 2 * (b + n + 1) * (n + 1) + (b + n + 1) * (b + n),
        b > 1 ==> 2 * level_start(n, b) == 3 * (n + 2) * (n + 1) + 2 * (b - 1) * (2 * n + 2) - (b
            - 1) * b,
    decreases b + n + 1,
{
    if b > -n - 1 {
        lemma_level_start_closed(n, b - 1);
        let before = level_start(n, b - 1);
        let size = level_size(n, b - 1);
        let m = b + n + 1;
        if b <= 1 {
            assert(size == n + m);
            assert(2 * (before + size) == 2 * m * (n + 1) + m * (m - 1)) by (nonlinear_arith)
                requires
                    2 * before == 2 * (m - 1) * (n + 1) + (m - 1) * (m - 2),
                    size == n + m,
            ;
        } else if b == 2 {
            assert(size == 2 * n + 1);
            assert(2 * (before + size) == 3 * (n + 2) * (n + 1) + 2 * (b - 1) * (2 * n + 2) - (b
                - 1) * b) by (nonlinear_arith)
                requires
                    2 * before == 2 * (1 + n + 1) * (n + 1) + (1 + n + 1) * (1 + n),
                    size == 2 * n + 1,
                    b == 2,
            ;
        } else {
            assert(size == 2 * n + 2 - (b - 1));
            assert(2 * (before + size) == 3 * (n + 2) * (n + 1) + 2 * (b - 1) * (2 * n + 2) - (b
                - 1) * b) by (nonlinear_arith)
                requires
                    2 * before == 3 * (n + 2) * (n + 1) + 2 * (b - 2) * (2 * n + 2) - (b - 2)
                        * (b - 1),
                    size == 2 * n + 2 - (b - 1),
            ;
        }
    } else {
        let m = b + n + 1;
        assert(2 * m * (n + 1) + m * (m - 1) == 0) by (nonlinear_arith)
            requires
                m == 0,
        ;
    }
}

/// All levels together hold three times the square of `n + 1` nodes of each kind.
pub proof fn lemma_level_total(n: int)
    requires
        n >= 0,
    ensures
        level_start(n, n + 1) == 3 * (n + 1) * (n + 1),
{
    lemma_level_start_closed(n, n + 1);
    let square = (n + 1) * (n + 1);
    assert(6 * (n + 1) * (n + 1) == 6 * square && 3 * (n + 1) * (n + 1) == 3 * square)
        by (nonlinear_arith)
        requires
            square == (n + 1) * (n + 1),
    ;
    if n == 0 {
        assert(2 * level_start(n, n + 1) == 6 * (n + 1) * (n + 1)) by (nonlinear_arith)
            requires
                2 * level_start(n, n + 1) == 2 * (n + 1 + n + 1) * (n + 1) + (n + 1 + n + 1) * (n
                    + 1 + n),
                n == 0,
        ;
    } else {
        assert(2 * level_start(n, n + 1) == 6 * (n + 1) * (n + 1)) by (nonlinear_arith)
            requires
                2 * level_start(n, n + 1) == 3 * (n + 2) * (n + 1) + 2 * (n + 1 - 1) * (2 * n
                    + 2) - (n + 1 - 1) * (n + 1),
        ;
    }
}

/// The level that holds the node with number `t` among the levels up to `b`.
pub open spec fn level_holding(n: int, t: int, b: int) -> int
    decreases b + n + 1,
{
    if b <= -n - 1 || t >= level_start(n, b) {
        b
    } else {
        level_holding(n, t, b - 1)
    }
}

/// The level that holds a number starts at or below it and ends above it.
pub proof fn lemma_level_holding(n: int, t: int, b: int)
    requires
        n >= 0,
        -n - 1 <= b <= n,
        0 <= t < level_start(n, b + 1),
    ensures
        -n - 1 <= level_holding(n, t, b) <= b,
        level_start(n, level_holding(n, t, b)) <= t < level_start(n, level_holding(n, t, b) + 1),
    decreases b + n + 1,
{
    if b > -n - 1 && t < level_start(n, b) {
        lemma_level_holding(n, t, b - 1);
    }
}

/// The distance of a number from zero.
pub open spec fn away(r: int) -> int {
    if r < 0 {
        -r
    } else {
        r
    }
}

/// Where corner `k` of a cell lies, in lattice steps of one spacing.
pub open spec fn corner_at(cell: (int, int), k: int) -> (int, int) {
    (away(cell.0) + 2 * cell.1 + corner_step(k).0, 3 * cell.0 + corner_step(k).1)
}

/// Whether a cell is a cell of the board with `n` rows on either side of the middle.
pub open spec fn is_cell(n: int, cell: (int, int)) -> bool {
    -n <= cell.0 <= n && 0 <= cell.1 < 2 * n + 1 - away(cell.0)
}

/// The level of a height. Heights that leave 1 when divided by 3 count upwards from the
/// middle, the others count downwards, so that both kinds of level have the same sizes.
pub open spec fn level_of(y: int) -> int {
    if y % 3 == 1 {
        (y - 1) / 3
    } else {
        -(y + 1) / 3
    }
}

/// The place of a point among the points of its level, from the left.
pub open spec fn place_in_level(p: (int, int)) -> int {
    (p.0 - (away(level_of(p.1)) - 1)) / 2
}

/// Whether a point is one of the places where a board with `n` rows on either side of
/// the middle has a node.
pub open spec fn is_node_place(n: int, p: (int, int)) -> bool {
    &&& p.1 % 3 == 1 || p.1 % 3 == 2
    &&& -n - 1 <= level_of(p.1) <= n
    &&& (p.0 - (away(level_of(p.1)) - 1)) % 2 == 0
    &&& 0 <= place_in_level(p) < level_size(n, level_of(p.1))
}

/// The number of a node place: the places are numbered level by level and from the left
/// within a level, first those of one kind of level and then those of the other.
pub open spec fn node_number(n: int, p: (int, int)) -> int {
    (if p.1 % 3 == 2 {
        level_start(n, n + 1)
    } else {
        0
    }) + level_start(n, level_of(p.1)) + place_in_level(p)
}

/// Every corner of every cell lies at a node place.
pub proof fn lemma_corners_are_node_places(n: int, cell: (int, int), k: int)
    requires
        n >= 0,
        is_cell(n, cell),
        0 <= k < 6,
    ensures
        is_node_place(n, corner_at(cell, k)),
{
}

/// The node places have numbers from 0 up to six times the square of `n + 1`, and no two
/// of them have the same number.
pub proof fn lemma_node_numbers(n: int, p: (int, int), q: (int, int))
    requires
        n >= 0,
        is_node_place(n, p),
        is_node_place(n, q),
    ensures
        0 <= node_number(n, p) < 2 * level_start(n, n + 1),
        node_number(n, p) == node_number(n, q) ==> p == q,
{
    let b = level_of(p.1);
    let c = level_of(q.1);
    lemma_level_start_grows(n, b, b);
    lemma_level_start_grows(n, b + 1, n + 1);
    lemma_level_start_grows(n, c, c);
    lemma_level_start_grows(n, c + 1, n + 1);
    if node_number(n, p) == node_number(n, q) {
        if b < c {
            lemma_level_start_grows(n, b + 1, c);
        } else if c < b {
            lemma_level_start_grows(n, c + 1, b);
        }
    }
}

/// The cell and the corner at which the node place with number `t` lies.
pub open spec fn source_corner(n: int, t: int) -> ((int, int), int) {
    let half = level_start(n, n + 1);
    if t < half {
        let b = level_holding(n, t, n);
        let j = t - level_start(n, b);
        if b == -n - 1 {
            ((-n, j), 3)
        } else if j < 2 * n + 1 - away(b) {
            ((b, j), 5)
        } else {
            ((b, j - 1), 1)
        }
    } else {
        let b = level_holding(n, t - half, n);
        let j = t - half - level_start(n, b);
        if b <= -1 {
            ((-b - 1, j), 0)
        } else if j < 2 * n + 1 - b {
            ((-b, j), 4)
        } else {
            ((-b, j - 1), 2)
        }
    }
}

/// Every number below six times the square of `n + 1` is the number of a corner of a cell.
pub proof fn lemma_source_corner(n: int, t: int)
    requires
        n >= 0,
        0 <= t < 2 * level_start(n, n + 1),
    ensures
        is_cell(n, source_corner(n, t).0),
        0 <= source_corner(n, t).1 < 6,
        node_number(n, corner_at(source_corner(n, t).0, source_corner(n, t).1)) == t,
{
    let half = level_start(n, n + 1);
    if t < half {
        lemma_level_holding(n, t, n);
    } else {
        lemma_level_holding(n, t - half, n);
    }
}

/// The number of nodes on a board whose half has `n` rows.
pub open spec fn node_count(n: int) -> int {
    6 * (n + 1) * (n + 1)
}

/// Where the raw corner at place `i` lies: at the lattice place of its cell's corner,
/// taken `spacing` times.
proof fn lemma_raw_corner(spacing: int, width: int, i: int)
    requires
        1 <= spacing <= 255,
        1 <= width <= 255,
        width % 2 == 1,
        0 <= i < 6 * grid(width).len(),
    ensures
        is_cell(half_rows(width), grid(width)[i / 6]),
        raw_corners(spacing, grid_centroids(spacing, width))[i].x == spacing * corner_at(
            grid(width)[i / 6],
            i % 6,
        ).0,
        raw_corners(spacing, grid_centroids(spacing, width))[i].y == spacing * corner_at(
            grid(width)[i / 6],
            i % 6,
        ).1,
{
    let n = half_rows(width);
    let cell = grid(width)[i / 6];
    let k = i % 6;
    lemma_grid_is_small(width, n + 1);
    assert(is_cell(n, cell));
    let centre = centre_of(spacing, cell);
    let step = corner_step(k);
    let across = away(cell.0) + 2 * cell.1;
    assert(0 <= spacing * across <= 255 * 800) by (nonlinear_arith)
        requires
            1 <= spacing <= 255,
            0 <= across <= 800,
    ;
    assert(-255 * 400 <= spacing * (3 * cell.0) <= 255 * 400) by (nonlinear_arith)
        requires
            1 <= spacing <= 255,
            -400 <= 3 * cell.0 <= 400,
    ;
    assert(-510 <= spacing * step.0 <= 510 && -510 <= spacing * step.1 <= 510)
        by (nonlinear_arith)
        requires
            1 <= spacing <= 255,
            -2 <= step.0 <= 2,
            -2 <= step.1 <= 2,
    ;
    assert(spacing * across + spacing * step.0 == spacing * (across + step.0))
        by (nonlinear_arith);
    assert(spacing * (3 * cell.0) + spacing * step.1 == spacing * (3 * cell.0 + step.1))
        by (nonlinear_arith);
    assert(centre.x == spacing * across);
    assert(centre.y == spacing * (3 * cell.0));
    assert(grid_centroids(spacing, width)[i / 6].loc == centre);
    assert(raw_corners(spacing, grid_centroids(spacing, width))[i] == corner_of(
        spacing,
        centre,
        k,
    ));
}

/// A board of odd width with `n` rows on either side of the middle has six times the
/// square of `n + 1` different corners, whatever the spacing.
pub proof fn law_node_count(spacing: int, width: int)
    requires
        1 <= spacing <= 255,
        1 <= width <= 255,
        width % 2 == 1,
    ensures
        unique_points(raw_corners(spacing, grid_centroids(spacing, width))).len() == node_count(
            half_rows(width),
        ),
{
    let n = half_rows(width);
    let raw = raw_corners(spacing, grid_centroids(spacing, width));
    let total = 2 * level_start(n, n + 1);
    let number = |i: int| node_number(n, corner_at(grid(width)[i / 6], i % 6));
    let source = |t: int|
        6 * (row_start(width, source_corner(n, t).0.0) + source_corner(n, t).0.1) + source_corner(
            n,
            t,
        ).1;
    lemma_level_total(n);
    assert(total == node_count(n)) by (nonlinear_arith)
        requires
            total == 2 * level_start(n, n + 1),
            level_start(n, n + 1) == 3 * (n + 1) * (n + 1),
            node_count(n) == 6 * (n + 1) * (n + 1),
    ;
    assert(total >= 0) by (nonlinear_arith)
        requires
            total == 6 * (n + 1) * (n + 1),
    ;
    assert(raw.len() == 6 * grid(width).len());
    assert forall|i: int| 0 <= i < raw.len() implies 0 <= #[trigger] number(i) < total by {
        lemma_raw_corner(spacing, width, i);
        let p = corner_at(grid(width)[i / 6], i % 6);
        lemma_corners_are_node_places(n, grid(width)[i / 6], i % 6);
        lemma_node_numbers(n, p, p);
    }
    assert forall|i: int, j: int| 0 <= i < raw.len() && 0 <= j < raw.len() implies ((
    #[trigger] number(i) == #[trigger] number(j)) <==> raw[i] == raw[j]) by {
        lemma_raw_corner(spacing, width, i);
        lemma_raw_corner(spacing, width, j);
        let p = corner_at(grid(width)[i / 6], i % 6);
        let q = corner_at(grid(width)[j / 6], j % 6);
        lemma_corners_are_node_places(n, grid(width)[i / 6], i % 6);
        lemma_corners_are_node_places(n, grid(width)[j / 6], j % 6);
        lemma_node_numbers(n, p, q);
        if raw[i] == raw[j] {
            assert(p.0 == q.0) by (nonlinear_arith)
                requires
                    spacing * p.0 == spacing * q.0,
                    spacing >= 1,
            ;
            assert(p.1 == q.1) by (nonlinear_arith)
                requires
                    spacing * p.1 == spacing * q.1,
                    spacing >= 1,
            ;
        }
        if number(i) == number(j) {
            assert(p == q);
            assert(raw[i].x == raw[j].x && raw[i].y == raw[j].y);
        }
    }
    assert forall|t: int| 0 <= t < total implies 0 <= #[trigger] source(t) < raw.len() && number(
        source(t),
    ) == t by {
        lemma_source_corner(n, t);
        let cell = source_corner(n, t).0;
        let k = source_corner(n, t).1;
        lemma_cell_place(width, n + 1, cell.0, cell.1);
        let at = row_start(width, cell.0) + cell.1;
        assert(source(t) == 6 * at + k);
        assert((6 * at + k) / 6 == at && (6 * at + k) % 6 == k);
        assert(grid(width)[at] == cell);
    }
    lemma_count_by_numbers(raw, number, source, total);
}

/// Every edge of a list has its like in the list without repetitions.
pub proof fn lemma_unique_edges_cover(edges: Seq<(int, int)>)
    ensures
        forall|e: int|
            0 <= e < edges.len() ==> holds_edge(unique_edges(edges), #[trigger] edges[e]),
    decreases edges.len(),
{
    if edges.len() > 0 {
        let front = edges.drop_last();
        let before = unique_edges(front);
        let after = unique_edges(edges);
        lemma_unique_edges_cover(front);
        assert forall|e: int| 0 <= e < edges.len() implies holds_edge(
            after,
            #[trigger] edges[e],
        ) by {
            if e < front.len() {
                assert(holds_edge(before, front[e]));
                let j = choose|j: int| 0 <= j < before.len() && same_edge(
                    #[trigger] before[j],
                    front[e],
                );
                assert(after[j] == before[j]);
            } else if holds_edge(before, edges.last()) {
                let j = choose|j: int| 0 <= j < before.len() && same_edge(
                    #[trigger] before[j],
                    edges.last(),
                );
                assert(after[j] == before[j]);
            } else {
                assert(same_edge(after[after.len() - 1], edges[e]));
            }
        }
    }
}

/// Where every edge of a list has a number from 0 up to `total`, two edges have the same
/// number exactly when they join the same two nodes, and `source` names for every number
/// a place whose edge has it, the list holds `total` different edges.
pub proof fn lemma_count_edges_by_numbers(
    edges: Seq<(int, int)>,
    number: spec_fn(int) -> int,
    source: spec_fn(int) -> int,
    total: int,
)
    requires
        total >= 0,
        forall|e: int| 0 <= e < edges.len() ==> 0 <= #[trigger] number(e) < total,
        forall|e: int, f: int|
            0 <= e < edges.len() && 0 <= f < edges.len() ==> ((#[trigger] number(e)
                == #[trigger] number(f)) <==> same_edge(edges[e], edges[f])),
        forall|t: int|
            0 <= t < total ==> 0 <= #[trigger] source(t) < edges.len() && number(source(t)) == t,
    ensures
        unique_edges(edges).len() == total,
{
    let kept = unique_edges(edges);
    lemma_unique_edges(edges);
    lemma_unique_edges_cover(edges);
    let from = |j: int| choose|e: int| 0 <= e < edges.len() && edges[e] == kept[j];
    let numbers = Seq::new(kept.len(), |j: int| number(from(j)));
    assert forall|j: int| 0 <= j < kept.len() implies 0 <= #[trigger] from(j) < edges.len()
        && edges[from(j)] == kept[j] by {
        assert(edges.contains(kept[j]));
    }
    assert(numbers.no_duplicates()) by {
        assert forall|j: int, k: int|
            0 <= j < numbers.len() && 0 <= k < numbers.len() && j != k implies numbers[j]
            != numbers[k] by {
            assert(edges[from(j)] == kept[j]);
            assert(edges[from(k)] == kept[k]);
            if j < k {
                assert(!same_edge(kept[j], kept[k]));
            } else {
                assert(!same_edge(kept[k], kept[j]));
            }
        }
    }
    assert(numbers.to_set() =~= vstd::set_lib::set_int_range(0, total)) by {
        assert forall|t: int| numbers.to_set().contains(t) <==> 0 <= t < total by {
            if numbers.contains(t) {
                let j = choose|j: int| 0 <= j < numbers.len() && numbers[j] == t;
                assert(0 <= from(j) < edges.len());
            }
            if 0 <= t < total {
                let e = source(t);
                assert(holds_edge(kept, edges[e]));
                let p = choose|p: int| 0 <= p < kept.len() && same_edge(
                    #[trigger] kept[p],
                    edges[e],
                );
                assert(edges[from(p)] == kept[p]);
                assert(same_edge(edges[from(p)], edges[e]));
                assert(number(from(p)) == number(e));
                assert(numbers[p] == t);
            }
        }
    }
    numbers.unique_seq_to_set();
    vstd::set_lib::lemma_int_range(0, total);
}

/// The levels start at least one further for every level.
pub proof fn lemma_level_start_climbs(n: int, b: int, c: int)
    requires
        n >= 0,
        -n - 1 <= b <= c <= n + 1,
    ensures
        level_start(n, c) - level_start(n, b) >= c - b,
    decreases c - b,
{
    if b < c {
        lemma_level_start_climbs(n, b, c - 1);
    }
}

/// The two corners that edge `s` of a hexagon joins.
pub open spec fn edge_corners(s: int) -> (int, int) {
    if s == 0 {
        (5, 0)
    } else {
        (s - 1, s)
    }
}

/// The number of upright roads on a board with `n` rows on either side of the middle.
pub open spec fn upright_total(n: int) -> int {
    level_start(n, n + 1) - (n + 1)
}

/// The number of slanted roads below level `b`.
pub open spec fn slant_start(n: int, b: int) -> int {
    level_start(n, b) + level_start(n, n + 1) - level_start(n, -b) - (b + n + 1)
}

/// The number of roads on a board whose half has `n` rows.
pub open spec fn road_count(n: int) -> int {
    3 * (n + 1) * (3 * n + 2)
}

/// Whether two points are the ends of a road of a board with `n` rows on either side of
/// the middle: node places one step apart, the lower of an upright road at a level that
/// has upright roads.
pub open spec fn is_road_place(n: int, p: (int, int), q: (int, int)) -> bool {
    let low = if p.1 % 3 == 1 {
        p
    } else {
        q
    };
    let high = if p.1 % 3 == 1 {
        q
    } else {
        p
    };
    &&& is_node_place(n, p)
    &&& is_node_place(n, q)
    &&& low.1 % 3 == 1
    &&& high.1 % 3 == 2
    &&& (high.1 == low.1 - 2 && high.0 == low.0 && level_of(low.1) >= -n) || (high.1 == low.1 + 1
        && (high.0 == low.0 + 1 || high.0 == low.0 - 1))
}

/// The number of a road: upright roads first, level by level and from the left, then
/// slanted roads in the same way.
pub open spec fn road_number(n: int, p: (int, int), q: (int, int)) -> int {
    let low = if p.1 % 3 == 1 {
        p
    } else {
        q
    };
    let high = if p.1 % 3 == 1 {
        q
    } else {
        p
    };
    let b = level_of(low.1);
    if high.1 < low.1 {
        level_start(n, b) - (n + 1) + place_in_level(low)
    } else {
        upright_total(n) + slant_start(n, b) + (low.0 + high.0 - (away(b) - 1) - (away(b + 1)
            - 1)) / 2
    }
}

/// The slanted roads of the levels start one after the other.
pub proof fn lemma_slant_start_grows(n: int, b: int, c: int)
    requires
        n >= 0,
        -n - 1 <= b <= c <= n + 1,
    ensures
        0 <= slant_start(n, b) <= slant_start(n, c),
        b < c ==> slant_start(n, b) + level_size(n, b) + level_size(n, -b - 1) - 1 <= slant_start(
            n,
            c,
        ),
    decreases c - b,
{
    lemma_level_start_climbs(n, -n - 1, b);
    lemma_level_start_climbs(n, -b, n + 1);
    if b < c {
        lemma_slant_start_grows(n, b + 1, c);
        assert(level_start(n, b + 1) == level_start(n, b) + level_size(n, b));
        assert(level_start(n, -b) == level_start(n, -b - 1) + level_size(n, -b - 1));
    }
}

/// Every edge of every cell joins the two ends of a road.
pub proof fn lemma_edges_are_road_places(n: int, cell: (int, int), s: int)
    requires
        n >= 0,
        is_cell(n, cell),
        0 <= s < 6,
    ensures
        is_road_place(
            n,
            corner_at(cell, edge_corners(s).0),
            corner_at(cell, edge_corners(s).1),
        ),
{
}

/// The end of a road that lies at a level of the first kind.
pub open spec fn low_end(p: (int, int), q: (int, int)) -> (int, int) {
    if p.1 % 3 == 1 {
        p
    } else {
        q
    }
}

/// The end of a road that lies at a level of the second kind.
pub open spec fn high_end(p: (int, int), q: (int, int)) -> (int, int) {
    if p.1 % 3 == 1 {
        q
    } else {
        p
    }
}

/// Whether a road is upright.
pub open spec fn is_upright(p: (int, int), q: (int, int)) -> bool {
    high_end(p, q).1 < low_end(p, q).1
}

/// The place of a road among the roads of its kind at its level, from the left.
pub open spec fn place_of_road(p: (int, int), q: (int, int)) -> int {
    let low = low_end(p, q);
    let high = high_end(p, q);
    let b = level_of(low.1);
    if is_upright(p, q) {
        place_in_level(low)
    } else {
        (low.0 + high.0 - (away(b) - 1) - (away(b + 1) - 1)) / 2
    }
}

/// The number of the road of a kind at place `i` of level `b`.
pub open spec fn number_at(n: int, upright: bool, b: int, i: int) -> int {
    if upright {
        level_start(n, b) - (n + 1) + i
    } else {
        upright_total(n) + slant_start(n, b) + i
    }
}

/// Whether a kind, a level and a place name a road of the board.
pub open spec fn is_road_at(n: int, upright: bool, b: int, i: int) -> bool {
    if upright {
        -n <= b <= n && 0 <= i < level_size(n, b)
    } else {
        -n - 1 <= b <= n && 0 <= i < level_size(n, b) + level_size(n, -b - 1) - 1
    }
}

/// A road lies at a level and a place of the board, and its number is the number of that
/// place.
pub proof fn lemma_road_shape(n: int, p: (int, int), q: (int, int))
    requires
        n >= 0,
        is_road_place(n, p, q),
    ensures
        is_road_at(n, is_upright(p, q), level_of(low_end(p, q).1), place_of_road(p, q)),
        road_number(n, p, q) == number_at(
            n,
            is_upright(p, q),
            level_of(low_end(p, q).1),
            place_of_road(p, q),
        ),
{
}

/// Two roads of one kind at one level and one place have the same ends.
pub proof fn lemma_road_same(n: int, p: (int, int), q: (int, int), v: (int, int), w: (int, int))
    requires
        n >= 0,
        is_road_place(n, p, q),
        is_road_place(n, v, w),
        is_upright(p, q) == is_upright(v, w),
        level_of(low_end(p, q).1) == level_of(low_end(v, w).1),
        place_of_road(p, q) == place_of_road(v, w),
    ensures
        (p == v && q == w) || (p == w && q == v),
{
    assert(low_end(p, q) == low_end(v, w));
    assert(high_end(p, q) == high_end(v, w));
}

/// The roads of the board have numbers from 0 up to the number of roads, and no two
/// places have the same number.
pub proof fn lemma_numbers_at(n: int, upright: bool, b: int, i: int, other: bool, c: int, k: int)
    requires
        n >= 0,
        is_road_at(n, upright, b, i),
        is_road_at(n, other, c, k),
    ensures
        0 <= number_at(n, upright, b, i) < upright_total(n) + slant_start(n, n + 1),
        number_at(n, upright, b, i) == number_at(n, other, c, k) ==> upright == other && b == c
            && i == k,
{
    lemma_level_start_grows(n, -n, -n);
    assert(level_start(n, -n - 1) == 0);
    assert(level_start(n, -n) == n + 1);
    lemma_level_start_grows(n, b + 1, n + 1);
    lemma_level_start_grows(n, c + 1, n + 1);
    lemma_slant_start_grows(n, b, n + 1);
    lemma_slant_start_grows(n, c, n + 1);
    if upright {
        lemma_level_start_grows(n, -n, b);
    }
    if other {
        lemma_level_start_grows(n, -n, c);
    }
    assert(level_start(n, b + 1) == level_start(n, b) + level_size(n, b));
    assert(level_start(n, c + 1) == level_start(n, c) + level_size(n, c));
    if b < c {
        lemma_level_start_grows(n, b + 1, c);
        lemma_slant_start_grows(n, b, c);
    } else if c < b {
        lemma_level_start_grows(n, c + 1, b);
        lemma_slant_start_grows(n, c, b);
    }
}

/// The roads have numbers from 0 up to the number of roads, and two roads with the same
/// number have the same ends.
pub proof fn lemma_road_numbers(
    n: int,
    p: (int, int),
    q: (int, int),
    v: (int, int),
    w: (int, int),
)
    requires
        n >= 0,
        is_road_place(n, p, q),
        is_road_place(n, v, w),
    ensures
        0 <= road_number(n, p, q) < upright_total(n) + slant_start(n, n + 1),
        road_number(n, p, q) == road_number(n, v, w) ==> (p == v && q == w) || (p == w && q == v),
{
    lemma_road_shape(n, p, q);
    lemma_road_shape(n, v, w);
    lemma_numbers_at(
        n,
        is_upright(p, q),
        level_of(low_end(p, q).1),
        place_of_road(p, q),
        is_upright(v, w),
        level_of(low_end(v, w).1),
        place_of_road(v, w),
    );
    if road_number(n, p, q) == road_number(n, v, w) {
        lemma_road_same(n, p, q, v, w);
    }
}

/// The level whose slanted roads hold the one with number `t`, among the levels up to
/// `b`.
pub open spec fn slant_holding(n: int, t: int, b: int) -> int
    decreases b + n + 1,
{
    if b <= -n - 1 || t >= slant_start(n, b) {
        b
    } else {
        slant_holding(n, t, b - 1)
    }
}

/// The level that holds a slanted road starts at or below its number and ends above it.
pub proof fn lemma_slant_holding(n: int, t: int, b: int)
    requires
        n >= 0,
        -n - 1 <= b <= n,
        0 <= t < slant_start(n, b + 1),
    ensures
        -n - 1 <= slant_holding(n, t, b) <= b,
        slant_start(n, slant_holding(n, t, b)) <= t < slant_start(n, slant_holding(n, t, b) + 1),
    decreases b + n + 1,
{
    if b > -n - 1 && t < slant_start(n, b) {
        lemma_slant_holding(n, t, b - 1);
    }
}

/// The cell and the edge that the road with number `t` runs along.
pub open spec fn source_edge(n: int, t: int) -> ((int, int), int) {
    if t < upright_total(n) {
        let b = level_holding(n, t + n + 1, n);
        let j = t + n + 1 - level_start(n, b);
        if j < 2 * n + 1 - away(b) {
            ((b, j), 5)
        } else {
            ((b, j - 1), 2)
        }
    } else {
        let b = slant_holding(n, t - upright_total(n), n);
        let i = t - upright_total(n) - slant_start(n, b);
        if b >= 0 {
            ((b, i / 2), i % 2)
        } else {
            ((b + 1, i / 2), if i % 2 == 0 {
                4
            } else {
                3
            })
        }
    }
}

/// Every number below the number of roads is the number of an edge of a cell.
pub proof fn lemma_source_edge(n: int, t: int)
    requires
        n >= 0,
        0 <= t < upright_total(n) + slant_start(n, n + 1),
    ensures
        is_cell(n, source_edge(n, t).0),
        0 <= source_edge(n, t).1 < 6,
        road_number(
            n,
            corner_at(source_edge(n, t).0, edge_corners(source_edge(n, t).1).0),
            corner_at(source_edge(n, t).0, edge_corners(source_edge(n, t).1).1),
        ) == t,
{
    lemma_level_start_grows(n, -n, -n);
    if t < upright_total(n) {
        lemma_level_holding(n, t + n + 1, n);
        let b = level_holding(n, t + n + 1, n);
        assert(level_start(n, -n - 1) == 0);
    assert(level_start(n, -n) == n + 1);
        assert(b >= -n);
    } else {
        lemma_slant_holding(n, t - upright_total(n), n);
        let b = slant_holding(n, t - upright_total(n), n);
        assert(level_start(n, b + 1) == level_start(n, b) + level_size(n, b));
        assert(level_start(n, -b) == level_start(n, -b - 1) + level_size(n, -b - 1));
    }
}

/// All roads together are three times `n + 1` times `3·n + 2`.
pub proof fn lemma_road_total(n: int)
    requires
        n >= 0,
    ensures
        upright_total(n) + slant_start(n, n + 1) == road_count(n),
{
    lemma_level_total(n);
    assert(level_start(n, -n - 1) == 0);
    assert(3 * (3 * (n + 1) * (n + 1)) - 3 * (n + 1) == 3 * (n + 1) * (3 * n + 2))
        by (nonlinear_arith);
}

/// Two raw corners have the same place among the nodes exactly when they lie at the same
/// lattice place.
proof fn lemma_same_node(spacing: int, width: int, i: int, j: int)
    requires
        1 <= spacing <= 255,
        1 <= width <= 255,
        width % 2 == 1,
        0 <= i < 6 * grid(width).len(),
        0 <= j < 6 * grid(width).len(),
    ensures
        ({
            let raw = raw_corners(spacing, grid_centroids(spacing, width));
            (place_of(unique_points(raw), raw[i]) == place_of(unique_points(raw), raw[j]))
                <==> corner_at(grid(width)[i / 6], i % 6) == corner_at(grid(width)[j / 6], j % 6)
        }),
{
    let raw = raw_corners(spacing, grid_centroids(spacing, width));
    let p = corner_at(grid(width)[i / 6], i % 6);
    let q = corner_at(grid(width)[j / 6], j % 6);
    lemma_raw_corner(spacing, width, i);
    lemma_raw_corner(spacing, width, j);
    lemma_unique_points(raw);
    assert(unique_points(raw)[place_of(unique_points(raw), raw[i])] == raw[i]);
    assert(unique_points(raw)[place_of(unique_points(raw), raw[j])] == raw[j]);
    if raw[i] == raw[j] {
        assert(p.0 == q.0) by (nonlinear_arith)
            requires
                spacing * p.0 == spacing * q.0,
                spacing >= 1,
        ;
        assert(p.1 == q.1) by (nonlinear_arith)
            requires
                spacing * p.1 == spacing * q.1,
                spacing >= 1,
        ;
    }
    if p == q {
        assert(raw[i].x == raw[j].x && raw[i].y == raw[j].y);
        assert(raw[i] == raw[j]);
    }
}

/// A board of odd width with `n` rows on either side of the middle has three times
/// `n + 1` times `3·n + 2` different edges, whatever the spacing.
pub proof fn law_road_count(spacing: int, width: int)
    requires
        1 <= spacing <= 255,
        1 <= width <= 255,
        width % 2 == 1,
    ensures
        unique_edges(merged_edges(raw_corners(spacing, grid_centroids(spacing, width)))).len()
            == road_count(half_rows(width)),
{
    let n = half_rows(width);
    let raw = raw_corners(spacing, grid_centroids(spacing, width));
    let edges = merged_edges(raw);
    let total = upright_total(n) + slant_start(n, n + 1);
    let number = |e: int|
        road_number(
            n,
            corner_at(grid(width)[e / 6], edge_corners(e % 6).0),
            corner_at(grid(width)[e / 6], edge_corners(e % 6).1),
        );
    let source = |t: int|
        6 * (row_start(width, source_edge(n, t).0.0) + source_edge(n, t).0.1) + source_edge(
            n,
            t,
        ).1;
    lemma_road_total(n);
    assert(total >= 0) by (nonlinear_arith)
        requires
            total == 3 * (n + 1) * (3 * n + 2),
            n >= 0,
    ;
    assert(raw.len() == 6 * grid(width).len());
    assert(edges.len() == raw.len());
    lemma_grid_is_small(width, n + 1);
    assert forall|e: int| 0 <= e < edges.len() implies 0 <= #[trigger] number(e) < total by {
        let cell = grid(width)[e / 6];
        assert(is_cell(n, cell));
        lemma_edges_are_road_places(n, cell, e % 6);
        let p = corner_at(cell, edge_corners(e % 6).0);
        let q = corner_at(cell, edge_corners(e % 6).1);
        lemma_road_numbers(n, p, q, p, q);
    }
    assert forall|e: int, f: int| 0 <= e < edges.len() && 0 <= f < edges.len() implies ((
    #[trigger] number(e) == #[trigger] number(f)) <==> same_edge(edges[e], edges[f])) by {
        let cell = grid(width)[e / 6];
        let other = grid(width)[f / 6];
        assert(is_cell(n, cell));
        assert(is_cell(n, other));
        let ea = 6 * (e / 6) + edge_corners(e % 6).0;
        let eb = 6 * (e / 6) + edge_corners(e % 6).1;
        let fa = 6 * (f / 6) + edge_corners(f % 6).0;
        let fb = 6 * (f / 6) + edge_corners(f % 6).1;
        assert(raw_edge(e) == (ea, eb));
        assert(raw_edge(f) == (fa, fb));
        assert(ea / 6 == e / 6 && ea % 6 == edge_corners(e % 6).0);
        assert(eb / 6 == e / 6 && eb % 6 == edge_corners(e % 6).1);
        assert(fa / 6 == f / 6 && fa % 6 == edge_corners(f % 6).0);
        assert(fb / 6 == f / 6 && fb % 6 == edge_corners(f % 6).1);
        let p = corner_at(cell, edge_corners(e % 6).0);
        let q = corner_at(cell, edge_corners(e % 6).1);
        let v = corner_at(other, edge_corners(f % 6).0);
        let w = corner_at(other, edge_corners(f % 6).1);
        lemma_edges_are_road_places(n, cell, e % 6);
        lemma_edges_are_road_places(n, other, f % 6);
        lemma_road_numbers(n, p, q, v, w);
        lemma_same_node(spacing, width, ea, fa);
        lemma_same_node(spacing, width, eb, fb);
        lemma_same_node(spacing, width, ea, fb);
        lemma_same_node(spacing, width, eb, fa);
        assert(edges[e] == (
            place_of(unique_points(raw), raw[ea]),
            place_of(unique_points(raw), raw[eb]),
        ));
        assert(edges[f] == (
            place_of(unique_points(raw), raw[fa]),
            place_of(unique_points(raw), raw[fb]),
        ));
        if same_edge(edges[e], edges[f]) {
            assert((p == v && q == w) || (p == w && q == v));
            assert(low_end(p, q) == low_end(v, w));
            assert(high_end(p, q) == high_end(v, w));
        }
    }
    assert forall|t: int| 0 <= t < total implies 0 <= #[trigger] source(t) < edges.len()
        && number(source(t)) == t by {
        lemma_source_edge(n, t);
        let cell = source_edge(n, t).0;
        let k = source_edge(n, t).1;
        lemma_cell_place(width, n + 1, cell.0, cell.1);
        let at = row_start(width, cell.0) + cell.1;
        assert(source(t) == 6 * at + k);
        assert((6 * at + k) / 6 == at && (6 * at + k) % 6 == k);
        assert(grid(width)[at] == cell);
    }
    lemma_count_edges_by_numbers(edges, number, source, total);
}

} // verus!
