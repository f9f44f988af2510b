//! Where the hexagons lie: rows of centres, widest in the middle.
use crate::games::hexagon::board::{Centroid, Coordinate, GameBoard};
use vstd::prelude::*;

verus! {

/// The number of rows above the middle row, which is also the number below it.
pub open spec fn half_rows(width: int) -> int {
    (width - 1) / 2
}

/// The number of hexagons in row `r`, counted from the middle row.
pub open spec fn row_len(width: int, r: int) -> int {
    width - if r < 0 {
        -r
    } else {
        r
    }
}

/// The cells of the rows before row `upto`, row by row from the top, each as its row and
/// its place in the row.
pub open spec fn grid_rows(width: int, upto: int) -> Seq<(int, int)>
    decreases upto + half_rows(width),
{
    if upto <= -half_rows(width) {
        Seq::empty()
    } else {
        grid_rows(width, upto - 1) + Seq::new(
            row_len(width, upto - 1) as nat,
            |h: int| (upto - 1, h),
        )
    }
}

/// The cells of a board of this width, in the order in which its hexagons are numbered.
pub open spec fn grid(width: int) -> Seq<(int, int)> {
    if width <= 0 {
        Seq::empty()
    } else {
        grid_rows(width, half_rows(width) + 1)
    }
}

/// The centre of a cell: rows lie 3 lattice steps apart, places in a row 2, and each row
/// away from the middle starts one step further in.
pub open spec fn centre_of(spacing: int, cell: (int, int)) -> Coordinate {
    Coordinate {
        x: (spacing * ((if cell.0 < 0 {
            -cell.0
        } else {
            cell.0
        }) + 2 * cell.1)) as i64,
        y: (spacing * (3 * cell.0)) as i64,
    }
}

/// The centroids of a board of this width, none with a dice number yet.
pub open spec fn grid_centroids(spacing: int, width: int) -> Seq<Centroid> {
    Seq::new(
        grid(width).len(),
        |i: int| Centroid { loc: centre_of(spacing, grid(width)[i]), number: 0 },
    )
}

/// The number of hexagons on a board whose half has `n` rows: one in the middle and `n`
/// rings of six times their distance around it.
pub open spec fn hexagon_count(n: int) -> int {
    1 + 3 * n * (n + 1)
}

/// Twice the number of cells in the rows before row `upto`.
proof fn lemma_grid_rows_len(width: int, upto: int)
    requires
        width >= 1,
        -half_rows(width) <= upto <= half_rows(width) + 1,
    ensures
        upto <= 1 ==> 2 * grid_rows(width, upto).len() == 2 * (upto + half_rows(width)) * (width
            - half_rows(width)) + (upto + half_rows(width)) * (upto + half_rows(width) - 1),
        upto > 1 ==> 2 * grid_rows(width, upto).len() == 2 * (half_rows(width) + 1) * (width
            - half_rows(width)) + (half_rows(width) + 1) * half_rows(width) + 2 * (upto - 1)
            * width - (upto - 1) * upto,
    decreases upto + half_rows(width),
{
    let n = half_rows(width);
    if upto > -n {
        lemma_grid_rows_len(width, upto - 1);
        let before = grid_rows(width, upto - 1).len() as int;
        let row = row_len(width, upto - 1);
        assert(row >= 0);
        assert(grid_rows(width, upto).len() == before + row);
        let m = upto + n;
        if upto <= 1 {
            assert(row == width - n + (m - 1));
            assert(2 * (before + row) == 2 * m * (width - n) + m * (m - 1)) by (nonlinear_arith)
                requires
                    2 * before == 2 * (m - 1) * (width - n) + (m - 1) * (m - 2),
                    row == width - n + (m - 1),
            ;
        } else if upto == 2 {
            assert(row == width - 1);
            assert(2 * (before + row) == 2 * (n + 1) * (width - n) + (n + 1) * n + 2 * (upto - 1)
                * width - (upto - 1) * upto) by (nonlinear_arith)
                requires
                    2 * before == 2 * (1 + n) * (width - n) + (1 + n) * (1 + n - 1),
                    row == width - 1,
                    upto == 2,
            ;
        } else {
            assert(row == width - (upto - 1));
            assert(2 * (before + row) == 2 * (n + 1) * (width - n) + (n + 1) * n + 2 * (upto - 1)
                * width - (upto - 1) * upto) by (nonlinear_arith)
                requires
                    2 * before == 2 * (n + 1) * (width - n) + (n + 1) * n + 2 * (upto - 2)
                        * width - (upto - 2) * (upto - 1),
                    row == width - (upto - 1),
            ;
        }
    } else {
        assert(grid_rows(width, upto).len() == 0);
        let m = upto + n;
        assert(2 * m * (width - n) + m * (m - 1) == 0) by (nonlinear_arith)
            requires
                m == 0,
        ;
    }
}

/// A board of odd width with `n` rows on either side of the middle has `1 + 3·n·(n + 1)`
/// hexagons.
pub proof fn law_hexagon_count(width: int)
    requires
        width >= 1,
        width % 2 == 1,
    ensures
        grid(width).len() == hexagon_count(half_rows(width)),
        forall|spacing: int|
            (#[trigger] grid_centroids(spacing, width)).len() == hexagon_count(half_rows(width)),
{
    let n = half_rows(width);
    assert(width == 2 * n + 1);
    lemma_grid_rows_len(width, n + 1);
    if n == 0 {
        assert(2 * grid(width).len() == 2 * hexagon_count(n)) by (nonlinear_arith)
            requires
                2 * grid(width).len() == 2 * (n + 1 + n) * (width - n) + (n + 1 + n) * (n + 1
                    + n - 1),
                width == 2 * n + 1,
                n == 0,
                hexagon_count(n) == 1 + 3 * n * (n + 1),
        ;
    } else {
        assert(2 * grid(width).len() == 2 * hexagon_count(n)) by (nonlinear_arith)
            requires
                2 * grid(width).len() == 2 * (n + 1) * (width - n) + (n + 1) * n + 2 * (n + 1
                    - 1) * width - (n + 1 - 1) * (n + 1),
                width == 2 * n + 1,
                hexagon_count(n) == 1 + 3 * n * (n + 1),
        ;
    }
}

/// A board of width one or more has at least one cell.
pub proof fn lemma_grid_is_not_empty(width: int)
    requires
        width >= 1,
    ensures
        grid(width).len() >= 1,
{
    let n = half_rows(width);
    lemma_grid_rows_nonempty(width, n + 1);
}

/// The rows up to and past the middle row hold at least one cell.
proof fn lemma_grid_rows_nonempty(width: int, upto: int)
    requires
        width >= 1,
        1 <= upto <= half_rows(width) + 1,
    ensures
        grid_rows(width, upto).len() >= 1,
    decreases upto,
{
    if upto > 1 {
        lemma_grid_rows_nonempty(width, upto - 1);
    } else {
        assert(row_len(width, 0) == width);
    }
}

/// No board of a width that fits in a byte has more cells than this.
pub proof fn lemma_grid_is_small(width: int, upto: int)
    requires
        1 <= width <= 255,
        -half_rows(width) <= upto <= half_rows(width) + 1,
    ensures
        grid_rows(width, upto).len() <= (upto + half_rows(width)) * 255,
        forall|i: int|
            0 <= i < grid_rows(width, upto).len() ==> {
                let cell = #[trigger] grid_rows(width, upto)[i];
                &&& -half_rows(width) <= cell.0 < upto
                &&& 0 <= cell.1 < row_len(width, cell.0)
            },
    decreases upto + half_rows(width),
{
    if upto > -half_rows(width) {
        lemma_grid_is_small(width, upto - 1);
        assert((upto - 1 + half_rows(width)) * 255 + 255 == (upto + half_rows(width)) * 255)
            by (nonlinear_arith);
    }
}

impl GameBoard {
    /// Lays out the centres of the hexagons row by row, from the top row to the bottom
    /// row and along each row, and adds them to the board without dice numbers.
    pub fn compute_hex_grid_centroids(&mut self, centroid_spacing: u8, game_board_width: u8)
        ensures
            final(self).centroids@ == old(self).centroids@ + grid_centroids(
                centroid_spacing as int,
                game_board_width as int,
            ),
            final(self).nodes == old(self).nodes,
            final(self).hexagons == old(self).hexagons,
            final(self).roads == old(self).roads,
            final(self).bugs == old(self).bugs,
            final(self).scorpion_index == old(self).scorpion_index,
    {
        if game_board_width == 0 {
            assert(self.centroids@ =~= old(self).centroids@ + grid_centroids(
                centroid_spacing as int,
                game_board_width as int,
            ));
            return ;
        }
        let spacing: i64 = centroid_spacing as i64;
        let width: i64 = game_board_width as i64;
        let n: i64 = (width - 1) / 2;
        let ghost start = old(self).centroids@;
        let ghost mut done: Seq<(int, int)> = Seq::empty();
        let mut row: i64 = -n;
        while row <= n
            invariant
                1 <= width <= 255,
                width == game_board_width,
                spacing == centroid_spacing,
                n == half_rows(width as int),
                -n <= row <= n + 1,
                done == grid_rows(width as int, row as int),
                self.centroids@.len() == start.len() + done.len(),
                forall|i: int| 0 <= i < start.len() ==> self.centroids@[i] == start[i],
                forall|i: int|
                    0 <= i < done.len() ==> #[trigger] self.centroids@[start.len() + i] == (
                    Centroid { loc: centre_of(spacing as int, done[i]), number: 0 }),
                self.nodes == old(self).nodes,
                self.hexagons == old(self).hexagons,
                self.roads == old(self).roads,
                self.bugs == old(self).bugs,
                self.scorpion_index == old(self).scorpion_index,
            decreases n + 1 - row,
        {
            let away: i64 = if row < 0 {
                -row
            } else {
                row
            };
            let in_row: i64 = width - away;
            let ghost before = done;
            let mut place: i64 = 0;
            while place < in_row
                invariant
                    1 <= width <= 255,
                    spacing == centroid_spacing,
                    n == half_rows(width as int),
                    -n <= row <= n,
                    away == if row < 0 {
                        -row
                    } else {
                        row as int
                    },
                    in_row == row_len(width as int, row as int),
                    0 <= place <= in_row,
                    before == grid_rows(width as int, row as int),
                    done == before + Seq::new(place as nat, |h: int| (row as int, h)),
                    self.centroids@.len() == start.len() + done.len(),
                    forall|i: int| 0 <= i < start.len() ==> self.centroids@[i] == start[i],
                    forall|i: int|
                        0 <= i < done.len() ==> #[trigger] self.centroids@[start.len() + i] == (
                        Centroid { loc: centre_of(spacing as int, done[i]), number: 0 }),
                    self.nodes == old(self).nodes,
                    self.hexagons == old(self).hexagons,
                    self.roads == old(self).roads,
                    self.bugs == old(self).bugs,
                    self.scorpion_index == old(self).scorpion_index,
                decreases in_row - place,
            {
                let steps: i64 = away + 2 * place;
                assert(0 <= spacing * steps <= 255 * 800) by (nonlinear_arith)
                    requires
                        0 <= spacing <= 255,
                        0 <= steps <= 800,
                ;
                assert(-255 * 400 <= spacing * (3 * row) <= 255 * 400) by (nonlinear_arith)
                    requires
                        0 <= spacing <= 255,
                        -400 <= 3 * row <= 400,
                ;
                let loc = Coordinate { x: spacing * steps, y: spacing * (3 * row) };
                self.centroids.push(Centroid { loc, number: 0 });
                proof {
                    let cell = (row as int, place as int);
                    assert(loc == centre_of(spacing as int, cell));
                    let grown = before + Seq::new((place + 1) as nat, |h: int| (row as int, h));
                    assert(grown =~= done.push(cell));
                    done = grown;
                }
                place += 1;
            }
            proof {
                assert(done =~= grid_rows(width as int, row + 1));
            }
            row += 1;
        }
        proof {
            assert(row == n + 1);
            assert(done == grid(width as int));
            let laid = grid_centroids(spacing as int, width as int);
            assert(laid.len() == done.len());
            assert forall|i: int| 0 <= i < done.len() implies self.centroids@[start.len() + i]
                == laid[i] by {
                assert(self.centroids@[start.len() + i] == (Centroid {
                    loc: centre_of(spacing as int, done[i]),
                    number: 0,
                }));
            }
            assert(self.centroids@ =~= start + laid);
        }
    }
}

} // verus!
