//! The board, its mathematical model, and the geometry of rays on it.

use vstd::prelude::*;

verus! {

/// Number of rows and of columns.
pub const BOARD_SIZE: usize = 8;

/// One of the two sides. Also the colour of a disc.
#[derive(Clone, Copy, Debug, PartialEq, Eq, Structural)]
pub enum Player {
    Black,
    White,
}

impl Player {
    /// The other side.
    pub open spec fn other(self) -> Player {
        match self {
            Player::Black => Player::White,
            Player::White => Player::Black,
        }
    }

    pub fn opponent(self) -> (r: Player)
        ensures
            r == self.other(),
    {
        match self {
            Player::Black => Player::White,
            Player::White => Player::Black,
        }
    }
}

/// A (row, column) pair as a caller submits it; it may lie off the board.
#[derive(Clone, Copy, Debug, PartialEq, Eq, Structural)]
pub struct Position {
    pub row: u8,
    pub col: u8,
}

/// The model of a board: rows of cells, each cell empty or holding a disc.
pub type Grid = Seq<Seq<Option<Player>>>;

/// The grid that an executable board stands for.
pub open spec fn grid_of(b: &Vec<Vec<Option<Player>>>) -> Grid {
    Seq::new(b@.len(), |i: int| b@[i]@)
}

/// A grid of eight rows of eight cells.
pub open spec fn is_board(g: Grid) -> bool {
    &&& g.len() == 8
    &&& forall|r: int| 0 <= r < 8 ==> (#[trigger] g[r]).len() == 8
}

pub open spec fn in_bounds(x: int, y: int) -> bool {
    0 <= x < 8 && 0 <= y < 8
}

/// What stands at row `x`, column `y`; nothing stands off the board.
pub open spec fn cell(g: Grid, x: int, y: int) -> Option<Player> {
    if in_bounds(x, y) {
        g[x][y]
    } else {
        None
    }
}

/// One of the eight compass directions.
pub open spec fn is_direction(dx: int, dy: int) -> bool {
    -1 <= dx <= 1 && -1 <= dy <= 1 && !(dx == 0 && dy == 0)
}

/// The cell `j` steps away from (`row`, `col`) in direction (`dx`, `dy`).
pub open spec fn ray_cell(g: Grid, row: int, col: int, dx: int, dy: int, j: int) -> Option<Player> {
    cell(g, row + j * dx, col + j * dy)
}

/// Number of king's moves between (`row`, `col`) and (`x`, `y`).
pub open spec fn distance(row: int, col: int, x: int, y: int) -> int {
    let a = if x >= row { x - row } else { row - x };
    let b = if y >= col { y - col } else { col - y };
    if a >= b { a } else { b }
}

/// (`x`, `y`) lies on the ray that leaves (`row`, `col`) in direction
/// (`dx`, `dy`), the origin itself excluded.
pub open spec fn on_ray(row: int, col: int, dx: int, dy: int, x: int, y: int) -> bool {
    let j = distance(row, col, x, y);
    j >= 1 && x == row + j * dx && y == col + j * dy
}

/// The eight compass directions, numbered row by row.
pub open spec fn compass(i: int) -> (int, int) {
    if i == 0 {
        (-1, -1)
    } else if i == 1 {
        (-1, 0)
    } else if i == 2 {
        (-1, 1)
    } else if i == 3 {
        (0, -1)
    } else if i == 4 {
        (0, 1)
    } else if i == 5 {
        (1, -1)
    } else if i == 6 {
        (1, 0)
    } else {
        (1, 1)
    }
}

/// The number that `compass` gives the direction (`dx`, `dy`).
pub open spec fn compass_index(dx: int, dy: int) -> int {
    let raw = (dx + 1) * 3 + (dy + 1);
    if raw < 4 {
        raw
    } else {
        raw - 1
    }
}

/// The direction in which (`x`, `y`) lies, seen from (`row`, `col`).
pub open spec fn toward(row: int, col: int, x: int, y: int) -> (int, int) {
    (
        if x > row { 1 } else if x < row { -1 } else { 0 },
        if y > col { 1 } else if y < col { -1 } else { 0 },
    )
}

/// The `i`-th compass direction.
pub fn direction(i: usize) -> (d: (i32, i32))
    requires
        i < 8,
    ensures
        (d.0 as int, d.1 as int) == compass(i as int),
        is_direction(d.0 as int, d.1 as int),
        compass_index(d.0 as int, d.1 as int) == i,
{
    if i == 0 {
        (-1, -1)
    } else if i == 1 {
        (-1, 0)
    } else if i == 2 {
        (-1, 1)
    } else if i == 3 {
        (0, -1)
    } else if i == 4 {
        (0, 1)
    } else if i == 5 {
        (1, -1)
    } else if i == 6 {
        (1, 0)
    } else {
        (1, 1)
    }
}

/// `compass` and `compass_index` are inverse to each other on the eight
/// directions.
pub proof fn lemma_compass(dx: int, dy: int)
    requires
        is_direction(dx, dy),
    ensures
        0 <= compass_index(dx, dy) < 8,
        compass(compass_index(dx, dy)) == (dx, dy),
{
}

/// A step count times a direction component, without multiplication.
pub proof fn lemma_step(j: int, d: int)
    requires
        -1 <= d <= 1,
    ensures
        j * d == (if d == 1 { j } else if d == -1 { -j } else { 0 }),
        (j + 1) * d == j * d + d,
{
    assert(j * d == (if d == 1 { j } else if d == -1 { -j } else { 0 })) by (nonlinear_arith)
        requires -1 <= d <= 1;
    assert((j + 1) * d == j * d + d) by (nonlinear_arith);
}

/// The `j`-th cell of a ray is on that ray, at distance `j`.
pub proof fn lemma_ray_point(row: int, col: int, dx: int, dy: int, j: int)
    requires
        is_direction(dx, dy),
        j >= 1,
    ensures
        distance(row, col, row + j * dx, col + j * dy) == j,
        on_ray(row, col, dx, dy, row + j * dx, col + j * dy),
        toward(row, col, row + j * dx, col + j * dy) == (dx, dy),
{
    lemma_step(j, dx);
    lemma_step(j, dy);
}

/// A cell on a ray lies in that ray's direction.
pub proof fn lemma_on_ray_toward(row: int, col: int, dx: int, dy: int, x: int, y: int)
    requires
        is_direction(dx, dy),
        on_ray(row, col, dx, dy, x, y),
    ensures
        toward(row, col, x, y) == (dx, dy),
{
    lemma_ray_point(row, col, dx, dy, distance(row, col, x, y));
}

/// Whether `board` has eight rows of eight cells.
pub fn is_well_shaped(board: &Vec<Vec<Option<Player>>>) -> (r: bool)
    ensures
        r == is_board(grid_of(board)),
{
    if board.len() != BOARD_SIZE {
        return false;
    }
    let mut x: usize = 0;
    while x < BOARD_SIZE
        invariant
            x <= 8,
            board@.len() == 8,
            forall|i: int| 0 <= i < x ==> (#[trigger] grid_of(board)[i]).len() == 8,
        decreases 8 - x,
    {
        if board[x].len() != BOARD_SIZE {
            proof {
                assert(grid_of(board)[x as int].len() != 8);
            }
            return false;
        }
        x += 1;
    }
    true
}

/// Writes `v` at row `x`, column `y`, and leaves every other cell as it was.
pub fn set_cell(board: &mut Vec<Vec<Option<Player>>>, x: usize, y: usize, v: Option<Player>)
    requires
        is_board(grid_of(old(board))),
        x < 8,
        y < 8,
    ensures
        is_board(grid_of(final(board))),
        grid_of(final(board)) == grid_of(old(board)).update(
            x as int,
            grid_of(old(board))[x as int].update(y as int, v),
        ),
        forall|a: int, b: int|
            #[trigger] cell(grid_of(final(board)), a, b) == (if a == x && b == y {
                v
            } else {
                cell(grid_of(old(board)), a, b)
            }),
{
    proof {
        assert(grid_of(board)[x as int].len() == 8);
    }
    board[x][y] = v;
    proof {
        assert(grid_of(board) =~= grid_of(old(board)).update(
            x as int,
            grid_of(old(board))[x as int].update(y as int, v),
        ));
        assert forall|r: int| 0 <= r < 8 implies (#[trigger] grid_of(board)[r]).len() == 8 by {
            assert(grid_of(old(board))[r].len() == 8);
        }
    }
}

/// A board with the same cells as `board`.
pub fn copy_board(board: &Vec<Vec<Option<Player>>>) -> (r: Vec<Vec<Option<Player>>>)
    ensures
        grid_of(&r) == grid_of(board),
{
    let mut out: Vec<Vec<Option<Player>>> = Vec::new();
    let mut x: usize = 0;
    while x < board.len()
        invariant
            x <= board@.len(),
            out@.len() == x,
            forall|i: int| 0 <= i < x ==> (#[trigger] out@[i])@ == board@[i]@,
        decreases board@.len() - x,
    {
        let mut line: Vec<Option<Player>> = Vec::new();
        let mut y: usize = 0;
        while y < board[x].len()
            invariant
                x < board@.len(),
                y <= board@[x as int]@.len(),
                line@.len() == y,
                forall|j: int| 0 <= j < y ==> #[trigger] line@[j] == board@[x as int]@[j],
            decreases board@[x as int]@.len() - y,
        {
            line.push(board[x][y]);
            y += 1;
        }
        proof {
            assert(line@ =~= board@[x as int]@);
        }
        out.push(line);
        x += 1;
    }
    proof {
        assert(grid_of(&out) =~= grid_of(board));
    }
    out
}

} // verus!
