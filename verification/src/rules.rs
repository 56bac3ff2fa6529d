//! The capture rule: which moves are legal and what a move does to the board.

use vstd::prelude::*;
use crate::board::{
    BOARD_SIZE, Player, Position, Grid, grid_of, is_board, in_bounds, cell, is_direction, ray_cell,
    distance, on_ray, toward, compass_index, direction, lemma_compass, lemma_step,
    lemma_ray_point, lemma_on_ray_toward, set_cell, copy_board,
};

verus! {

/// Placing a disc of `p` at (`row`, `col`) closes a run in direction
/// (`dx`, `dy`) at step `k`: the cells at steps 1 to `k - 1` hold discs of
/// the other side, and the cell at step `k` holds one of `p`.
pub open spec fn captures(g: Grid, row: int, col: int, dx: int, dy: int, p: Player, k: int) -> bool {
    &&& k >= 2
    &&& ray_cell(g, row, col, dx, dy, k) == Some(p)
    &&& forall|j: int| 1 <= j < k ==> #[trigger] ray_cell(g, row, col, dx, dy, j) == Some(p.other())
}

/// The flip test: some run of the other side's discs in direction
/// (`dx`, `dy`) is closed by a disc of `p`.
pub open spec fn can_flip(g: Grid, row: int, col: int, dx: int, dy: int, p: Player) -> bool {
    exists|k: int| captures(g, row, col, dx, dy, p, k)
}

/// A legal move: an empty cell of the board from which the flip test
/// succeeds in at least one compass direction.
pub open spec fn legal(g: Grid, row: int, col: int, p: Player) -> bool {
    &&& in_bounds(row, col)
    &&& cell(g, row, col) is None
    &&& exists|dx: int, dy: int| is_direction(dx, dy) && can_flip(g, row, col, dx, dy, p)
}

/// The flip test from (`row`, `col`) in direction (`dx`, `dy`) for `player`.
pub fn can_flip_in_direction(
    board: &Vec<Vec<Option<Player>>>,
    row: usize,
    col: usize,
    dx: i32,
    dy: i32,
    player: Player,
) -> (r: bool)
    requires
        is_board(grid_of(board)),
        row < 8,
        col < 8,
        is_direction(dx as int, dy as int),
    ensures
        r == can_flip(grid_of(board), row as int, col as int, dx as int, dy as int, player),
{
    let ghost g = grid_of(board);
    let mut x: i32 = row as i32 + dx;
    let mut y: i32 = col as i32 + dy;
    let mut found_opponent = false;
    let ghost mut j: int = 1;
    while x >= 0 && x < 8 && y >= 0 && y < 8
        invariant
            g == grid_of(board),
            is_board(g),
            row < 8,
            col < 8,
            is_direction(dx as int, dy as int),
            1 <= j <= 8,
            x == row + j * dx,
            y == col + j * dy,
            found_opponent == (j >= 2),
            forall|i: int|
                1 <= i < j ==> #[trigger] ray_cell(g, row as int, col as int, dx as int, dy as int, i)
                    == Some(player.other()),
        decreases 8 - j,
    {
        proof {
            lemma_step(j, dx as int);
            lemma_step(j, dy as int);
            assert(g[x as int].len() == 8);
            assert(ray_cell(g, row as int, col as int, dx as int, dy as int, j) == g[x as int][y as int]);
        }
        match board[x as usize][y as usize] {
            None => {
                return false;
            },
            Some(q) => {
                if q == player {
                    proof {
                        if j >= 2 {
                            assert(captures(g, row as int, col as int, dx as int, dy as int, player, j));
                        }
                    }
                    return found_opponent;
                }
                found_opponent = true;
            },
        }
        x += dx;
        y += dy;
        proof {
            j = j + 1;
        }
    }
    proof {
        assert(ray_cell(g, row as int, col as int, dx as int, dy as int, j) == None::<Player>);
    }
    false
}

/// Whether `player` may place a disc at (`row`, `col`). Coordinates off
/// the board are no legal move.
pub fn is_valid_move(board: &Vec<Vec<Option<Player>>>, row: usize, col: usize, player: Player) -> (r: bool)
    requires
        is_board(grid_of(board)),
    ensures
        r == legal(grid_of(board), row as int, col as int, player),
{
    let ghost g = grid_of(board);
    if row >= BOARD_SIZE || col >= BOARD_SIZE {
        return false;
    }
    proof {
        assert(g[row as int].len() == 8);
    }
    if board[row][col].is_some() {
        return false;
    }
    let mut i: usize = 0;
    while i < 8
        invariant
            i <= 8,
            g == grid_of(board),
            is_board(g),
            row < 8,
            col < 8,
            cell(g, row as int, col as int) is None,
            forall|dx: int, dy: int|
                is_direction(dx, dy) && compass_index(dx, dy) < i ==> !#[trigger] can_flip(
                    g,
                    row as int,
                    col as int,
                    dx,
                    dy,
                    player,
                ),
        decreases 8 - i,
    {
        let (dx, dy) = direction(i);
        if can_flip_in_direction(board, row, col, dx, dy, player) {
            return true;
        }
        i += 1;
    }
    proof {
        assert forall|dx: int, dy: int| is_direction(dx, dy) implies !#[trigger] can_flip(
            g,
            row as int,
            col as int,
            dx,
            dy,
            player,
        ) by {
            lemma_compass(dx, dy);
        }
    }
    false
}

/// A sweep from (`row`, `col`) in direction (`dx`, `dy`) halts at step `n`:
/// that is the first step which leaves the board or meets a disc of `p`.
pub open spec fn halts_at(g: Grid, row: int, col: int, dx: int, dy: int, p: Player, n: int) -> bool {
    &&& n >= 1
    &&& (!in_bounds(row + n * dx, col + n * dy) || ray_cell(g, row, col, dx, dy, n) == Some(p))
    &&& forall|j: int|
        1 <= j < n ==> in_bounds(row + j * dx, col + j * dy) && #[trigger] ray_cell(
            g,
            row,
            col,
            dx,
            dy,
            j,
        ) != Some(p)
}

/// The cell (`x`, `y`) after a sweep that halted at step `n`: a disc on the
/// ray before the halt belongs to `p`; every other cell is as before.
pub open spec fn swept_cell(
    g: Grid,
    row: int,
    col: int,
    dx: int,
    dy: int,
    p: Player,
    n: int,
    x: int,
    y: int,
) -> Option<Player> {
    if on_ray(row, col, dx, dy, x, y) && distance(row, col, x, y) < n && cell(g, x, y) is Some {
        Some(p)
    } else {
        cell(g, x, y)
    }
}

/// A sweep halts at one step only.
pub proof fn lemma_halt_unique(g: Grid, row: int, col: int, dx: int, dy: int, p: Player, m: int, n: int)
    requires
        halts_at(g, row, col, dx, dy, p, m),
        halts_at(g, row, col, dx, dy, p, n),
    ensures
        m == n,
{
    if m < n {
        assert(ray_cell(g, row, col, dx, dy, m) != Some(p));
    }
    if n < m {
        assert(ray_cell(g, row, col, dx, dy, n) != Some(p));
    }
}

/// Gives `player` every disc from the cell next to (`row`, `col`) in
/// direction (`dx`, `dy`) up to the first disc of `player` or the edge.
pub fn flip_pieces_in_direction(
    board: &mut Vec<Vec<Option<Player>>>,
    row: usize,
    col: usize,
    dx: i32,
    dy: i32,
    player: Player,
)
    requires
        is_board(grid_of(old(board))),
        row < 8,
        col < 8,
        is_direction(dx as int, dy as int),
    ensures
        is_board(grid_of(final(board))),
        exists|n: int|
            {
                &&& #[trigger] halts_at(
                    grid_of(old(board)),
                    row as int,
                    col as int,
                    dx as int,
                    dy as int,
                    player,
                    n,
                )
                &&& forall|x: int, y: int|
                    #[trigger] cell(grid_of(final(board)), x, y) == swept_cell(
                        grid_of(old(board)),
                        row as int,
                        col as int,
                        dx as int,
                        dy as int,
                        player,
                        n,
                        x,
                        y,
                    )
            },
{
    let ghost g = grid_of(board);
    let mut x: i32 = row as i32 + dx;
    let mut y: i32 = col as i32 + dy;
    let ghost mut j: int = 1;
    let mut halted = false;
    while !halted && x >= 0 && x < 8 && y >= 0 && y < 8
        invariant
            is_board(g),
            is_board(grid_of(board)),
            row < 8,
            col < 8,
            is_direction(dx as int, dy as int),
            1 <= j <= 8,
            x == row + j * dx,
            y == col + j * dy,
            halted ==> ray_cell(g, row as int, col as int, dx as int, dy as int, j) == Some(player),
            forall|i: int|
                1 <= i < j ==> in_bounds(row + i * dx, col + i * dy) && #[trigger] ray_cell(
                    g,
                    row as int,
                    col as int,
                    dx as int,
                    dy as int,
                    i,
                ) != Some(player),
            forall|a: int, b: int|
                #[trigger] cell(grid_of(board), a, b) == swept_cell(
                    g,
                    row as int,
                    col as int,
                    dx as int,
                    dy as int,
                    player,
                    j,
                    a,
                    b,
                ),
        decreases (if halted { 0 } else { 9 - j }),
    {
        proof {
            lemma_step(j, dx as int);
            lemma_step(j, dy as int);
            lemma_ray_point(row as int, col as int, dx as int, dy as int, j);
            assert(grid_of(board)[x as int].len() == 8);
            assert(cell(grid_of(board), x as int, y as int) == cell(g, x as int, y as int));
            assert(ray_cell(g, row as int, col as int, dx as int, dy as int, j) == cell(
                g,
                x as int,
                y as int,
            ));
        }
        let here = board[x as usize][y as usize];
        if here == Some(player) {
            halted = true;
        } else {
            if here.is_some() {
                let ghost before = grid_of(board);
                set_cell(board, x as usize, y as usize, Some(player));
                proof {
                    assert forall|a: int, b: int|
                        #[trigger] cell(grid_of(board), a, b) == swept_cell(
                            g,
                            row as int,
                            col as int,
                            dx as int,
                            dy as int,
                            player,
                            j + 1,
                            a,
                            b,
                        ) by {
                        assert(cell(before, a, b) == swept_cell(
                            g,
                            row as int,
                            col as int,
                            dx as int,
                            dy as int,
                            player,
                            j,
                            a,
                            b,
                        ));
                    }
                }
            } else {
                proof {
                    assert forall|a: int, b: int|
                        #[trigger] cell(grid_of(board), a, b) == swept_cell(
                            g,
                            row as int,
                            col as int,
                            dx as int,
                            dy as int,
                            player,
                            j + 1,
                            a,
                            b,
                        ) by {
                    }
                }
            }
            x += dx;
            y += dy;
            proof {
                j = j + 1;
            }
        }
    }
    proof {
        assert(halts_at(g, row as int, col as int, dx as int, dy as int, player, j));
    }
}

/// The disc at (`x`, `y`) changes sides when `p` plays (`row`, `col`): it
/// lies on a ray from the played cell, before the disc of `p` that closes
/// the run in that direction.
pub open spec fn flipped(g: Grid, row: int, col: int, p: Player, x: int, y: int) -> bool {
    let (dx, dy) = toward(row, col, x, y);
    &&& on_ray(row, col, dx, dy, x, y)
    &&& exists|k: int| captures(g, row, col, dx, dy, p, k) && distance(row, col, x, y) < k
}

/// The cell (`x`, `y`) after `p` has played (`row`, `col`).
pub open spec fn placed_cell(g: Grid, row: int, col: int, p: Player, x: int, y: int) -> Option<Player> {
    if (x == row && y == col) || flipped(g, row, col, p, x, y) {
        Some(p)
    } else {
        cell(g, x, y)
    }
}

/// The board after `p` has played (`row`, `col`).
pub open spec fn placed(g: Grid, row: int, col: int, p: Player) -> Grid {
    Seq::new(8, |x: int| Seq::new(8, |y: int| placed_cell(g, row, col, p, x, y)))
}

/// Every disc of a run that the played disc closes is flipped.
pub proof fn lemma_run_is_flipped(g: Grid, row: int, col: int, dx: int, dy: int, p: Player, k: int, j: int)
    requires
        is_direction(dx, dy),
        captures(g, row, col, dx, dy, p, k),
        1 <= j < k,
    ensures
        flipped(g, row, col, p, row + j * dx, col + j * dy),
{
    lemma_ray_point(row, col, dx, dy, j);
}

/// A flipped disc belonged to the other side and stands in a run that the
/// played disc closes: in the direction in which it lies from the played
/// cell, the flip test succeeds.
pub proof fn lemma_flipped_is_in_run(g: Grid, row: int, col: int, p: Player, x: int, y: int)
    requires
        flipped(g, row, col, p, x, y),
    ensures
        !(x == row && y == col),
        cell(g, x, y) == Some(p.other()),
        is_direction(toward(row, col, x, y).0, toward(row, col, x, y).1),
        can_flip(g, row, col, toward(row, col, x, y).0, toward(row, col, x, y).1, p),
{
    let (dx, dy) = toward(row, col, x, y);
    let j = distance(row, col, x, y);
    let k = choose|k: int| captures(g, row, col, dx, dy, p, k) && distance(row, col, x, y) < k;
    assert(ray_cell(g, row, col, dx, dy, j) == Some(p.other()));
}

/// A legal move flips at least one disc.
pub proof fn lemma_legal_move_flips(g: Grid, row: int, col: int, p: Player)
    requires
        legal(g, row, col, p),
    ensures
        exists|x: int, y: int| flipped(g, row, col, p, x, y),
{
    let (dx, dy) = choose|dx: int, dy: int| is_direction(dx, dy) && can_flip(g, row, col, dx, dy, p);
    let k = choose|k: int| captures(g, row, col, dx, dy, p, k);
    lemma_run_is_flipped(g, row, col, dx, dy, p, k, 1);
}

/// The board after a move, cell by cell.
pub proof fn lemma_placed(g: Grid, row: int, col: int, p: Player)
    requires
        in_bounds(row, col),
    ensures
        is_board(placed(g, row, col, p)),
        forall|x: int, y: int|
            #[trigger] cell(placed(g, row, col, p), x, y) == placed_cell(g, row, col, p, x, y),
{
    assert forall|x: int, y: int|
        #[trigger] cell(placed(g, row, col, p), x, y) == placed_cell(g, row, col, p, x, y) by {
        if flipped(g, row, col, p, x, y) {
            lemma_flipped_is_in_run(g, row, col, p, x, y);
        }
    }
}

/// The cell (`x`, `y`) once the first `i` compass directions are done.
pub open spec fn placed_cell_upto(g: Grid, row: int, col: int, p: Player, i: int, x: int, y: int) -> Option<
    Player,
> {
    let (dx, dy) = toward(row, col, x, y);
    if (x == row && y == col) || (flipped(g, row, col, p, x, y) && compass_index(dx, dy) < i) {
        Some(p)
    } else {
        cell(g, x, y)
    }
}

/// One direction of a move: where the run is closed at step `k` on the
/// board before the move, the sweep on the board in progress halts there
/// and flips that run and nothing else.
proof fn lemma_direction_done(
    g: Grid,
    before: Grid,
    after: Grid,
    row: int,
    col: int,
    dx: int,
    dy: int,
    p: Player,
    n: int,
)
    requires
        in_bounds(row, col),
        is_direction(dx, dy),
        can_flip(g, row, col, dx, dy, p),
        forall|a: int, b: int|
            #[trigger] cell(before, a, b) == placed_cell_upto(g, row, col, p, compass_index(dx, dy), a, b),
        halts_at(before, row, col, dx, dy, p, n),
        forall|a: int, b: int| #[trigger] cell(after, a, b) == swept_cell(before, row, col, dx, dy, p, n, a, b),
    ensures
        forall|a: int, b: int|
            #[trigger] cell(after, a, b) == placed_cell_upto(
                g,
                row,
                col,
                p,
                compass_index(dx, dy) + 1,
                a,
                b,
            ),
{
    let k = choose|k: int| captures(g, row, col, dx, dy, p, k);
    let i = compass_index(dx, dy);
    // Along this ray the board in progress still shows the board before the move.
    assert forall|j: int| 1 <= j implies #[trigger] ray_cell(before, row, col, dx, dy, j) == ray_cell(
        g,
        row,
        col,
        dx,
        dy,
        j,
    ) by {
        lemma_ray_point(row, col, dx, dy, j);
        let a = row + j * dx;
        let b = col + j * dy;
        assert(cell(before, a, b) == placed_cell_upto(g, row, col, p, i, a, b));
    }
    assert(halts_at(before, row, col, dx, dy, p, k)) by {
        lemma_ray_point(row, col, dx, dy, k);
        assert forall|j: int| 1 <= j < k implies in_bounds(row + j * dx, col + j * dy)
            && #[trigger] ray_cell(before, row, col, dx, dy, j) != Some(p) by {
            assert(ray_cell(g, row, col, dx, dy, j) == Some(p.other()));
        }
    }
    lemma_halt_unique(before, row, col, dx, dy, p, n, k);
    assert forall|a: int, b: int|
        #[trigger] cell(after, a, b) == placed_cell_upto(g, row, col, p, i + 1, a, b) by {
        assert(cell(before, a, b) == placed_cell_upto(g, row, col, p, i, a, b));
        let (ex, ey) = toward(row, col, a, b);
        if on_ray(row, col, dx, dy, a, b) {
            lemma_on_ray_toward(row, col, dx, dy, a, b);
            let j = distance(row, col, a, b);
            if j < k {
                assert(ray_cell(g, row, col, dx, dy, j) == Some(p.other()));
                assert(ray_cell(before, row, col, dx, dy, j) == ray_cell(g, row, col, dx, dy, j));
            }
        } else if !(a == row && b == col) {
            if is_direction(ex, ey) {
                lemma_compass(ex, ey);
                lemma_compass(dx, dy);
            }
        }
    }
}

/// The board after `player` has placed a disc at (`row`, `col`) and taken
/// the runs that the disc closes. The board given is left as it is.
pub fn make_move_on_board(board: &Vec<Vec<Option<Player>>>, row: usize, col: usize, player: Player) -> (r: Vec<
    Vec<Option<Player>>,
>)
    requires
        is_board(grid_of(board)),
        row < 8,
        col < 8,
    ensures
        is_board(grid_of(&r)),
        grid_of(&r) == placed(grid_of(board), row as int, col as int, player),
        forall|x: int, y: int|
            #[trigger] cell(grid_of(&r), x, y) == placed_cell(
                grid_of(board),
                row as int,
                col as int,
                player,
                x,
                y,
            ),
{
    let ghost g = grid_of(board);
    let mut new_board = copy_board(board);
    set_cell(&mut new_board, row, col, Some(player));
    let mut i: usize = 0;
    while i < 8
        invariant
            i <= 8,
            g == grid_of(board),
            is_board(g),
            is_board(grid_of(&new_board)),
            row < 8,
            col < 8,
            forall|a: int, b: int|
                #[trigger] cell(grid_of(&new_board), a, b) == placed_cell_upto(
                    g,
                    row as int,
                    col as int,
                    player,
                    i as int,
                    a,
                    b,
                ),
        decreases 8 - i,
    {
        let (dx, dy) = direction(i);
        let ghost before = grid_of(&new_board);
        if can_flip_in_direction(board, row, col, dx, dy, player) {
            flip_pieces_in_direction(&mut new_board, row, col, dx, dy, player);
            proof {
                let after = grid_of(&new_board);
                let n = choose|n: int|
                    {
                        &&& #[trigger] halts_at(before, row as int, col as int, dx as int, dy as int, player, n)
                        &&& forall|x: int, y: int|
                            #[trigger] cell(after, x, y) == swept_cell(
                                before,
                                row as int,
                                col as int,
                                dx as int,
                                dy as int,
                                player,
                                n,
                                x,
                                y,
                            )
                    };
                lemma_direction_done(
                    g,
                    before,
                    after,
                    row as int,
                    col as int,
                    dx as int,
                    dy as int,
                    player,
                    n,
                );
            }
        } else {
            proof {
                assert forall|a: int, b: int|
                    #[trigger] cell(before, a, b) == placed_cell_upto(
                        g,
                        row as int,
                        col as int,
                        player,
                        i + 1,
                        a,
                        b,
                    ) by {
                    assert(cell(before, a, b) == placed_cell_upto(
                        g,
                        row as int,
                        col as int,
                        player,
                        i as int,
                        a,
                        b,
                    ));
                    let (ex, ey) = toward(row as int, col as int, a, b);
                    if is_direction(ex, ey) {
                        lemma_compass(ex, ey);
                    }
                }
            }
        }
        i += 1;
    }
    proof {
        let r = grid_of(&new_board);
        assert forall|x: int, y: int|
            #[trigger] cell(r, x, y) == placed_cell(g, row as int, col as int, player, x, y) by {
            assert(cell(r, x, y) == placed_cell_upto(g, row as int, col as int, player, 8, x, y));
            let (ex, ey) = toward(row as int, col as int, x, y);
            if is_direction(ex, ey) {
                lemma_compass(ex, ey);
            }
        }
        assert forall|x: int| 0 <= x < 8 implies #[trigger] r[x] =~= placed(
            g,
            row as int,
            col as int,
            player,
        )[x] by {
            assert(r[x].len() == 8);
            assert forall|y: int| 0 <= y < 8 implies r[x][y] == placed_cell(
                g,
                row as int,
                col as int,
                player,
                x,
                y,
            ) by {
                assert(cell(r, x, y) == r[x][y]);
            }
        }
        assert(r =~= placed(g, row as int, col as int, player));
    }
    new_board
}

/// The cell with number `n` when the cells are numbered row by row.
pub open spec fn square(n: int) -> Position {
    Position { row: (n / 8) as u8, col: (n % 8) as u8 }
}

/// The legal moves of `p` among the first `n` cells, row by row.
pub open spec fn legal_moves_upto(g: Grid, p: Player, n: int) -> Seq<Position>
    decreases n,
{
    if n <= 0 {
        Seq::empty()
    } else {
        let rest = legal_moves_upto(g, p, n - 1);
        if legal(g, (n - 1) / 8, (n - 1) % 8, p) {
            rest.push(square(n - 1))
        } else {
            rest
        }
    }
}

/// The legal moves of `p`, row by row.
pub open spec fn legal_moves(g: Grid, p: Player) -> Seq<Position> {
    legal_moves_upto(g, p, 64)
}

/// `p` has a legal move.
pub open spec fn has_move(g: Grid, p: Player) -> bool {
    exists|x: int, y: int| legal(g, x, y, p)
}

/// A position is among the legal moves of the first `n` cells exactly when
/// it is one of those cells and a legal move.
pub proof fn lemma_legal_moves_upto(g: Grid, p: Player, n: int, pos: Position)
    requires
        0 <= n <= 64,
    ensures
        legal_moves_upto(g, p, n).contains(pos) <==> (pos.row < 8 && pos.col < 8 && pos.row * 8 + pos.col < n
            && legal(g, pos.row as int, pos.col as int, p)),
    decreases n,
{
    if n > 0 {
        lemma_legal_moves_upto(g, p, n - 1, pos);
        let rest = legal_moves_upto(g, p, n - 1);
        let here = square(n - 1);
        if legal(g, (n - 1) / 8, (n - 1) % 8, p) {
            let all = rest.push(here);
            if rest.contains(pos) {
                let i = choose|i: int| 0 <= i < rest.len() && rest[i] == pos;
                assert(all[i] == pos);
            }
            if pos == here {
                assert(all[rest.len() as int] == pos);
            }
            if all.contains(pos) {
                let i = choose|i: int| 0 <= i < all.len() && all[i] == pos;
                if i < rest.len() {
                    assert(rest[i] == pos);
                }
            }
        }
    }
}

/// The list of legal moves holds exactly the legal moves.
pub proof fn lemma_legal_moves(g: Grid, p: Player, pos: Position)
    ensures
        legal_moves(g, p).contains(pos) <==> legal(g, pos.row as int, pos.col as int, p),
{
    lemma_legal_moves_upto(g, p, 64, pos);
}

/// The list of legal moves is empty exactly when there is no legal move.
pub proof fn lemma_has_move(g: Grid, p: Player)
    ensures
        has_move(g, p) <==> legal_moves(g, p).len() > 0,
{
    let moves = legal_moves(g, p);
    if moves.len() > 0 {
        assert(moves.contains(moves[0]));
        lemma_legal_moves(g, p, moves[0]);
        assert(legal(g, moves[0].row as int, moves[0].col as int, p));
    }
    if has_move(g, p) {
        let (x, y) = choose|x: int, y: int| legal(g, x, y, p);
        let pos = Position { row: x as u8, col: y as u8 };
        lemma_legal_moves(g, p, pos);
        assert(moves.contains(pos));
    }
}

/// Among the first `n` cells too, the legal moves stand in the order of
/// their cells.
pub proof fn lemma_legal_moves_ordered(g: Grid, p: Player, n: int)
    requires
        0 <= n <= 64,
    ensures
        forall|i: int|
            0 <= i < legal_moves_upto(g, p, n).len() ==> {
                let m = #[trigger] legal_moves_upto(g, p, n)[i];
                m.row < 8 && m.col < 8 && m.row * 8 + m.col < n
            },
        forall|i: int, j: int|
            0 <= i < j < legal_moves_upto(g, p, n).len() ==> {
                let a = #[trigger] legal_moves_upto(g, p, n)[i];
                let b = #[trigger] legal_moves_upto(g, p, n)[j];
                a.row * 8 + a.col < b.row * 8 + b.col
            },
    decreases n,
{
    if n > 0 {
        lemma_legal_moves_ordered(g, p, n - 1);
        let rest = legal_moves_upto(g, p, n - 1);
        let all = legal_moves_upto(g, p, n);
        let here = square(n - 1);
        assert(here.row == (n - 1) / 8 && here.col == (n - 1) % 8);
        assert forall|i: int| 0 <= i < all.len() implies {
            let m = #[trigger] all[i];
            m.row < 8 && m.col < 8 && m.row * 8 + m.col < n
        } by {
            if i < rest.len() {
                assert(all[i] == rest[i]);
            }
        }
        assert forall|i: int, j: int| 0 <= i < j < all.len() implies {
            let a = #[trigger] all[i];
            let b = #[trigger] all[j];
            a.row * 8 + a.col < b.row * 8 + b.col
        } by {
            assert(all[i] == rest[i]);
            if j < rest.len() {
                assert(all[j] == rest[j]);
            }
        }
    }
}

/// The legal moves are listed row by row, each once.
pub proof fn lemma_legal_moves_row_major(g: Grid, p: Player, i: int, j: int)
    requires
        0 <= i < j < legal_moves(g, p).len(),
    ensures
        legal_moves(g, p)[i].row * 8 + legal_moves(g, p)[i].col < legal_moves(g, p)[j].row * 8 + legal_moves(
            g,
            p,
        )[j].col,
{
    lemma_legal_moves_ordered(g, p, 64);
}

/// Every cell where `player` may place a disc, row by row.
pub fn get_valid_moves_for_player(board: &Vec<Vec<Option<Player>>>, player: Player) -> (moves: Vec<Position>)
    requires
        is_board(grid_of(board)),
    ensures
        moves@ == legal_moves(grid_of(board), player),
{
    let ghost g = grid_of(board);
    let mut moves: Vec<Position> = Vec::new();
    let mut row: usize = 0;
    while row < BOARD_SIZE
        invariant
            row <= 8,
            g == grid_of(board),
            is_board(g),
            moves@ == legal_moves_upto(g, player, row * 8),
        decreases 8 - row,
    {
        let mut col: usize = 0;
        while col < BOARD_SIZE
            invariant
                row < 8,
                col <= 8,
                g == grid_of(board),
                is_board(g),
                moves@ == legal_moves_upto(g, player, row * 8 + col),
            decreases 8 - col,
        {
            if is_valid_move(board, row, col, player) {
                moves.push(Position { row: row as u8, col: col as u8 });
            }
            col += 1;
        }
        row += 1;
    }
    moves
}

/// The number of discs of `p` among the first `n` cells, row by row.
pub open spec fn count_upto(g: Grid, p: Player, n: int) -> nat
    decreases n,
{
    if n <= 0 {
        0
    } else {
        count_upto(g, p, n - 1) + (if cell(g, (n - 1) / 8, (n - 1) % 8) == Some(p) {
            1nat
        } else {
            0nat
        })
    }
}

/// The number of discs of `p` on the board.
pub open spec fn count(g: Grid, p: Player) -> nat {
    count_upto(g, p, 64)
}

/// The number of occupied cells among the first `n`, row by row.
pub open spec fn occupied_upto(g: Grid, n: int) -> nat
    decreases n,
{
    if n <= 0 {
        0
    } else {
        occupied_upto(g, n - 1) + (if cell(g, (n - 1) / 8, (n - 1) % 8) is Some {
            1nat
        } else {
            0nat
        })
    }
}

/// The number of occupied cells of the board.
pub open spec fn occupied(g: Grid) -> nat {
    occupied_upto(g, 64)
}

/// Among any first cells, the discs of the two sides are the occupied
/// cells, and there are no more of them than cells.
pub proof fn lemma_counts_upto(g: Grid, n: int)
    requires
        0 <= n,
    ensures
        count_upto(g, Player::Black, n) + count_upto(g, Player::White, n) == occupied_upto(g, n),
        occupied_upto(g, n) <= n,
    decreases n,
{
    if n > 0 {
        lemma_counts_upto(g, n - 1);
        match cell(g, (n - 1) / 8, (n - 1) % 8) {
            Some(Player::Black) => {},
            Some(Player::White) => {},
            None => {},
        }
    }
}

/// Where `h` has the discs of `g`, whatever their side, and one more on
/// the empty cell (`row`, `col`), it has one more occupied cell among the
/// first `n` as soon as these include (`row`, `col`).
pub proof fn lemma_one_more(g: Grid, h: Grid, row: int, col: int, n: int)
    requires
        0 <= n,
        in_bounds(row, col),
        cell(g, row, col) is None,
        cell(h, row, col) is Some,
        forall|x: int, y: int|
            !(x == row && y == col) ==> (#[trigger] cell(h, x, y) is Some <==> cell(g, x, y) is Some),
    ensures
        occupied_upto(h, n) == occupied_upto(g, n) + (if row * 8 + col < n {
            1nat
        } else {
            0nat
        }),
    decreases n,
{
    if n > 0 {
        lemma_one_more(g, h, row, col, n - 1);
        let x = (n - 1) / 8;
        let y = (n - 1) % 8;
        if !(x == row && y == col) {
            assert(cell(h, x, y) is Some <==> cell(g, x, y) is Some);
        }
    }
}

/// The discs of each side, black first.
pub fn count_pieces(board: &Vec<Vec<Option<Player>>>) -> (r: (u8, u8))
    requires
        is_board(grid_of(board)),
    ensures
        r.0 == count(grid_of(board), Player::Black),
        r.1 == count(grid_of(board), Player::White),
{
    let ghost g = grid_of(board);
    let mut black: u8 = 0;
    let mut white: u8 = 0;
    let mut x: usize = 0;
    while x < 8
        invariant
            x <= 8,
            g == grid_of(board),
            is_board(g),
            black == count_upto(g, Player::Black, x * 8),
            white == count_upto(g, Player::White, x * 8),
        decreases 8 - x,
    {
        let mut y: usize = 0;
        while y < 8
            invariant
                x < 8,
                y <= 8,
                g == grid_of(board),
                is_board(g),
                black == count_upto(g, Player::Black, x * 8 + y),
                white == count_upto(g, Player::White, x * 8 + y),
            decreases 8 - y,
        {
            proof {
                lemma_counts_upto(g, x * 8 + y);
                assert(g[x as int].len() == 8);
            }
            match board[x][y] {
                Some(Player::Black) => {
                    black += 1;
                },
                Some(Player::White) => {
                    white += 1;
                },
                None => {},
            }
            y += 1;
        }
        x += 1;
    }
    (black, white)
}

} // verus!
