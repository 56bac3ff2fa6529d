//! The game: its state, the four operations on it, and what holds of every
//! game that starts from the opening position.

use vstd::prelude::*;
use crate::board::{
    Player, Position, Grid, grid_of, is_board, in_bounds, is_direction, cell, ray_cell, set_cell,
    copy_board,
};
use crate::rules::{
    legal, captures, can_flip, placed, flipped, legal_moves, has_move, count, count_upto, occupied,
    lemma_legal_moves, lemma_has_move, lemma_counts_upto, lemma_one_more, lemma_placed,
    lemma_flipped_is_in_run, is_valid_move, make_move_on_board, get_valid_moves_for_player,
    count_pieces,
};

verus! {

/// Everything there is to know of a game in progress.
#[derive(Debug, PartialEq, Eq)]
pub struct GameState {
    pub board: Vec<Vec<Option<Player>>>,
    pub current_player: Player,
    pub black_count: u8,
    pub white_count: u8,
    pub game_over: bool,
}

/// The model of a `GameState`.
pub struct GameModel {
    pub grid: Grid,
    pub current_player: Player,
    pub black_count: nat,
    pub white_count: nat,
    pub game_over: bool,
}

impl View for GameState {
    type V = GameModel;

    open spec fn view(&self) -> GameModel {
        GameModel {
            grid: grid_of(&self.board),
            current_player: self.current_player,
            black_count: self.black_count as nat,
            white_count: self.white_count as nat,
            game_over: self.game_over,
        }
    }
}

impl Clone for GameState {
    fn clone(&self) -> (r: GameState)
        ensures
            r@ == self@,
    {
        GameState {
            board: copy_board(&self.board),
            current_player: self.current_player,
            black_count: self.black_count,
            white_count: self.white_count,
            game_over: self.game_over,
        }
    }
}

/// What a move request comes to.
#[derive(Debug, PartialEq, Eq)]
pub enum MoveResult {
    Success(GameState),
    InvalidMove,
    GameOver,
}

/// The model of a `MoveResult`.
pub enum Outcome {
    Accepted(GameModel),
    InvalidMove,
    GameOver,
}

impl View for MoveResult {
    type V = Outcome;

    open spec fn view(&self) -> Outcome {
        match self {
            MoveResult::Success(s) => Outcome::Accepted(s@),
            MoveResult::InvalidMove => Outcome::InvalidMove,
            MoveResult::GameOver => Outcome::GameOver,
        }
    }
}

/// A state as play produces it: the counts are those of the board, and the
/// game is over exactly when neither side has a legal move.
pub open spec fn well_formed(s: GameModel) -> bool {
    &&& is_board(s.grid)
    &&& s.black_count == count(s.grid, Player::Black)
    &&& s.white_count == count(s.grid, Player::White)
    &&& s.game_over <==> !has_move(s.grid, Player::Black) && !has_move(s.grid, Player::White)
}

/// The cell (`x`, `y`) of the opening position.
pub open spec fn opening_cell(x: int, y: int) -> Option<Player> {
    if (x == 3 && y == 3) || (x == 4 && y == 4) {
        Some(Player::White)
    } else if (x == 3 && y == 4) || (x == 4 && y == 3) {
        Some(Player::Black)
    } else {
        None
    }
}

/// The opening position: four discs in the centre, Black to move.
pub open spec fn opening() -> GameModel {
    GameModel {
        grid: Seq::new(8, |x: int| Seq::new(8, |y: int| opening_cell(x, y))),
        current_player: Player::Black,
        black_count: 2,
        white_count: 2,
        game_over: false,
    }
}

/// The state after the side to move has played the legal move
/// (`row`, `col`). The turn passes to the other side unless only the mover
/// can move on; where neither can, the game is over.
pub open spec fn after_move(s: GameModel, row: int, col: int) -> GameModel {
    let mover = s.current_player;
    let next = mover.other();
    let g = placed(s.grid, row, col, mover);
    GameModel {
        grid: g,
        current_player: if !has_move(g, next) && has_move(g, mover) {
            mover
        } else {
            next
        },
        black_count: count(g, Player::Black),
        white_count: count(g, Player::White),
        game_over: !has_move(g, next) && !has_move(g, mover),
    }
}

/// What the request to play (`row`, `col`) comes to in state `s`.
pub open spec fn outcome(s: GameModel, row: int, col: int) -> Outcome {
    if s.game_over {
        Outcome::GameOver
    } else if !legal(s.grid, row, col, s.current_player) {
        Outcome::InvalidMove
    } else {
        Outcome::Accepted(after_move(s, row, col))
    }
}

/// The state that the request to play (`row`, `col`) leaves behind.
pub open spec fn state_after(s: GameModel, row: int, col: int) -> GameModel {
    match outcome(s, row, col) {
        Outcome::Accepted(t) => t,
        _ => s,
    }
}

/// A row of eight empty cells.
fn empty_row() -> (r: Vec<Option<Player>>)
    ensures
        r@.len() == 8,
        forall|y: int| 0 <= y < 8 ==> r@[y] is None,
{
    let mut line: Vec<Option<Player>> = Vec::new();
    let mut y: usize = 0;
    while y < 8
        invariant
            y <= 8,
            line@.len() == y,
            forall|j: int| 0 <= j < y ==> line@[j] is None,
        decreases 8 - y,
    {
        line.push(None);
        y += 1;
    }
    line
}

/// The opening position.
pub fn create_initial_game_state() -> (r: GameState)
    ensures
        r@ == opening(),
        well_formed(r@),
{
    let mut board: Vec<Vec<Option<Player>>> = Vec::new();
    let mut x: usize = 0;
    while x < 8
        invariant
            x <= 8,
            board@.len() == x,
            forall|i: int, j: int| 0 <= i < x && 0 <= j < 8 ==> (#[trigger] board@[i]@[j]) is None,
            forall|i: int| 0 <= i < x ==> (#[trigger] board@[i])@.len() == 8,
        decreases 8 - x,
    {
        board.push(empty_row());
        x += 1;
    }
    proof {
        assert forall|r: int| 0 <= r < 8 implies (#[trigger] grid_of(&board)[r]).len() == 8 by {
            assert(board@[r]@.len() == 8);
        }
        assert forall|a: int, b: int| #[trigger] cell(grid_of(&board), a, b) is None by {
            if in_bounds(a, b) {
                assert(board@[a]@[b] is None);
            }
        }
    }
    set_cell(&mut board, 3, 3, Some(Player::White));
    set_cell(&mut board, 3, 4, Some(Player::Black));
    set_cell(&mut board, 4, 3, Some(Player::Black));
    set_cell(&mut board, 4, 4, Some(Player::White));
    proof {
        let g = grid_of(&board);
        assert forall|a: int| 0 <= a < 8 implies #[trigger] g[a] =~= opening().grid[a] by {
            assert(g[a].len() == 8);
            assert forall|b: int| 0 <= b < 8 implies g[a][b] == opening_cell(a, b) by {
                assert(cell(g, a, b) == g[a][b]);
            }
        }
        assert(g =~= opening().grid);
        lemma_opening_well_formed();
    }
    GameState { board, current_player: Player::Black, black_count: 2, white_count: 2, game_over: false }
}

/// Starts the game anew: whatever `state` held is replaced by the opening
/// position, which is also returned.
pub fn create_game(state: &mut GameState) -> (r: GameState)
    ensures
        final(state)@ == opening(),
        r@ == opening(),
{
    let initial_state = create_initial_game_state();
    *state = initial_state.clone();
    initial_state
}

/// A copy of the state.
pub fn get_game_state(state: &GameState) -> (r: GameState)
    ensures
        r@ == state@,
{
    state.clone()
}

/// The legal moves of the side to move, row by row.
pub fn get_valid_moves(state: &GameState) -> (moves: Vec<Position>)
    requires
        is_board(state@.grid),
    ensures
        moves@ == legal_moves(state@.grid, state@.current_player),
{
    get_valid_moves_for_player(&state.board, state.current_player)
}

/// Plays `pos` for the side to move. A request after the end of the game,
/// or for a cell that is no legal move, is turned down and changes nothing.
pub fn make_move(state: &mut GameState, pos: Position) -> (r: MoveResult)
    requires
        is_board(old(state)@.grid),
    ensures
        r@ == outcome(old(state)@, pos.row as int, pos.col as int),
        final(state)@ == state_after(old(state)@, pos.row as int, pos.col as int),
        is_board(final(state)@.grid),
        r@ is Accepted ==> well_formed(final(state)@),
{
    if state.game_over {
        return MoveResult::GameOver;
    }
    let row: usize = pos.row as usize;
    let col: usize = pos.col as usize;
    let mover = state.current_player;
    if !is_valid_move(&state.board, row, col, mover) {
        return MoveResult::InvalidMove;
    }
    let new_board = make_move_on_board(&state.board, row, col, mover);
    let next = mover.opponent();
    let (black_count, white_count) = count_pieces(&new_board);
    let next_can_move = get_valid_moves_for_player(&new_board, next).len() > 0;
    let mover_can_move = get_valid_moves_for_player(&new_board, mover).len() > 0;
    proof {
        lemma_has_move(grid_of(&new_board), next);
        lemma_has_move(grid_of(&new_board), mover);
    }
    let game_over = !next_can_move && !mover_can_move;
    let current_player = if !next_can_move && mover_can_move {
        mover
    } else {
        next
    };
    let new_state = GameState { board: new_board, current_player, black_count, white_count, game_over };
    proof {
        lemma_move_keeps_well_formed(old(state)@, pos.row as int, pos.col as int);
    }
    *state = new_state.clone();
    MoveResult::Success(new_state)
}

/// The discs of each side among the first `n` cells of the opening position.
proof fn lemma_opening_counts(n: int)
    requires
        0 <= n <= 64,
    ensures
        count_upto(opening().grid, Player::Black, n) == (if n > 35 {
            2nat
        } else if n > 28 {
            1nat
        } else {
            0nat
        }),
        count_upto(opening().grid, Player::White, n) == (if n > 36 {
            2nat
        } else if n > 27 {
            1nat
        } else {
            0nat
        }),
    decreases n,
{
    if n > 0 {
        lemma_opening_counts(n - 1);
        let x = (n - 1) / 8;
        let y = (n - 1) % 8;
        assert(cell(opening().grid, x, y) == opening_cell(x, y));
    }
}

/// The opening position is a state as play produces it: two discs of each
/// side are on the board, and the game is not over.
pub proof fn lemma_opening_well_formed()
    ensures
        well_formed(opening()),
        legal(opening().grid, 2, 3, Player::Black),
{
    let g = opening().grid;
    lemma_opening_counts(64);
    assert(cell(g, 2, 3) == opening_cell(2, 3));
    assert(cell(g, 3, 3) == opening_cell(3, 3));
    assert(cell(g, 4, 3) == opening_cell(4, 3));
    assert(captures(g, 2, 3, 1, 0, Player::Black, 2)) by {
        assert forall|j: int| 1 <= j < 2 implies #[trigger] ray_cell(g, 2, 3, 1, 0, j) == Some(
            Player::White,
        ) by {
            assert(j == 1);
        }
    }
    assert(can_flip(g, 2, 3, 1, 0, Player::Black));
    assert(is_direction(1, 0));
    assert(legal(g, 2, 3, Player::Black));
    assert(has_move(g, Player::Black));
}

/// A move that is accepted leaves a state as play produces it.
pub proof fn lemma_move_keeps_well_formed(s: GameModel, row: int, col: int)
    requires
        outcome(s, row, col) is Accepted,
    ensures
        well_formed(after_move(s, row, col)),
{
    lemma_placed(s.grid, row, col, s.current_player);
    match s.current_player {
        Player::Black => {},
        Player::White => {},
    }
}

/// In a state as play produces it, the two counts together are the number
/// of occupied cells.
pub proof fn lemma_counts_are_occupied(s: GameModel)
    requires
        well_formed(s),
    ensures
        s.black_count + s.white_count == occupied(s.grid),
{
    lemma_counts_upto(s.grid, 64);
}

/// No move takes a disc off the board: a cell that holds a disc holds one
/// after any request, whatever its side.
pub proof fn lemma_discs_stay(s: GameModel, row: int, col: int, x: int, y: int)
    requires
        cell(s.grid, x, y) is Some,
    ensures
        cell(state_after(s, row, col).grid, x, y) is Some,
{
    if outcome(s, row, col) is Accepted {
        lemma_placed(s.grid, row, col, s.current_player);
    }
}

/// A move that is accepted adds one disc to the board.
pub proof fn lemma_move_adds_one_disc(s: GameModel, row: int, col: int)
    requires
        outcome(s, row, col) is Accepted,
    ensures
        occupied(after_move(s, row, col).grid) == occupied(s.grid) + 1,
        after_move(s, row, col).black_count + after_move(s, row, col).white_count == occupied(s.grid) + 1,
{
    let p = s.current_player;
    let h = placed(s.grid, row, col, p);
    lemma_placed(s.grid, row, col, p);
    assert forall|x: int, y: int| !(x == row && y == col) implies (#[trigger] cell(h, x, y) is Some <==> cell(
        s.grid,
        x,
        y,
    ) is Some) by {
        if flipped(s.grid, row, col, p, x, y) {
            lemma_flipped_is_in_run(s.grid, row, col, p, x, y);
        }
    }
    lemma_one_more(s.grid, h, row, col, 64);
    lemma_counts_upto(h, 64);
}

/// Across any request the two counts together never go down, in a state as
/// play produces it.
pub proof fn lemma_counts_never_decrease(s: GameModel, row: int, col: int)
    requires
        well_formed(s),
    ensures
        state_after(s, row, col).black_count + state_after(s, row, col).white_count >= s.black_count
            + s.white_count,
{
    if outcome(s, row, col) is Accepted {
        lemma_move_adds_one_disc(s, row, col);
        lemma_counts_are_occupied(s);
    }
}

/// A position is in the list of legal moves exactly when the request to
/// play it is accepted, unless the state is marked as over while the side
/// to move could still move.
pub proof fn lemma_legality_agreement(s: GameModel, pos: Position)
    requires
        s.game_over ==> !has_move(s.grid, s.current_player),
    ensures
        legal_moves(s.grid, s.current_player).contains(pos) <==> outcome(
            s,
            pos.row as int,
            pos.col as int,
        ) is Accepted,
{
    lemma_legal_moves(s.grid, s.current_player, pos);
}

/// Once the game is over every request is turned down as such, and the
/// state stays as it is.
pub proof fn lemma_game_over_is_final(s: GameModel, row: int, col: int)
    requires
        s.game_over,
    ensures
        outcome(s, row, col) is GameOver,
        state_after(s, row, col) == s,
{
}

/// Where the side to move has no legal move, every request is turned down:
/// as an invalid move while the game is on.
pub proof fn lemma_no_move_no_success(s: GameModel, row: int, col: int)
    requires
        !has_move(s.grid, s.current_player),
    ensures
        !(outcome(s, row, col) is Accepted),
        !s.game_over ==> outcome(s, row, col) is InvalidMove,
{
}

/// The state that a series of requests leads to from the opening position.
pub open spec fn play(requests: Seq<Position>) -> GameModel
    decreases requests.len(),
{
    if requests.len() == 0 {
        opening()
    } else {
        let last = requests.last();
        state_after(play(requests.drop_last()), last.row as int, last.col as int)
    }
}

/// Every state that can be reached from the opening position is a state as
/// play produces it; so its two counts together are the number of occupied
/// cells.
pub proof fn lemma_reachable_well_formed(requests: Seq<Position>)
    ensures
        well_formed(play(requests)),
        play(requests).black_count + play(requests).white_count == occupied(play(requests).grid),
    decreases requests.len(),
{
    if requests.len() == 0 {
        lemma_opening_well_formed();
    } else {
        let before = play(requests.drop_last());
        let last = requests.last();
        lemma_reachable_well_formed(requests.drop_last());
        if outcome(before, last.row as int, last.col as int) is Accepted {
            lemma_move_keeps_well_formed(before, last.row as int, last.col as int);
        }
    }
    lemma_counts_are_occupied(play(requests));
}

/// A cell that holds a disc at some point of a game holds one at every
/// later point, and the two counts together are never less than before.
pub proof fn lemma_reachable_monotonic(requests: Seq<Position>, i: int)
    requires
        0 <= i <= requests.len(),
    ensures
        forall|x: int, y: int|
            cell(play(requests.take(i)).grid, x, y) is Some ==> #[trigger] cell(play(requests).grid, x, y)
                is Some,
        play(requests.take(i)).black_count + play(requests.take(i)).white_count <= play(
            requests,
        ).black_count + play(requests).white_count,
    decreases requests.len(),
{
    if i == requests.len() {
        assert(requests.take(i) =~= requests);
    } else {
        let shorter = requests.drop_last();
        let last = requests.last();
        assert(shorter.take(i) =~= requests.take(i));
        lemma_reachable_monotonic(shorter, i);
        lemma_reachable_well_formed(shorter);
        lemma_counts_never_decrease(play(shorter), last.row as int, last.col as int);
        assert forall|x: int, y: int| cell(play(requests.take(i)).grid, x, y) is Some implies #[trigger] cell(
            play(requests).grid,
            x,
            y,
        ) is Some by {
            assert(cell(play(shorter).grid, x, y) is Some);
            lemma_discs_stay(play(shorter), last.row as int, last.col as int, x, y);
        }
    }
}

} // verus!
