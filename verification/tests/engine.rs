use reversi_backend::board::{copy_board, direction, is_well_shaped, set_cell, Player, Position};
use reversi_backend::game::{
    create_game, create_initial_game_state, get_game_state, get_valid_moves, make_move, GameState,
    MoveResult,
};
use reversi_backend::rules::{
    can_flip_in_direction, count_pieces, flip_pieces_in_direction, get_valid_moves_for_player,
    is_valid_move, make_move_on_board,
};

const B: Option<Player> = Some(Player::Black);
const W: Option<Player> = Some(Player::White);

/// Builds a board from eight lines of eight characters: `B`, `W` or `.`.
fn board_from(lines: [&str; 8]) -> Vec<Vec<Option<Player>>> {
    lines
        .iter()
        .map(|line| {
            assert_eq!(line.len(), 8);
            line.chars()
                .map(|c| match c {
                    'B' => B,
                    'W' => W,
                    '.' => None,
                    other => panic!("unexpected cell {other}"),
                })
                .collect()
        })
        .collect()
}

fn state_from(lines: [&str; 8], current_player: Player) -> GameState {
    let board = board_from(lines);
    let (black_count, white_count) = count_pieces(&board);
    GameState { board, current_player, black_count, white_count, game_over: false }
}

fn pos(row: u8, col: u8) -> Position {
    Position { row, col }
}

fn occupied_cells(board: &Vec<Vec<Option<Player>>>) -> usize {
    board.iter().map(|row| row.iter().filter(|c| c.is_some()).count()).sum()
}

#[test]
fn opponent_swaps_sides() {
    assert_eq!(Player::Black.opponent(), Player::White);
    assert_eq!(Player::White.opponent(), Player::Black);
}

#[test]
fn directions_are_the_eight_neighbours_in_row_order() {
    let all: Vec<(i32, i32)> = (0..8).map(direction).collect();
    assert_eq!(all, vec![(-1, -1), (-1, 0), (-1, 1), (0, -1), (0, 1), (1, -1), (1, 0), (1, 1)]);
}

#[test]
fn shape_check_accepts_only_eight_by_eight() {
    assert!(is_well_shaped(&create_initial_game_state().board));
    assert!(!is_well_shaped(&vec![vec![None; 8]; 7]));
    let mut ragged = vec![vec![None; 8]; 8];
    ragged[5].pop();
    assert!(!is_well_shaped(&ragged));
}

#[test]
fn set_cell_changes_one_cell() {
    let mut board = board_from(["........"; 8]);
    set_cell(&mut board, 2, 5, W);
    let mut expected = board_from(["........"; 8]);
    expected[2][5] = W;
    assert_eq!(board, expected);
}

#[test]
fn copy_board_is_equal_and_independent() {
    let first = create_initial_game_state().board;
    let mut second = copy_board(&first);
    assert_eq!(second, first);
    set_cell(&mut second, 0, 0, B);
    assert_eq!(first[0][0], None);
}

#[test]
fn initial_state_is_the_opening_position() {
    let s = create_initial_game_state();
    let expected = board_from([
        "........",
        "........",
        "........",
        "...WB...",
        "...BW...",
        "........",
        "........",
        "........",
    ]);
    assert_eq!(s.board, expected);
    assert_eq!(s.board[3][3], W);
    assert_eq!(s.board[4][4], W);
    assert_eq!(s.board[3][4], B);
    assert_eq!(s.board[4][3], B);
    assert_eq!(s.black_count, 2);
    assert_eq!(s.white_count, 2);
    assert_eq!(s.current_player, Player::Black);
    assert!(!s.game_over);
}

#[test]
fn create_game_discards_the_game_in_progress() {
    let mut s = create_initial_game_state();
    assert!(matches!(make_move(&mut s, pos(2, 3)), MoveResult::Success(_)));
    assert_ne!(s, create_initial_game_state());
    let returned = create_game(&mut s);
    assert_eq!(returned, create_initial_game_state());
    assert_eq!(s, create_initial_game_state());
}

#[test]
fn reading_the_state_twice_gives_the_same() {
    let mut s = create_initial_game_state();
    assert!(matches!(make_move(&mut s, pos(2, 3)), MoveResult::Success(_)));
    let first = get_game_state(&s);
    let second = get_game_state(&s);
    assert_eq!(first, second);
    assert_eq!(first, s);
}

#[test]
fn flip_test_on_the_opening_position() {
    let board = create_initial_game_state().board;
    assert!(can_flip_in_direction(&board, 2, 3, 1, 0, Player::Black));
    assert!(!can_flip_in_direction(&board, 2, 3, -1, 0, Player::Black));
    assert!(!can_flip_in_direction(&board, 2, 3, 1, 1, Player::Black));
    assert!(!can_flip_in_direction(&board, 2, 3, 1, 0, Player::White));
    assert!(can_flip_in_direction(&board, 2, 4, 1, 0, Player::White));
}

#[test]
fn flip_test_fails_on_gap_edge_and_own_neighbour() {
    let board = board_from([
        ".WWWWWWW",
        ".W.B....",
        ".BB.....",
        "........",
        "........",
        "........",
        "........",
        "........",
    ]);
    // A run that reaches the edge without a closing disc.
    assert!(!can_flip_in_direction(&board, 0, 0, 0, 1, Player::Black));
    // A gap before the closing disc.
    assert!(!can_flip_in_direction(&board, 1, 0, 0, 1, Player::Black));
    // An own disc right next to the cell.
    assert!(!can_flip_in_direction(&board, 2, 0, 0, 1, Player::Black));
    // A closed run.
    assert!(can_flip_in_direction(&board, 1, 0, 0, 1, Player::White) == false);
    assert!(can_flip_in_direction(&board, 2, 3, 0, -1, Player::White) == false);
    assert!(can_flip_in_direction(&board, 3, 1, -1, 0, Player::White));
}

#[test]
fn flip_test_sees_a_long_run() {
    let board = board_from([
        ".WWWWWWB",
        "........",
        "........",
        "........",
        "........",
        "........",
        "........",
        "........",
    ]);
    assert!(can_flip_in_direction(&board, 0, 0, 0, 1, Player::Black));
    assert!(is_valid_move(&board, 0, 0, Player::Black));
    let after = make_move_on_board(&board, 0, 0, Player::Black);
    assert_eq!(after[0], vec![B; 8]);
    assert_eq!(count_pieces(&after), (8, 0));
}

#[test]
fn valid_move_rejects_off_board_and_occupied_cells() {
    let board = create_initial_game_state().board;
    assert!(!is_valid_move(&board, 8, 0, Player::Black));
    assert!(!is_valid_move(&board, 0, 8, Player::Black));
    assert!(!is_valid_move(&board, usize::MAX, usize::MAX, Player::Black));
    assert!(!is_valid_move(&board, 3, 3, Player::Black));
    assert!(!is_valid_move(&board, 3, 4, Player::Black));
    assert!(!is_valid_move(&board, 0, 0, Player::Black));
    assert!(is_valid_move(&board, 2, 3, Player::Black));
    assert!(!is_valid_move(&board, 2, 3, Player::White));
}

#[test]
fn sweep_takes_discs_up_to_the_first_own_disc_and_passes_gaps() {
    let mut board = board_from([
        ".W.WBW..",
        "........",
        "........",
        "........",
        "........",
        "........",
        "........",
        "........",
    ]);
    flip_pieces_in_direction(&mut board, 0, 0, 0, 1, Player::Black);
    let expected = board_from([
        ".B.BBW..",
        "........",
        "........",
        "........",
        "........",
        "........",
        "........",
        "........",
    ]);
    assert_eq!(board, expected);
}

#[test]
fn sweep_without_own_disc_runs_to_the_edge() {
    let mut board = board_from([
        "........",
        "........",
        "..W.....",
        "...W....",
        "........",
        ".....W..",
        "........",
        "........",
    ]);
    flip_pieces_in_direction(&mut board, 1, 1, 1, 1, Player::Black);
    let expected = board_from([
        "........",
        "........",
        "..B.....",
        "...B....",
        "........",
        ".....B..",
        "........",
        "........",
    ]);
    assert_eq!(board, expected);
}

#[test]
fn move_on_board_flips_in_every_closed_direction_only() {
    let board = board_from([
        "B..B..B.",
        ".W.W.W..",
        "..WWW...",
        "BWW.WW.B",
        "..WWW...",
        ".W.W.W..",
        "B..B..W.",
        ".......B",
    ]);
    let after = make_move_on_board(&board, 3, 3, Player::Black);
    let expected = board_from([
        "B..B..B.",
        ".B.B.B..",
        "..BBB...",
        "BBBBWW.B",
        "..BBB...",
        ".B.B.B..",
        "B..B..B.",
        ".......B",
    ]);
    assert_eq!(after, expected);
    // The board that was given is untouched.
    assert_eq!(board[3][3], None);
    assert_eq!(count_pieces(&after), (24, 2));
}

#[test]
fn valid_moves_of_the_opening_in_row_order() {
    let s = create_initial_game_state();
    assert_eq!(
        get_valid_moves_for_player(&s.board, Player::Black),
        vec![pos(2, 3), pos(3, 2), pos(4, 5), pos(5, 4)]
    );
    assert_eq!(
        get_valid_moves_for_player(&s.board, Player::White),
        vec![pos(2, 4), pos(3, 5), pos(4, 2), pos(5, 3)]
    );
    assert_eq!(get_valid_moves(&s), vec![pos(2, 3), pos(3, 2), pos(4, 5), pos(5, 4)]);
}

#[test]
fn valid_moves_follow_the_side_to_move() {
    let mut s = create_initial_game_state();
    assert!(matches!(make_move(&mut s, pos(2, 3)), MoveResult::Success(_)));
    assert_eq!(s.current_player, Player::White);
    assert_eq!(get_valid_moves(&s), vec![pos(2, 2), pos(2, 4), pos(4, 2)]);
}

#[test]
fn count_pieces_counts_each_side() {
    assert_eq!(count_pieces(&board_from(["........"; 8])), (0, 0));
    assert_eq!(count_pieces(&board_from(["BBBBBBBB"; 8])), (64, 0));
    assert_eq!(count_pieces(&board_from(["WWWWWWWW"; 8])), (0, 64));
    let mixed = board_from([
        "BW......",
        "........",
        "...W....",
        "........",
        "....B...",
        "........",
        "........",
        "W......W",
    ]);
    assert_eq!(count_pieces(&mixed), (2, 4));
}

#[test]
fn example_flip_from_the_opening() {
    let mut s = create_initial_game_state();
    let result = make_move(&mut s, pos(2, 3));
    let expected = board_from([
        "........",
        "........",
        "...B....",
        "...BB...",
        "...BW...",
        "........",
        "........",
        "........",
    ]);
    match result {
        MoveResult::Success(returned) => {
            assert_eq!(returned, s);
            assert_eq!(returned.board, expected);
            assert_eq!(returned.board[3][3], B);
            assert_eq!(returned.black_count, 4);
            assert_eq!(returned.white_count, 1);
            assert_eq!(returned.current_player, Player::White);
            assert!(!returned.game_over);
        }
        other => panic!("expected an accepted move, got {other:?}"),
    }
}

#[test]
fn invalid_moves_leave_the_state_untouched() {
    let mut s = create_initial_game_state();
    for p in [pos(8, 0), pos(0, 8), pos(255, 255), pos(3, 3), pos(0, 0), pos(2, 4)] {
        assert_eq!(make_move(&mut s, p), MoveResult::InvalidMove);
        assert_eq!(s, create_initial_game_state());
    }
}

#[test]
fn a_cell_is_listed_exactly_when_the_move_is_accepted() {
    let mut s = create_initial_game_state();
    assert!(matches!(make_move(&mut s, pos(2, 3)), MoveResult::Success(_)));
    assert!(matches!(make_move(&mut s, pos(2, 2)), MoveResult::Success(_)));
    let listed = get_valid_moves(&s);
    let mut accepted = Vec::new();
    for row in 0..10u8 {
        for col in 0..10u8 {
            let mut trial = get_game_state(&s);
            if let MoveResult::Success(_) = make_move(&mut trial, pos(row, col)) {
                accepted.push(pos(row, col));
            } else {
                assert_eq!(trial, s);
            }
        }
    }
    assert!(!listed.is_empty());
    assert_eq!(listed, accepted);
}

#[test]
fn side_without_a_move_is_refused_everywhere_and_the_other_side_moves() {
    let lines = [
        ".B......",
        "WB......",
        "........",
        "........",
        "........",
        "........",
        "........",
        "........",
    ];
    let mut s = state_from(lines, Player::Black);
    assert!(get_valid_moves(&s).is_empty());
    for row in 0..8u8 {
        for col in 0..8u8 {
            assert_eq!(make_move(&mut s, pos(row, col)), MoveResult::InvalidMove);
        }
    }
    assert_eq!(s, state_from(lines, Player::Black));

    let mut s = state_from(lines, Player::White);
    assert_eq!(get_valid_moves(&s), vec![pos(1, 2)]);
    let result = make_move(&mut s, pos(1, 2));
    assert!(matches!(result, MoveResult::Success(_)));
    assert_eq!(
        s.board,
        board_from([
            ".B......",
            "WWW.....",
            "........",
            "........",
            "........",
            "........",
            "........",
            "........",
        ])
    );
    assert_eq!((s.black_count, s.white_count), (1, 3));
    assert_eq!(s.current_player, Player::Black);
    assert!(!s.game_over);
    assert_eq!(get_valid_moves(&s), vec![pos(2, 1), pos(2, 3)]);
}

#[test]
fn turn_stays_with_the_mover_when_the_other_side_cannot_move() {
    let mut s = state_from(
        [
            "BW......",
            "........",
            "........",
            "........",
            "........",
            "........",
            "........",
            "BW......",
        ],
        Player::Black,
    );
    let result = make_move(&mut s, pos(0, 2));
    assert!(matches!(result, MoveResult::Success(_)));
    assert_eq!(s.current_player, Player::Black);
    assert!(!s.game_over);
    assert_eq!((s.black_count, s.white_count), (4, 1));
    assert_eq!(get_valid_moves(&s), vec![pos(7, 2)]);
}

#[test]
fn game_ends_when_neither_side_can_move() {
    let mut s = state_from(
        [
            "BBB.....",
            "........",
            "........",
            "........",
            "........",
            "........",
            "........",
            "BW......",
        ],
        Player::Black,
    );
    let result = make_move(&mut s, pos(7, 2));
    match result {
        MoveResult::Success(returned) => {
            assert!(returned.game_over);
            // The turn marker names the side that did not move.
            assert_eq!(returned.current_player, Player::White);
            assert_eq!((returned.black_count, returned.white_count), (6, 0));
            assert_eq!(returned, s);
        }
        other => panic!("expected an accepted move, got {other:?}"),
    }
    let ended = get_game_state(&s);
    for p in [pos(0, 0), pos(0, 3), pos(7, 3), pos(9, 9)] {
        assert_eq!(make_move(&mut s, p), MoveResult::GameOver);
        assert_eq!(s, ended);
    }
    assert!(get_valid_moves(&s).is_empty());
}

#[test]
fn last_empty_cell_ends_the_game() {
    let mut s = state_from(
        [
            "BBBBBBBB",
            "BBBBBBBB",
            "BBBBBBBB",
            "BBBBBBBB",
            "BBBBBBBB",
            "BBBBBBBB",
            "BBBBBBBB",
            "BBBBBBW.",
        ],
        Player::Black,
    );
    let result = make_move(&mut s, pos(7, 7));
    assert!(matches!(result, MoveResult::Success(_)));
    assert!(s.game_over);
    assert_eq!((s.black_count, s.white_count), (64, 0));
    assert_eq!(s.current_player, Player::White);
    assert_eq!(make_move(&mut s, pos(0, 0)), MoveResult::GameOver);
}

#[test]
fn game_over_takes_precedence_over_an_invalid_cell() {
    let mut s = create_initial_game_state();
    s.game_over = true;
    assert_eq!(make_move(&mut s, pos(2, 3)), MoveResult::GameOver);
    assert_eq!(make_move(&mut s, pos(200, 3)), MoveResult::GameOver);
    assert_eq!(s.board, create_initial_game_state().board);
}

#[test]
fn counts_match_the_board_and_discs_stay_through_a_game() {
    let mut s = create_initial_game_state();
    let mut moves_played = 0;
    while !s.game_over && moves_played < 80 {
        let before = get_game_state(&s);
        let moves = get_valid_moves(&s);
        assert!(!moves.is_empty());
        // Alternate between the first and the last listed move.
        let choice = if moves_played % 2 == 0 { moves[0] } else { moves[moves.len() - 1] };
        assert!(matches!(make_move(&mut s, choice), MoveResult::Success(_)));
        moves_played += 1;

        assert_eq!(count_pieces(&s.board), (s.black_count, s.white_count));
        assert_eq!(s.black_count as usize + s.white_count as usize, occupied_cells(&s.board));
        assert_eq!(
            s.black_count as usize + s.white_count as usize,
            before.black_count as usize + before.white_count as usize + 1
        );
        for row in 0..8 {
            for col in 0..8 {
                if before.board[row][col].is_some() {
                    assert!(s.board[row][col].is_some());
                }
            }
        }
        assert_eq!(s.board[choice.row as usize][choice.col as usize], Some(before.current_player));
        let black_can = !get_valid_moves_for_player(&s.board, Player::Black).is_empty();
        let white_can = !get_valid_moves_for_player(&s.board, Player::White).is_empty();
        assert_eq!(s.game_over, !black_can && !white_can);
    }
    assert!(s.game_over);
    assert!(moves_played >= 10);
}
