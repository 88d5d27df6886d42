use uttt_ai::ai::Game;
use uttt_ai::game::{check_for_winner, check_line, Player, TicTacToe};

const X: Option<Player> = Some(Player::X);
const O: Option<Player> = Some(Player::O);
const E: Option<Player> = None;

fn play(game: &mut TicTacToe, moves: &[(usize, usize)]) {
    for m in moves {
        assert!(game.make_move_mut(m), "move {:?} is allowed", m);
    }
}

#[test]
fn line_of_one_player_is_owned() {
    assert_eq!(check_line(X, X, X), X);
    assert_eq!(check_line(O, O, O), O);
}

#[test]
fn mixed_or_open_line_is_not_owned() {
    assert_eq!(check_line(X, O, X), E);
    assert_eq!(check_line(X, X, E), E);
    assert_eq!(check_line(E, E, E), E);
    assert_eq!(check_line(E, O, O), E);
}

#[test]
fn every_line_wins_a_board() {
    let lines = [
        [0, 3, 6],
        [1, 4, 7],
        [2, 5, 8],
        [0, 1, 2],
        [3, 4, 5],
        [6, 7, 8],
        [0, 4, 8],
        [2, 4, 6],
    ];
    for line in lines.iter() {
        let mut board = [E; 9];
        for &i in line.iter() {
            board[i] = O;
        }
        assert_eq!(check_for_winner(board), O, "line {:?}", line);
    }
}

#[test]
fn board_without_line_has_no_winner() {
    assert_eq!(check_for_winner([E; 9]), E);
    assert_eq!(check_for_winner([X, O, X, X, O, O, O, X, X]), E);
}

#[test]
fn left_column_is_found_before_top_row() {
    // O holds the left column, X the top row but for the corner they share
    // with nobody: the column is tried first.
    let board = [O, E, E, O, X, X, O, X, E];
    assert_eq!(check_for_winner(board), O);
    // X holds the middle row, O the right column: the row is tried first.
    let both = [E, E, O, X, X, X, E, E, O];
    assert_eq!(check_for_winner(both), X);
    let col_first = [O, X, X, O, X, X, O, E, E];
    assert_eq!(check_for_winner(col_first), O);
}

#[test]
fn new_game_is_open_everywhere() {
    let game = TicTacToe::new();
    assert_eq!(game.get_cur_player(), Player::X);
    assert_eq!(game.get_winner(), None);
    let moves = game.available_moves();
    assert_eq!(moves.len(), 81);
    for (k, m) in moves.iter().enumerate() {
        assert_eq!(*m, (k / 9, k % 9));
    }
}

#[test]
fn move_confines_the_next_move() {
    let mut game = TicTacToe::new();
    assert!(game.make_move_mut(&(4, 2)));
    assert_eq!(game.get_cur_player(), Player::O);
    let moves = game.available_moves();
    assert_eq!(moves, (0..9).map(|b| (2, b)).collect::<Vec<_>>());
    assert!(!game.make_move_mut(&(4, 0)));
    assert_eq!(game.get_cur_player(), Player::O);
    assert!(game.make_move_mut(&(2, 4)));
    assert_eq!(game.get_cur_player(), Player::X);
    // cell 2 of board 4 is taken
    assert_eq!(
        game.available_moves(),
        vec![(4, 0), (4, 1), (4, 3), (4, 4), (4, 5), (4, 6), (4, 7), (4, 8)]
    );
}

#[test]
fn taken_cell_is_refused() {
    let mut game = TicTacToe::new();
    play(&mut game, &[(4, 4)]);
    assert!(!game.make_move_mut(&(4, 4)));
    assert_eq!(game.get_cur_player(), Player::O);
    assert_eq!(game.available_moves().len(), 8);
}

#[test]
fn move_off_the_board_is_refused() {
    let mut game = TicTacToe::new();
    assert!(!game.make_move_mut(&(9, 0)));
    assert!(!game.make_move_mut(&(0, 9)));
    assert!(!game.make_move_mut(&(usize::MAX, usize::MAX)));
    assert!(game.make_move(&(12, 1)).is_none());
    assert_eq!(game.available_moves().len(), 81);
    assert_eq!(game.get_cur_player(), Player::X);
}

#[test]
fn make_move_leaves_the_position_alone() {
    let game = TicTacToe::new();
    let next = game.make_move(&(3, 5)).expect("the move is allowed");
    assert_eq!(game.available_moves().len(), 81);
    assert_eq!(game.get_cur_player(), Player::X);
    assert_eq!(next.get_cur_player(), Player::O);
    assert_eq!(next.available_moves().len(), 9);
    assert_eq!(next.available_moves()[0], (5, 0));
}

#[test]
fn won_board_is_closed_and_lifts_the_confinement() {
    let mut game = TicTacToe::new();
    play(
        &mut game,
        &[
            (4, 0),
            (0, 4),
            (4, 4),
            (4, 8),
            (8, 4),
            (4, 1),
            (1, 4),
            (4, 2),
            (2, 4),
            (4, 3),
            (3, 4),
            (4, 5),
        ],
    );
    // O holds cells 2, 5 and 8 of board 4, its right column, and has sent X
    // to board 5.
    assert_eq!(game.get_cur_player(), Player::X);
    assert!(game.available_moves().iter().all(|m| m.0 == 5));
    play(&mut game, &[(5, 4)]);
    // X has sent O to board 4, which is won: O may play anywhere else.
    assert!(!game.make_move_mut(&(4, 6)));
    let open = game.available_moves();
    assert!(open.iter().all(|m| m.0 != 4));
    assert!(open.contains(&(0, 0)));
    assert!(open.contains(&(8, 8)));
    assert_eq!(game.get_winner(), None);
}

#[test]
fn small_board_win_closes_the_board() {
    let mut game = TicTacToe::new();
    // X plays the main diagonal of board 0; O is sent to boards 0, 4, 8 and
    // answers so that X comes back to board 0.
    play(&mut game, &[(0, 0), (0, 4)]);
    // X is confined to board 4.
    play(&mut game, &[(4, 0), (0, 8)]);
    // X is confined to board 8.
    play(&mut game, &[(8, 0), (0, 1)]);
    // X is confined to board 1.
    play(&mut game, &[(1, 0), (0, 7)]);
    // O now holds 4, 8, 1, 7 of board 0: the middle column 1, 4, 7 is O's.
    // X was sent to board 7 by O's move.
    assert_eq!(game.get_cur_player(), Player::X);
    let moves = game.available_moves();
    assert!(moves.iter().all(|m| m.0 == 7));
    // X sends O to the won board 0: O may then play anywhere but there.
    play(&mut game, &[(7, 0)]);
    let open = game.available_moves();
    assert!(open.iter().all(|m| m.0 != 0));
    assert!(open.iter().any(|m| m.0 == 1));
    assert!(open.iter().any(|m| m.0 == 8));
    assert!(!game.make_move_mut(&(0, 2)));
    // boards 1..8 have 72 cells, of which X holds (4,0), (8,0), (1,0), (7,0).
    assert_eq!(open.len(), 68);
}

#[test]
fn played_out_game_is_decided_or_stuck() {
    let mut game = TicTacToe::new();
    let mut count = 0;
    loop {
        if game.get_winner().is_some() {
            break;
        }
        let moves = game.available_moves();
        if moves.is_empty() {
            break;
        }
        let before = game.get_cur_player();
        assert!(game.make_move_mut(&moves[moves.len() / 2]));
        count += 1;
        if game.get_winner().is_none() {
            assert_ne!(game.get_cur_player(), before);
        }
    }
    assert!(count <= 81);
    if let Some(winner) = game.get_winner() {
        assert_eq!(game.get_cur_player(), winner);
        assert!(game.available_moves().is_empty());
        assert!(!game.make_move_mut(&(0, 0)));
    }
}

#[test]
fn rendering_of_the_empty_board() {
    let game = TicTacToe::new();
    let line = "       |       |       \n";
    let rule = "-------+-------+-------\n";
    let expected = format!(
        "{l}{l}{l}{r}{l}{l}{l}{r}{l}{l}{l}",
        l = line,
        r = rule
    );
    assert_eq!(game.to_str(), expected);
}

#[test]
fn rendering_places_marks() {
    let mut game = TicTacToe::new();
    play(&mut game, &[(0, 0), (0, 4)]);
    let text = game.to_str();
    let lines: Vec<&str> = text.lines().collect();
    assert_eq!(lines.len(), 11);
    // cell 0 of board 0 shows first on line 0
    assert_eq!(lines[0], " X     |       |       ");
    // cell 4 of board 0 shows as cell 3 of line 3, which follows the first rule
    assert_eq!(lines[3], "-------+-------+-------");
    assert_eq!(lines[4], "       | O     |       ");
    let mut other = TicTacToe::new();
    play(&mut other, &[(4, 4)]);
    let shown = other.to_str();
    let rows: Vec<&str> = shown.lines().collect();
    // line 4 is the sixth row of text, cell 4 stands right after the first bar
    assert_eq!(rows[5], "       |   X   |       ");
}

#[test]
fn click_in_the_middle_plays_the_middle() {
    let mut game = TicTacToe::new();
    assert_eq!(game.click_cell(4, 4), Some((4, 4)));
    assert_eq!(game.get_cur_player(), Player::O);
    // taken now, and O is confined to board 4 anyway
    assert_eq!(game.click_cell(4, 4), None);
    assert_eq!(game.click_cell(3, 3), Some((4, 0)));
}

#[test]
fn click_maps_columns_and_lines_to_board_and_cell() {
    let mut game = TicTacToe::new();
    // column 7, line 2: board 7 / 3 + 3 * (2 / 3) = 2, cell 7 % 3 + 3 * (2 % 3) = 7
    assert_eq!(game.click_cell(7, 2), Some((2, 7)));
    let mut other = TicTacToe::new();
    // column 2, line 8: board 0 + 3 * 2 = 6, cell 2 + 3 * 2 = 8
    assert_eq!(other.click_cell(2, 8), Some((6, 8)));
}

#[test]
fn click_left_of_the_board_counts_as_zero() {
    let mut game = TicTacToe::new();
    assert_eq!(game.click_cell(-1, 0), Some((0, 0)));
    let mut other = TicTacToe::new();
    assert_eq!(other.click_cell(-27, 9), Some((0, 0)));
    let mut third = TicTacToe::new();
    assert_eq!(third.click_cell(i64::MIN, i64::MIN), Some((0, 0)));
}

#[test]
fn click_beyond_the_board_plays_nothing() {
    let mut game = TicTacToe::new();
    assert_eq!(game.click_cell(27, 0), None);
    assert_eq!(game.click_cell(0, 9), None);
    assert_eq!(game.click_cell(i64::MAX, i64::MAX), None);
    assert_eq!(game.available_moves().len(), 81);
}

#[test]
fn players_compare_by_value() {
    assert!(Player::X == Player::X);
    assert!(Player::O == Player::O);
    assert!(Player::X != Player::O);
}
