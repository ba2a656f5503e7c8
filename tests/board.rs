use connect_four::{char_into_color, color_into_char, Color, Game, NCOLS, NROWS, NWIN};

fn play(game: &mut Game, cols: &[usize]) -> Vec<Result<Option<Color>, ()>> {
    cols.iter().map(|&c| game.drop_piece(c)).collect()
}

fn cells(game: &Game) -> Vec<Color> {
    let mut out = Vec::new();
    for c in 0..game.columns() {
        for r in 0..game.rows() {
            out.push(game.get(c, r));
        }
    }
    out
}

#[test]
fn new_board_is_empty_with_blue_to_move() {
    let game = Game::new();
    assert_eq!(game.columns(), NCOLS);
    assert_eq!(game.rows(), NROWS);
    assert_eq!(game.win_length(), NWIN);
    assert_eq!(game.turn(), Color::Blue);
    for c in 0..NCOLS {
        assert!(!game.is_full(c));
        for r in 0..NROWS {
            assert_eq!(game.get(c, r), Color::Empty);
        }
    }
}

#[test]
fn default_is_the_standard_board() {
    let game = Game::default();
    assert_eq!(game.columns(), 7);
    assert_eq!(game.rows(), 6);
    assert_eq!(game.win_length(), 4);
}

#[test]
fn pieces_stack_and_turns_alternate() {
    let mut game = Game::new();
    assert_eq!(game.drop_piece(2), Ok(None));
    assert_eq!(game.turn(), Color::Red);
    assert_eq!(game.drop_piece(2), Ok(None));
    assert_eq!(game.turn(), Color::Blue);
    assert_eq!(game.get(2, 0), Color::Blue);
    assert_eq!(game.get(2, 1), Color::Red);
    assert_eq!(game.get(2, 2), Color::Empty);
}

#[test]
fn drop_then_take_restores_the_board() {
    let mut game = Game::new();
    play(&mut game, &[3, 3, 4, 0, 6]);
    for c in 0..NCOLS {
        let before = cells(&game);
        let turn = game.turn();
        assert!(game.drop_piece(c).is_ok());
        game.take_piece(c);
        assert_eq!(cells(&game), before);
        assert_eq!(game.turn(), turn);
        assert!(!game.is_full(c));
    }
}

#[test]
fn full_column_is_refused_and_board_unchanged() {
    let mut game = Game::new();
    let results = play(&mut game, &[1, 1, 1, 1, 1, 1]);
    assert!(results.iter().all(|r| *r == Ok(None)));
    assert!(game.is_full(1));
    let before = cells(&game);
    let turn = game.turn();
    assert_eq!(game.drop_piece(1), Err(()));
    assert_eq!(cells(&game), before);
    assert_eq!(game.turn(), turn);
}

#[test]
fn vertical_win_on_fourth_piece() {
    let mut game = Game::new();
    let results = play(&mut game, &[3, 0, 3, 0, 3, 0]);
    assert!(results.iter().all(|r| *r == Ok(None)));
    assert_eq!(game.drop_piece(3), Ok(Some(Color::Blue)));
    assert_eq!(game.turn(), Color::Empty);
}

#[test]
fn diagonal_win_completed_at_column_five() {
    let mut game = Game::new();
    let results = play(&mut game, &[2, 3, 3, 4, 0, 4, 4, 5, 5, 5]);
    assert!(results.iter().all(|r| *r == Ok(None)));
    assert_eq!(game.get(2, 0), Color::Blue);
    assert_eq!(game.get(3, 1), Color::Blue);
    assert_eq!(game.get(4, 2), Color::Blue);
    assert_eq!(game.get(5, 3), Color::Empty);
    assert_eq!(game.turn(), Color::Blue);
    assert_eq!(game.drop_piece(5), Ok(Some(Color::Blue)));
}

#[test]
fn horizontal_win_for_red() {
    let mut game = Game::new();
    let results = play(&mut game, &[0, 1, 0, 2, 0, 3, 6]);
    assert!(results.iter().all(|r| *r == Ok(None)));
    assert_eq!(game.drop_piece(4), Ok(Some(Color::Red)));
}

#[test]
fn rising_diagonal_completed_in_the_middle() {
    // Blue at (0,0), (1,1), (3,3), then (2,2) fills the gap.
    let mut game = Game::new();
    let results = play(&mut game, &[0, 1, 1, 2, 3, 2, 3, 3, 3, 6]);
    assert!(results.iter().all(|r| *r == Ok(None)));
    assert_eq!(game.get(0, 0), Color::Blue);
    assert_eq!(game.get(1, 1), Color::Blue);
    assert_eq!(game.get(3, 3), Color::Blue);
    assert_eq!(game.turn(), Color::Blue);
    assert_eq!(game.drop_piece(2), Ok(Some(Color::Blue)));
}

#[test]
fn three_in_a_row_is_not_yet_a_win() {
    let mut game = Game::new();
    let results = play(&mut game, &[3, 0, 3, 0, 3]);
    assert!(results.iter().all(|r| *r == Ok(None)));
    assert_eq!(game.turn(), Color::Red);
}

#[test]
fn filling_a_board_without_a_line_is_a_draw() {
    let mut game = Game::with_dimensions(2, 2, 3);
    assert_eq!(game.drop_piece(0), Ok(None));
    assert_eq!(game.drop_piece(1), Ok(None));
    assert_eq!(game.drop_piece(1), Ok(None));
    assert_eq!(game.drop_piece(0), Ok(Some(Color::Empty)));
    assert_eq!(game.turn(), Color::Empty);
}

#[test]
fn win_on_the_last_cell_is_a_win_not_a_draw() {
    let mut game = Game::with_dimensions(1, 1, 1);
    assert_eq!(game.drop_piece(0), Ok(Some(Color::Blue)));
}

#[test]
fn taking_back_a_winning_move_gives_the_turn_back() {
    let mut game = Game::new();
    play(&mut game, &[3, 0, 3, 0, 3, 0]);
    assert_eq!(game.drop_piece(3), Ok(Some(Color::Blue)));
    game.take_piece(3);
    assert_eq!(game.turn(), Color::Blue);
    assert_eq!(game.get(3, 3), Color::Empty);
    assert!(!game.is_full(3));
}

#[test]
fn snapshot_is_an_equal_independent_copy() {
    let mut game = Game::new();
    play(&mut game, &[3, 4, 5]);
    let copy = game.snapshot();
    assert!(copy.same_position(&game));
    game.drop_piece(0).unwrap();
    assert!(!copy.same_position(&game));
    assert_eq!(copy.get(0, 0), Color::Empty);
}

#[test]
fn legal_columns_skip_full_ones() {
    let mut game = Game::with_dimensions(3, 1, 3);
    game.drop_piece(1).unwrap();
    assert_eq!(game.legal_columns(), vec![0, 2]);
}

#[test]
fn colors_and_characters() {
    assert_eq!(color_into_char(Color::Blue), 'X');
    assert_eq!(color_into_char(Color::Red), 'O');
    assert_eq!(color_into_char(Color::Empty), ' ');
    assert_eq!(char_into_color('X'), Color::Blue);
    assert_eq!(char_into_color('O'), Color::Red);
    assert_eq!(char_into_color(' '), Color::Empty);
    assert_eq!(Color::Blue.opponent(), Color::Red);
    assert_eq!(Color::Red.opponent(), Color::Blue);
    assert_eq!(Color::Empty.opponent(), Color::Empty);
    assert!(Color::Empty.is_none());
    assert!(!Color::Red.is_none());
    assert!(Color::Blue.is_some());
    assert!(!Color::Empty.is_some());
}

#[test]
fn full_column_is_refused_after_the_game_is_over() {
    let mut game = Game::new();
    let moves = [3, 3, 3, 3, 3, 3, 0, 1, 0, 1, 0, 1];
    for &c in &moves {
        assert_eq!(game.drop_piece(c), Ok(None));
    }
    assert_eq!(game.drop_piece(0), Ok(Some(Color::Blue)));
    assert_eq!(game.turn(), Color::Empty);
    assert_eq!(game.drop_piece(3), Err(()));
    assert_eq!(game.turn(), Color::Empty);
}
