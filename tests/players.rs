use connect_four::ai::{
    best_scored, first_winning_column, order_by_scores, play_game, rollout, run_ai_game, Evaluator, PerfectAI,
    Rewards, SimpleAI, AI,
};
use connect_four::{Color, Game};
use rand::rngs::StdRng;
use rand::SeedableRng;

fn play(game: &mut Game, cols: &[usize]) {
    for &c in cols {
        assert_eq!(game.drop_piece(c), Ok(None));
    }
}

fn cells(game: &Game) -> Vec<Color> {
    let mut out = Vec::new();
    for c in 0..game.columns() {
        for r in 0..game.rows() {
            out.push(game.get(c, r));
        }
    }
    out
}

/// Blue to move with a vertical win in column 3.
fn blue_wins_in_column_three() -> Game {
    let mut game = Game::new();
    play(&mut game, &[3, 0, 3, 0, 3, 1]);
    game
}

#[test]
fn best_scored_prefers_the_lowest_of_equal_scores() {
    let scores = vec![None, Some(3), Some(5), Some(-2), Some(5)];
    assert_eq!(best_scored(&scores), Some((2, 5)));
    assert_eq!(best_scored(&vec![Some(-4)]), Some((0, -4)));
    assert_eq!(best_scored(&vec![None, None]), None);
    assert_eq!(best_scored(&vec![]), None);
}

#[test]
fn order_by_scores_is_stable_and_skips_full_columns() {
    let scores = vec![Some(1), None, Some(7), Some(1), Some(-3), Some(7)];
    assert_eq!(order_by_scores(&scores), vec![2, 5, 0, 3, 4]);
    assert_eq!(order_by_scores(&vec![None]), Vec::<usize>::new());
}

#[test]
fn first_winning_column_finds_the_win() {
    let mut game = blue_wins_in_column_three();
    let before = cells(&game);
    assert_eq!(first_winning_column(&mut game), Some(3));
    assert_eq!(cells(&game), before);
    assert_eq!(game.turn(), Color::Blue);
    let mut fresh = Game::new();
    assert_eq!(first_winning_column(&mut fresh), None);
}

#[test]
fn rewards_score_win_draw_and_loss() {
    let e = Evaluator::new(10, Rewards { win: 3, draw: -1 });
    assert_eq!(e.reward(Color::Blue, Color::Blue), 3);
    assert_eq!(e.reward(Color::Blue, Color::Empty), -1);
    assert_eq!(e.reward(Color::Blue, Color::Red), -3);
    let s = Rewards::standard();
    assert_eq!((s.win, s.draw), (1, 0));
}

#[test]
fn rollout_plays_to_the_end() {
    let game = Game::new();
    let mut rng = StdRng::seed_from_u64(7);
    for _ in 0..20 {
        let w = rollout(&game, &mut rng);
        assert!(w == Color::Blue || w == Color::Red || w == Color::Empty);
    }
    assert_eq!(cells(&game), cells(&Game::new()));
}

#[test]
fn rollout_on_one_open_cell_is_decided_by_that_cell() {
    // One row of three cells, two in a row win: Blue holds the left cell,
    // Red the right one, and Blue's piece in the middle cell ends the game.
    let mut game = Game::with_dimensions(3, 1, 2);
    assert_eq!(game.drop_piece(0), Ok(None));
    assert_eq!(game.drop_piece(2), Ok(None));
    let mut rng = StdRng::seed_from_u64(1);
    assert_eq!(rollout(&game, &mut rng), Color::Blue);
}

#[test]
fn column_scores_of_ending_moves_are_exact() {
    let e = Evaluator::new(5, Rewards { win: 2, draw: 1 });
    let mut game = blue_wins_in_column_three();
    let before = cells(&game);
    let mut rng = StdRng::seed_from_u64(3);
    let scores = e.column_scores(&mut game, &mut rng, 5);
    assert_eq!(scores.len(), 7);
    assert_eq!(scores[3], Some(10));
    for s in &scores {
        let s = s.unwrap();
        assert!(-10 <= s && s <= 10);
    }
    assert_eq!(cells(&game), before);

    let mut small = Game::with_dimensions(2, 2, 3);
    play(&mut small, &[0, 1, 1]);
    let scores = e.column_scores(&mut small, &mut rng, 5);
    assert_eq!(scores, vec![Some(5), None]);
}

#[test]
fn evaluator_pick_takes_a_winning_score() {
    let e = Evaluator::new(20, Rewards::standard());
    let mut game = blue_wins_in_column_three();
    let mut rng = StdRng::seed_from_u64(11);
    let (col, score) = e.pick_column(&mut game, &mut rng);
    assert_eq!(score, 20);
    assert!(!game.is_full(col));
}

#[test]
fn ranked_columns_put_the_win_alone() {
    let e = Evaluator::new(10, Rewards::standard());
    let mut game = blue_wins_in_column_three();
    let mut rng = StdRng::seed_from_u64(5);
    assert_eq!(e.ranked_columns(&mut game, &mut rng, 5), vec![3]);
    let mut fresh = Game::new();
    let mut ranked = e.ranked_columns(&mut fresh, &mut rng, 5);
    ranked.sort();
    assert_eq!(ranked, vec![0, 1, 2, 3, 4, 5, 6]);
}

#[test]
fn search_at_depth_zero_plays_like_the_evaluator() {
    for seed in [0u64, 1, 42, 1234] {
        let mut game = Game::new();
        play(&mut game, &[3, 2]);
        let mut simple = SimpleAI::with(30, seed);
        let mut search = PerfectAI::with(30, 0, seed);
        let expected = simple.get_column(&game);
        let (col, _) = search.best_move(&mut game, 0, -i64::MAX, i64::MAX);
        assert_eq!(col, expected);
    }
}

#[test]
fn search_takes_an_immediate_win_at_every_depth() {
    for depth in 1..4 {
        let mut game = blue_wins_in_column_three();
        let before = cells(&game);
        let mut search = PerfectAI::with(8, depth, 9);
        let (col, value) = search.best_move(&mut game, depth, -i64::MAX, i64::MAX);
        assert_eq!(col, 3);
        assert_eq!(value, 8);
        assert_eq!(cells(&game), before);
        assert_eq!(game.turn(), Color::Blue);
        let again = search.best_move(&mut game, depth, -i64::MAX, i64::MAX);
        assert_eq!(again, (3, 8));
    }
}

#[test]
fn search_player_takes_the_win_through_the_trait() {
    let game = blue_wins_in_column_three();
    let mut search = PerfectAI::with(8, 2, 4);
    assert_eq!(search.get_column(&game), 3);
    assert_eq!(search.max_depth(), 2);
    assert_eq!(search.evaluator().nrollouts, 8);
}

#[test]
fn search_value_stays_within_the_win_score() {
    let mut game = Game::new();
    play(&mut game, &[3, 3, 2]);
    let mut search = PerfectAI::with(6, 3, 17);
    let before = cells(&game);
    let (col, value) = search.best_move(&mut game, 3, -i64::MAX, i64::MAX);
    assert!(col < 7);
    assert!(-6 <= value && value <= 6);
    assert_eq!(cells(&game), before);
    let (col2, value2) = search.best_move(&mut game, 3, -i64::MAX, i64::MAX);
    assert!(!game.is_full(col2));
    assert!(-6 <= value2 && value2 <= 6);
}

#[test]
fn search_with_a_narrow_window_still_names_a_legal_column() {
    let mut game = Game::new();
    play(&mut game, &[0, 0, 0, 0, 0, 0]);
    let mut search = PerfectAI::with(4, 2, 2);
    let (col, value) = search.best_move(&mut game, 2, 3, 4);
    assert!(col != 0 && col < 7);
    assert!(-4 <= value && value <= 4);
}

#[test]
fn rollout_player_answers_a_legal_column() {
    let mut game = Game::with_dimensions(3, 2, 3);
    play(&mut game, &[1, 1]);
    let mut simple = SimpleAI::with(10, 8);
    let col = simple.get_column(&game);
    assert!(col == 0 || col == 2);
    assert_eq!(simple.evaluator().nrollouts, 10);
}

#[test]
fn search_finds_a_win_for_the_second_player() {
    // Red holds three in column 0 and is to move.
    let mut game = Game::new();
    play(&mut game, &[6, 0, 5, 0, 6, 0, 2]);
    let mut search = PerfectAI::with(20, 2, 21);
    let (col, value) = search.best_move(&mut game, 1, -i64::MAX, i64::MAX);
    assert_eq!(col, 0);
    assert_eq!(value, 20);
}

/// Red to move while Blue holds (1,0), (2,0), (3,0) with both ends open.
fn red_faces_a_double_threat() -> Game {
    let mut game = Game::new();
    play(&mut game, &[1, 6, 2, 6, 3]);
    game
}

#[test]
fn search_sees_a_forced_loss() {
    for depth in 2..4 {
        let mut game = red_faces_a_double_threat();
        let mut search = PerfectAI::with(6, depth, 13);
        let (col, value) = search.best_move(&mut game, depth, -i64::MAX, i64::MAX);
        assert!(!game.is_full(col));
        assert_eq!(value, -6);
    }
}

#[test]
fn search_sees_a_forced_win_three_moves_deep() {
    // Blue to move can open a double threat in column 3 (or 0, or 4).
    let mut game = Game::new();
    play(&mut game, &[1, 6, 2, 6]);
    let mut search = PerfectAI::with(6, 3, 19);
    let (col, value) = search.best_move(&mut game, 3, -i64::MAX, i64::MAX);
    assert_eq!(value, 6);
    assert!(!game.is_full(col));
}

#[test]
fn search_repeated_queries_reuse_the_table_soundly() {
    let mut game = red_faces_a_double_threat();
    let mut search = PerfectAI::with(6, 3, 29);
    for _ in 0..3 {
        assert_eq!(search.best_move(&mut game, 3, -i64::MAX, i64::MAX).1, -6);
        assert_eq!(search.best_move(&mut game, 2, -i64::MAX, i64::MAX).1, -6);
    }
}

#[test]
fn a_full_game_between_rollout_players_ends() {
    let winner = run_ai_game(SimpleAI::with(4, 1), SimpleAI::with(4, 2));
    assert!(winner == Color::Blue || winner == Color::Red || winner == Color::Empty);
}

#[test]
fn play_game_ends_with_no_one_to_move() {
    let mut game = Game::with_dimensions(4, 3, 3);
    let mut x = PerfectAI::with(4, 2, 5);
    let mut o = SimpleAI::with(4, 6);
    let winner = play_game(&mut game, &mut x, &mut o);
    assert_eq!(game.turn(), Color::Empty);
    if winner == Color::Empty {
        assert!((0..4).all(|c| game.is_full(c)));
    }
}

#[test]
fn play_game_on_a_board_without_lines_is_a_draw() {
    let mut game = Game::with_dimensions(2, 2, 3);
    let mut x = SimpleAI::with(3, 7);
    let mut o = SimpleAI::with(3, 8);
    assert_eq!(play_game(&mut game, &mut x, &mut o), Color::Empty);
    assert!(game.is_full(0) && game.is_full(1));
}

#[test]
fn full_depth_search_values_a_drawn_board_by_its_draw_reward() {
    // Two columns of two rows where three in a row cannot fit: every game
    // is a draw. Red makes the last move, which is worth 4 playouts times
    // the draw reward of 1 to Red, so minus that to Blue.
    let evaluator = Evaluator::new(4, Rewards { win: 2, draw: 1 });
    let mut game = Game::with_dimensions(2, 2, 3);
    let mut search = PerfectAI::from_evaluator(evaluator, 4, 3);
    let (col, value) = search.best_move(&mut game, 4, -i64::MAX, i64::MAX);
    assert!(col < 2);
    assert_eq!(value, -4);
}

#[test]
fn full_depth_search_finds_the_first_player_win_on_a_short_row() {
    // One row of three cells, two in a row win: Blue takes the middle and
    // wins on the next move whatever Red does.
    let mut game = Game::with_dimensions(3, 1, 2);
    let mut search = PerfectAI::with(5, 3, 31);
    let (col, value) = search.best_move(&mut game, 3, -i64::MAX, i64::MAX);
    assert_eq!(col, 1);
    assert_eq!(value, 5);
    assert_eq!(search.best_move(&mut game, 3, -i64::MAX, i64::MAX), (1, 5));
}

#[test]
fn full_depth_search_sees_the_second_player_lose() {
    // After Blue's middle piece Red is lost: value minus the win score.
    let mut game = Game::with_dimensions(3, 1, 2);
    game.drop_piece(1).unwrap();
    let mut search = PerfectAI::with(5, 2, 37);
    let (_, value) = search.best_move(&mut game, 2, -i64::MAX, i64::MAX);
    assert_eq!(value, -5);
}
