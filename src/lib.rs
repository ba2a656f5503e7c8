//! A vertical-drop four-in-a-row game: a verified board engine with
//! reversible moves and incremental win detection, and two computer players
//! built on it (a rollout evaluator and an alpha-beta search).

pub mod ai;
mod board;
mod random;

pub use board::{
    char_into_color, color_into_char, law_full_board_is_draw, law_take_undoes_drop, law_win_reported_exactly,
    Color, Game, GameView, NCOLS, NROWS, NWIN,
};
