//! Computer players: a rollout evaluator that scores columns by random
//! playouts, and an alpha-beta search that uses it at its frontier and to
//! order moves.

use crate::board::{
    Color, Game, GameView, NCOLS, NROWS, NWIN, free_cells, law_take_undoes_drop, lemma_empty_has_room,
    lemma_ends_after_move, lemma_ends_now, lemma_free_cells_positive, lemma_free_cells_step, lemma_game_goes_on, lemma_game_over,
};
use crate::random::{draw_below, seeded_rng};
use rand::rngs::StdRng;
use std::collections::HashMap;
use vstd::prelude::*;

verus! {

broadcast use vstd::std_specs::hash::group_hash_axioms;

/// The reward of one playout for the player it is scored for: `win` for a
/// win, `draw` for a draw and `-win` for a loss.
#[derive(Clone, Copy)]
pub struct Rewards {
    pub win: u16,
    pub draw: i16,
}

impl Rewards {
    pub open spec fn standard_spec() -> Rewards {
        Rewards { win: 1, draw: 0 }
    }

    /// A draw is worth no more than a win and no less than a loss.
    pub open spec fn wf(self) -> bool {
        -(self.win as int) <= self.draw <= self.win
    }

    /// One for a win, nothing for a draw, minus one for a loss.
    pub fn standard() -> (r: Rewards)
        ensures
            r.wf(),
            r == Rewards::standard_spec(),
    {
        Rewards { win: 1, draw: 0 }
    }
}

/// Scores columns by random playouts: each legal column gets the summed
/// reward of `nrollouts` games played on from it with uniformly random
/// legal moves.
#[derive(Clone, Copy)]
pub struct Evaluator {
    pub nrollouts: u32,
    pub rewards: Rewards,
}

impl Evaluator {
    pub open spec fn wf(self) -> bool {
        self.rewards.wf()
    }

    /// The highest score that `n` playouts can give: all of them won.
    pub open spec fn top(self, n: nat) -> int {
        n * self.rewards.win
    }

    /// The reward of a game that `winner` won (`Color::Empty`: a draw), for
    /// `player`.
    pub open spec fn reward_of(self, player: Color, winner: Color) -> int {
        if winner == player {
            self.rewards.win as int
        } else if winner == Color::Empty {
            self.rewards.draw as int
        } else {
            -(self.rewards.win as int)
        }
    }

    /// The summed reward, for `player`, of games that ended with the results
    /// `ws`.
    pub open spec fn sum_rewards(self, player: Color, ws: Seq<Color>) -> int
        decreases ws.len(),
    {
        if ws.len() == 0 {
            0
        } else {
            self.sum_rewards(player, ws.drop_last()) + self.reward_of(player, ws.last())
        }
    }

    /// `t` is the summed reward, for `player`, of `n` games played on from
    /// `v`, each ending with a result that some sequence of legal moves
    /// from `v` ends with.
    pub open spec fn is_playout_total(self, v: GameView, player: Color, n: nat, t: int) -> bool {
        exists|ws: Seq<Color>|
            ws.len() == n && (forall|i: int| 0 <= i < n ==> v.can_end_with(#[trigger] ws[i])) && t
                == #[trigger] self.sum_rewards(player, ws)
    }

    /// `s` is a possible result of `column_scores(v, n)`: `None` exactly for
    /// the full columns; for a move that ends the game, `n` times its
    /// reward; for any other move, the total of `n` playouts from the board
    /// after it; every score within `n` wins and `n` losses.
    pub open spec fn valid_scores(self, v: GameView, n: nat, s: Seq<Option<i64>>) -> bool {
        &&& s.len() == v.cols
        &&& forall|c: int| 0 <= c < s.len() ==> (#[trigger] s[c] is None <==> v.is_full(c))
        &&& forall|c: int| 0 <= c < s.len() && #[trigger] s[c] is Some ==> -self.top(n) <= s[c]->Some_0 <= self.top(n)
        &&& forall|c: int|
            #[trigger] v.is_legal(c) && v.outcome(c) is Some ==> s[c] == Some(
                (n * self.reward_of(v.turn, v.outcome(c)->Some_0)) as i64,
            )
        &&& forall|c: int|
            #[trigger] v.is_legal(c) && v.outcome(c) is None ==> self.is_playout_total(
                v.apply(c),
                v.turn,
                n,
                s[c]->Some_0 as int,
            )
    }

    /// The value, for the player to move on `v`, of a move in column `c`
    /// that ends the game: `nrollouts` times its reward.
    pub open spec fn end_value(self, v: GameView, c: int) -> int {
        self.nrollouts * self.reward_of(v.turn, v.outcome(c)->Some_0)
    }

    /// Within `d` moves of both players, the player to move can make sure
    /// of a value of at least `x` (`lower`), or cannot get more than `x`
    /// (`!lower`), where a finished game is worth its `end_value` and the
    /// opponent's value counts negated. Nothing is settled in 0 moves.
    pub open spec fn bounded(self, v: GameView, d: nat, x: int, lower: bool) -> bool
        decreases d,
    {
        if d == 0 {
            false
        } else if lower {
            exists|c: int|
                #![trigger v.is_legal(c)]
                v.is_legal(c) && (if v.outcome(c) is Some {
                    self.end_value(v, c) >= x
                } else {
                    self.bounded(v.apply(c), (d - 1) as nat, -x, false)
                })
        } else {
            !v.all_full() && forall|c: int|
                #[trigger] v.is_legal(c) ==> (if v.outcome(c) is Some {
                    self.end_value(v, c) <= x
                } else {
                    self.bounded(v.apply(c), (d - 1) as nat, -x, true)
                })
        }
    }

    /// Column `c` makes sure of a value of at least `x` within `d` moves.
    pub open spec fn move_at_least(self, v: GameView, c: int, d: nat, x: int) -> bool {
        &&& d >= 1
        &&& v.is_legal(c)
        &&& (if v.outcome(c) is Some {
            self.end_value(v, c) >= x
        } else {
            self.bounded(v.apply(c), (d - 1) as nat, -x, false)
        })
    }

    /// The minimax value of `v` for the player to move within `d` moves,
    /// with finished games worth their `end_value`: the value both made sure
    /// of and not exceeded, where there is one.
    pub open spec fn minimax_value(self, v: GameView, d: nat) -> int {
        choose|x: int| self.bounded(v, d, x, true) && self.bounded(v, d, x, false)
    }

    /// The minimax value of the move in column `c` within `d` moves.
    pub open spec fn move_value(self, v: GameView, c: int, d: nat) -> int {
        if v.outcome(c) is Some {
            self.end_value(v, c)
        } else {
            -self.minimax_value(v.apply(c), (d - 1) as nat)
        }
    }

    pub fn new(nrollouts: u32, rewards: Rewards) -> (e: Evaluator)
        requires
            rewards.wf(),
        ensures
            e.wf(),
            e.nrollouts == nrollouts,
            e.rewards == rewards,
    {
        Evaluator { nrollouts, rewards }
    }

    pub fn reward(&self, player: Color, winner: Color) -> (r: i64)
        requires
            self.wf(),
        ensures
            r == self.reward_of(player, winner),
            -(self.rewards.win as int) <= r <= self.rewards.win,
    {
        if winner == player {
            self.rewards.win as i64
        } else if winner == Color::Empty {
            self.rewards.draw as i64
        } else {
            -(self.rewards.win as i64)
        }
    }
}

/// Plays uniformly random legal moves on a copy of `game` until the game
/// ends, and returns the winner, or `Color::Empty` for a draw: a result that
/// some sequence of legal moves from `game` ends with.
pub fn rollout(game: &Game, rng: &mut StdRng) -> (winner: Color)
    requires
        game.wf(),
        game@.turn != Color::Empty,
        !game@.all_full(),
    ensures
        game@.can_end_with(winner),
{
    let mut g = game.snapshot();
    let ghost mut played: nat = 0;
    let mut winner = Color::Empty;
    let mut done = false;
    while !done
        invariant
            g.wf(),
            !done ==> g@.turn != Color::Empty && !g@.all_full(),
            done ==> game@.can_end_with(winner),
            !done ==> forall|w: Color, d: nat| #[trigger] g@.ends_within(w, d) ==> game@.ends_within(w, d + played),
        decreases free_cells(g@.heights, g@.rows), (if done { 0int } else { 1int }),
    {
        let legal = g.legal_columns();
        let ghost v = g@;
        proof {
            let c = choose|c: int| 0 <= c < v.cols && !#[trigger] v.is_full(c);
            assert(v.is_legal(c));
            assert(legal@.contains(c as usize));
        }
        let k = draw_below(rng, legal.len());
        let col = legal[k];
        assert(v.is_legal(col as int));
        let result = g.drop_piece(col);
        proof {
            lemma_free_cells_step(v.heights, v.rows, col as int);
            assert(g@.heights == v.placed(col as int).heights);
        }
        if let Ok(Some(w)) = result {
            proof {
                lemma_ends_now(v, col as int);
                assert(game@.ends_within(w, 1 + played));
            }
            winner = w;
            done = true;
        } else {
            proof {
                lemma_game_goes_on(v, col as int);
                assert forall|w: Color, d: nat| #[trigger] g@.ends_within(w, d) implies game@.ends_within(
                    w,
                    d + (played + 1),
                ) by {
                    lemma_ends_after_move(v, col as int, w, d);
                    assert(v.ends_within(w, d + 1));
                }
                played = played + 1;
            }
        }
    }
    winner
}

/// `n` playouts can score at most `n` times the reward of a win, which
/// fits an `i64`.
proof fn lemma_score_bound(n: u32, win: u16, k: int, x: int)
    requires
        0 <= k <= n,
        -(win as int) <= x <= win,
    ensures
        -(k * win) <= k * x <= k * win,
        k * win <= n * win,
        n * win <= 0xffff_ffff_ffff,
        (k + 1) * win == k * win + win,
{
    assert(-(k * win) <= k * x <= k * win) by (nonlinear_arith)
        requires
            0 <= k,
            -(win as int) <= x <= win,
    ;
    assert(k * win <= n * win) by (nonlinear_arith)
        requires
            0 <= k <= n,
            0 <= win,
    ;
    assert(n * win <= 0xffff_ffff_ffff) by (nonlinear_arith)
        requires
            0 <= n <= 0xffff_ffff,
            0 <= win <= 0xffff,
    ;
    assert((k + 1) * win == k * win + win) by (nonlinear_arith);
}

/// A value that can be made sure of lies within the win score: a lower
/// bound is at most it, an upper bound at least its negation.
proof fn lemma_bounded_range(e: Evaluator, v: GameView, d: nat, x: int, lower: bool)
    requires
        e.wf(),
        e.bounded(v, d, x, lower),
    ensures
        lower ==> x <= e.top(e.nrollouts as nat),
        !lower ==> x >= -e.top(e.nrollouts as nat),
    decreases d,
{
    let n = e.nrollouts;
    lemma_score_bound(n, e.rewards.win, n as int, e.rewards.draw as int);
    lemma_score_bound(n, e.rewards.win, n as int, e.rewards.win as int);
    lemma_score_bound(n, e.rewards.win, n as int, -(e.rewards.win as int));
    if lower {
        let c = choose|c: int|
            #![trigger v.is_legal(c)]
            v.is_legal(c) && (if v.outcome(c) is Some {
                e.end_value(v, c) >= x
            } else {
                e.bounded(v.apply(c), (d - 1) as nat, -x, false)
            });
        if v.outcome(c) is None {
            lemma_bounded_range(e, v.apply(c), (d - 1) as nat, -x, false);
        }
    } else {
        let c = choose|c: int| 0 <= c < v.cols && !#[trigger] v.is_full(c);
        assert(v.is_legal(c));
        if v.outcome(c) is None {
            lemma_bounded_range(e, v.apply(c), (d - 1) as nat, -x, true);
        }
    }
}

/// A bound that can be made sure of stays so when loosened.
proof fn lemma_bounded_monotone(e: Evaluator, v: GameView, d: nat, x: int, y: int, lower: bool)
    requires
        e.bounded(v, d, x, lower),
        lower ==> y <= x,
        !lower ==> y >= x,
    ensures
        e.bounded(v, d, y, lower),
    decreases d,
{
    if lower {
        let c = choose|c: int|
            #![trigger v.is_legal(c)]
            v.is_legal(c) && (if v.outcome(c) is Some {
                e.end_value(v, c) >= x
            } else {
                e.bounded(v.apply(c), (d - 1) as nat, -x, false)
            });
        if v.outcome(c) is None {
            lemma_bounded_monotone(e, v.apply(c), (d - 1) as nat, -x, -y, false);
        }
    } else {
        assert forall|c: int| #[trigger] v.is_legal(c) implies (if v.outcome(c) is Some {
            e.end_value(v, c) <= y
        } else {
            e.bounded(v.apply(c), (d - 1) as nat, -y, true)
        }) by {
            if v.outcome(c) is None {
                lemma_bounded_monotone(e, v.apply(c), (d - 1) as nat, -x, -y, true);
            }
        }
    }
}

/// Among the legal columns below `k`, one whose move value is highest.
proof fn lemma_best_move_value(e: Evaluator, v: GameView, d: nat, k: int) -> (best: int)
    requires
        0 <= k,
    ensures
        (exists|c: int| 0 <= c < k && #[trigger] v.is_legal(c)) ==> 0 <= best < k && v.is_legal(best) && forall|c: int|
            0 <= c < k && #[trigger] v.is_legal(c) ==> e.move_value(v, c, d) <= e.move_value(v, best, d),
    decreases k,
{
    if k == 0 {
        0
    } else {
        let b = lemma_best_move_value(e, v, d, k - 1);
        if !v.is_legal(k - 1) {
            b
        } else if exists|c: int| 0 <= c < k - 1 && #[trigger] v.is_legal(c) {
            if e.move_value(v, k - 1, d) > e.move_value(v, b, d) {
                k - 1
            } else {
                b
            }
        } else {
            k - 1
        }
    }
}

/// A game in play has a minimax value within any number of moves that
/// covers its empty cells: no estimate is needed.
pub proof fn lemma_minimax_value_exists(e: Evaluator, v: GameView, d: nat)
    requires
        v.valid(),
        v.turn != Color::Empty,
        !v.all_full(),
        d >= free_cells(v.heights, v.rows),
    ensures
        d >= 1,
        e.bounded(v, d, e.minimax_value(v, d), true),
        e.bounded(v, d, e.minimax_value(v, d), false),
    decreases d,
{
    let k0 = choose|k: int| 0 <= k < v.cols && !#[trigger] v.is_full(k);
    assert(v.heights[k0] <= v.rows);
    lemma_free_cells_positive(v.heights, v.rows, k0);
    assert forall|c: int| #[trigger] v.is_legal(c) && v.outcome(c) is None implies e.bounded(
        v.apply(c),
        (d - 1) as nat,
        e.minimax_value(v.apply(c), (d - 1) as nat),
        true,
    ) && e.bounded(v.apply(c), (d - 1) as nat, e.minimax_value(v.apply(c), (d - 1) as nat), false) by {
        lemma_game_goes_on(v, c);
        lemma_free_cells_step(v.heights, v.rows, c);
        assert(v.apply(c).heights == v.heights.update(c, (v.heights[c] + 1) as nat));
        lemma_minimax_value_exists(e, v.apply(c), (d - 1) as nat);
    }
    assert(v.is_legal(k0));
    let best = lemma_best_move_value(e, v, d, v.cols as int);
    let x = e.move_value(v, best, d);
    assert(e.bounded(v, d, x, true)) by {
        assert(v.is_legal(best));
    }
    assert forall|c: int| #[trigger] v.is_legal(c) implies (if v.outcome(c) is Some {
        e.end_value(v, c) <= x
    } else {
        e.bounded(v.apply(c), (d - 1) as nat, -x, true)
    }) by {
        assert(e.move_value(v, c, d) <= x);
        if v.outcome(c) is None {
            lemma_bounded_monotone(
                e,
                v.apply(c),
                (d - 1) as nat,
                e.minimax_value(v.apply(c), (d - 1) as nat),
                -x,
                true,
            );
        }
    }
    assert(e.bounded(v, d, x, false));
}

impl Evaluator {
    /// The summed reward, for `player`, of `n` random playouts from `game`.
    pub fn playouts(&self, game: &Game, rng: &mut StdRng, player: Color, n: u32) -> (total: i64)
        requires
            self.wf(),
            game.wf(),
            game@.turn != Color::Empty,
            !game@.all_full(),
        ensures
            -self.top(n as nat) <= total <= self.top(n as nat),
            self.is_playout_total(game@, player, n as nat, total as int),
    {
        let mut total: i64 = 0;
        let mut bound: i64 = 0;
        let mut k: u32 = 0;
        let ghost mut ws: Seq<Color> = Seq::empty();
        while k < n
            invariant
                self.wf(),
                game.wf(),
                game@.turn != Color::Empty,
                !game@.all_full(),
                k <= n,
                bound == k * self.rewards.win,
                -bound <= total <= bound,
                ws.len() == k,
                forall|i: int| 0 <= i < k ==> game@.can_end_with(#[trigger] ws[i]),
                total == self.sum_rewards(player, ws),
            decreases n - k,
        {
            let w = rollout(game, rng);
            let x = self.reward(player, w);
            proof {
                lemma_score_bound(n, self.rewards.win, k as int, x as int);
                lemma_score_bound(n, self.rewards.win, k as int + 1, x as int);
                let ws2 = ws.push(w);
                assert(ws2.drop_last() =~= ws);
                assert forall|i: int| 0 <= i < k + 1 implies game@.can_end_with(#[trigger] ws2[i]) by {
                    if i < k {
                        assert(ws2[i] == ws[i]);
                    }
                }
                ws = ws2;
            }
            total = total + x;
            bound = bound + self.rewards.win as i64;
            k += 1;
        }
        proof {
            lemma_score_bound(n, self.rewards.win, n as int, 0);
        }
        total
    }

    /// The score of each column of `game` for the player to move, from `n`
    /// playouts each: `None` for a full column; for a move that ends the
    /// game, `n` times its reward (every playout from there ends the same
    /// way); otherwise the summed reward of `n` random playouts. The board
    /// is handed back as it was.
    pub fn column_scores(&self, game: &mut Game, rng: &mut StdRng, n: u32) -> (scores: Vec<Option<i64>>)
        requires
            self.wf(),
            old(game).wf(),
            old(game)@.turn != Color::Empty,
        ensures
            final(game).wf(),
            final(game)@ == old(game)@,
            self.valid_scores(old(game)@, n as nat, scores@),
    {
        let ghost g0 = game@;
        let mover = game.turn();
        let cols = game.columns();
        let mut scores: Vec<Option<i64>> = Vec::new();
        let mut c: usize = 0;
        while c < cols
            invariant
                self.wf(),
                game.wf(),
                game@ == g0,
                mover == g0.turn,
                mover != Color::Empty,
                cols == g0.cols,
                c <= cols,
                scores@.len() == c,
                forall|k: int| 0 <= k < c ==> (#[trigger] scores@[k] is None <==> g0.is_full(k)),
                forall|k: int|
                    0 <= k < c && #[trigger] scores@[k] is Some ==> -self.top(n as nat) <= scores@[k]->Some_0
                        <= self.top(n as nat),
                forall|k: int|
                    0 <= k < c && #[trigger] g0.is_legal(k) && g0.outcome(k) is Some ==> scores@[k] == Some(
                        (n * self.reward_of(g0.turn, g0.outcome(k)->Some_0)) as i64,
                    ),
                forall|k: int|
                    0 <= k < c && #[trigger] g0.is_legal(k) && g0.outcome(k) is None ==> self.is_playout_total(
                        g0.apply(k),
                        g0.turn,
                        n as nat,
                        scores@[k]->Some_0 as int,
                    ),
            decreases cols - c,
        {
            let ghost before = scores@;
            if game.is_full(c) {
                scores.push(None);
            } else {
                let result = game.drop_piece(c);
                let score: i64;
                if let Ok(Some(w)) = result {
                    let x = self.reward(mover, w);
                    proof {
                        lemma_score_bound(n, self.rewards.win, n as int, x as int);
                    }
                    score = n as i64 * x;
                } else {
                    proof {
                        lemma_game_goes_on(g0, c as int);
                    }
                    score = self.playouts(game, rng, mover, n);
                }
                game.take_piece(c);
                proof {
                    law_take_undoes_drop(g0, c as int);
                }
                scores.push(Some(score));
            }
            proof {
                assert forall|k: int| 0 <= k < c implies scores@[k] == before[k] by {}
            }
            c += 1;
        }
        scores
    }
}


/// Column `c` has a score, none beats it, and every column before it scores
/// strictly less.
pub open spec fn is_best(scores: Seq<Option<i64>>, c: int) -> bool {
    &&& 0 <= c < scores.len()
    &&& scores[c] is Some
    &&& forall|k: int|
        0 <= k < scores.len() && #[trigger] scores[k] is Some ==> scores[k]->Some_0 <= scores[c]->Some_0
    &&& forall|k: int| 0 <= k < c && #[trigger] scores[k] is Some ==> scores[k]->Some_0 < scores[c]->Some_0
}

/// In a ranking, column `a` comes before column `b`: a higher score, or an
/// equal score and a lower index.
pub open spec fn ranks_before(scores: Seq<Option<i64>>, a: int, b: int) -> bool {
    scores[a]->Some_0 > scores[b]->Some_0 || (scores[a]->Some_0 == scores[b]->Some_0 && a < b)
}

/// The column with the highest score, the lowest one among equals, with its
/// score; `None` when no column has a score.
pub fn best_scored(scores: &Vec<Option<i64>>) -> (r: Option<(usize, i64)>)
    ensures
        match r {
            Some((c, s)) => is_best(scores@, c as int) && s == scores@[c as int]->Some_0,
            None => forall|k: int| 0 <= k < scores@.len() ==> #[trigger] scores@[k] is None,
        },
{
    let mut best: Option<(usize, i64)> = None;
    let mut c: usize = 0;
    while c < scores.len()
        invariant
            c <= scores@.len(),
            match best {
                Some((b, s)) => {
                    &&& b < c
                    &&& scores@[b as int] == Some(s)
                    &&& forall|k: int| 0 <= k < c && #[trigger] scores@[k] is Some ==> scores@[k]->Some_0 <= s
                    &&& forall|k: int| 0 <= k < b && #[trigger] scores@[k] is Some ==> scores@[k]->Some_0 < s
                },
                None => forall|k: int| 0 <= k < c ==> #[trigger] scores@[k] is None,
            },
        decreases scores@.len() - c,
    {
        if let Some(x) = scores[c] {
            match best {
                None => {
                    best = Some((c, x));
                },
                Some((_, s)) => {
                    if x > s {
                        best = Some((c, x));
                    }
                },
            }
        }
        c += 1;
    }
    best
}

/// The columns that have a score, best first: by decreasing score, and by
/// increasing index among equal scores.
pub fn order_by_scores(scores: &Vec<Option<i64>>) -> (r: Vec<usize>)
    ensures
        forall|i: int| 0 <= i < r@.len() ==> #[trigger] r@[i] < scores@.len() && scores@[r@[i] as int] is Some,
        forall|c: int| 0 <= c < scores@.len() && #[trigger] scores@[c] is Some ==> r@.contains(c as usize),
        forall|i: int, j: int|
            0 <= i < j < r@.len() ==> ranks_before(scores@, #[trigger] r@[i] as int, #[trigger] r@[j] as int),
{
    let mut r: Vec<usize> = Vec::new();
    let mut c: usize = 0;
    while c < scores.len()
        invariant
            c <= scores@.len(),
            forall|i: int| 0 <= i < r@.len() ==> #[trigger] r@[i] < c && scores@[r@[i] as int] is Some,
            forall|k: int| 0 <= k < c && #[trigger] scores@[k] is Some ==> r@.contains(k as usize),
            forall|i: int, j: int|
                0 <= i < j < r@.len() ==> ranks_before(scores@, #[trigger] r@[i] as int, #[trigger] r@[j] as int),
        decreases scores@.len() - c,
    {
        if let Some(x) = scores[c] {
            let mut p: usize = 0;
            while p < r.len() && scores[r[p]].unwrap() >= x
                invariant
                    c < scores@.len(),
                    scores@[c as int] == Some(x),
                    p <= r@.len(),
                    forall|i: int| 0 <= i < r@.len() ==> #[trigger] r@[i] < c && scores@[r@[i] as int] is Some,
                    forall|k: int| 0 <= k < c && #[trigger] scores@[k] is Some ==> r@.contains(k as usize),
                    forall|i: int, j: int|
                        0 <= i < j < r@.len() ==> ranks_before(scores@, #[trigger] r@[i] as int, #[trigger] r@[j] as int),
                    forall|i: int| 0 <= i < p ==> scores@[#[trigger] r@[i] as int]->Some_0 >= x,
                decreases r@.len() - p,
            {
                p += 1;
            }
            let ghost r0 = r@;
            proof {
                if p < r0.len() {
                    assert(scores@[r0[p as int] as int]->Some_0 < x);
                    assert forall|j: int| p <= j < r0.len() implies scores@[#[trigger] r0[j] as int]->Some_0 < x by {
                        if j > p {
                            assert(ranks_before(scores@, r0[p as int] as int, r0[j] as int));
                        }
                    }
                }
            }
            r.insert(p, c);
            proof {
                assert forall|i: int| 0 <= i < r@.len() implies #[trigger] r@[i] < c + 1 && scores@[r@[i] as int] is Some by {
                    if i < p {
                        assert(r@[i] == r0[i]);
                    } else if i > p {
                        assert(r@[i] == r0[i - 1]);
                    }
                }
                assert forall|i: int, j: int|
                    0 <= i < j < r@.len() implies ranks_before(scores@, #[trigger] r@[i] as int, #[trigger] r@[j] as int) by {
                    if j < p {
                        assert(r@[i] == r0[i] && r@[j] == r0[j]);
                    } else if j == p {
                        assert(r@[i] == r0[i]);
                    } else if i < p {
                        assert(r@[i] == r0[i] && r@[j] == r0[j - 1]);
                    } else if i == p {
                        assert(r@[j] == r0[j - 1]);
                    } else {
                        assert(r@[i] == r0[i - 1] && r@[j] == r0[j - 1]);
                    }
                }
                assert forall|k: int| 0 <= k <= c && #[trigger] scores@[k] is Some implies r@.contains(k as usize) by {
                    if k == c {
                        assert(r@[p as int] == c);
                    } else {
                        assert(r0.contains(k as usize));
                        let i = choose|i: int| 0 <= i < r0.len() && r0[i] == k as usize;
                        if i < p {
                            assert(r@[i] == k as usize);
                        } else {
                            assert(r@[i + 1] == k as usize);
                        }
                    }
                }
            }
        }
        c += 1;
    }
    r
}


/// The first column in which the player to move wins at once, if any. The
/// board is handed back as it was.
pub fn first_winning_column(game: &mut Game) -> (r: Option<usize>)
    requires
        old(game).wf(),
        old(game)@.turn != Color::Empty,
    ensures
        final(game).wf(),
        final(game)@ == old(game)@,
        match r {
            Some(c) => old(game)@.wins_immediately(c as int)
                && forall|k: int| 0 <= k < c ==> !#[trigger] old(game)@.wins_immediately(k),
            None => !old(game)@.has_immediate_win(),
        },
{
    let ghost g0 = game@;
    let mover = game.turn();
    let cols = game.columns();
    let mut found: Option<usize> = None;
    let mut c: usize = 0;
    while found.is_none() && c < cols
        invariant
            game.wf(),
            game@ == g0,
            mover == g0.turn,
            mover != Color::Empty,
            cols == g0.cols,
            c <= cols,
            forall|k: int| 0 <= k < c ==> !#[trigger] g0.wins_immediately(k),
            match found {
                Some(f) => f == c && g0.wins_immediately(c as int),
                None => true,
            },
        decreases cols - c, (if found is None { 1int } else { 0int }),
    {
        let mut wins = false;
        if !game.is_full(c) {
            let result = game.drop_piece(c);
            game.take_piece(c);
            proof {
                law_take_undoes_drop(g0, c as int);
            }
            if let Ok(Some(w)) = result {
                wins = w == mover;
            }
        }
        if wins {
            found = Some(c);
        } else {
            c += 1;
        }
    }
    proof {
        if found is None {
            assert forall|k: int| !#[trigger] g0.wins_immediately(k) by {
                if 0 <= k < cols {
                }
            }
        }
    }
    found
}

impl Evaluator {
    /// The evaluator's pick for the player to move, with its score: the
    /// column with the best score from `column_scores` over `nrollouts`
    /// playouts, the lowest one among equals (`is_best`). A column that wins at once
    /// scores the most that any column can. The board is handed back as it
    /// was.
    pub fn pick_column(&self, game: &mut Game, rng: &mut StdRng) -> (r: (usize, i64))
        requires
            self.wf(),
            old(game).wf(),
            old(game)@.turn != Color::Empty,
            !old(game)@.all_full(),
        ensures
            final(game).wf(),
            final(game)@ == old(game)@,
            old(game)@.is_legal(r.0 as int),
            -self.top(self.nrollouts as nat) <= r.1 <= self.top(self.nrollouts as nat),
            old(game)@.has_immediate_win() ==> r.1 == self.top(self.nrollouts as nat),
            exists|s: Seq<Option<i64>>|
                #[trigger] self.valid_scores(old(game)@, self.nrollouts as nat, s) && is_best(s, r.0 as int) && r.1
                    == s[r.0 as int]->Some_0,
    {
        let ghost g0 = game@;
        let scores = self.column_scores(game, rng, self.nrollouts);
        let best = best_scored(&scores);
        match best {
            Some((c, s)) => {
                proof {
                    if g0.has_immediate_win() {
                        let w = choose|w: int| #[trigger] g0.wins_immediately(w);
                        assert(g0.is_legal(w));
                        assert(scores@[w] is Some);
                        assert(self.reward_of(g0.turn, g0.turn) == self.rewards.win);
                        lemma_score_bound(self.nrollouts, self.rewards.win, 0, 0);
                        assert(scores@[w] == Some(self.top(self.nrollouts as nat) as i64));
                    }
                    assert(self.valid_scores(g0, self.nrollouts as nat, scores@) && is_best(scores@, c as int));
                }
                (c, s)
            },
            None => {
                // Unreachable: some column is open, so some column has a score.
                proof {
                    let k = choose|k: int| 0 <= k < g0.cols && !#[trigger] g0.is_full(k);
                    assert(scores@[k] is Some);
                }
                (0, 0)
            },
        }
    }

    /// The columns of `game` in the order in which a search should try
    /// them: only the first column that wins at once, if there is one;
    /// otherwise every legal column, ranked by `order_by_scores` on the
    /// scores of `n` playouts each. The board is handed back as it was.
    pub fn ranked_columns(&self, game: &mut Game, rng: &mut StdRng, n: u32) -> (r: Vec<usize>)
        requires
            self.wf(),
            old(game).wf(),
            old(game)@.turn != Color::Empty,
            !old(game)@.all_full(),
        ensures
            final(game).wf(),
            final(game)@ == old(game)@,
            r@.len() >= 1,
            forall|i: int| 0 <= i < r@.len() ==> old(game)@.is_legal(#[trigger] r@[i] as int),
            old(game)@.has_immediate_win() ==> r@.len() == 1 && old(game)@.wins_immediately(r@[0] as int),
            !old(game)@.has_immediate_win() ==> forall|c: int|
                #[trigger] old(game)@.is_legal(c) ==> r@.contains(c as usize),
            forall|i: int, j: int| 0 <= i < j < r@.len() ==> r@[i] != r@[j],
    {
        let ghost g0 = game@;
        if let Some(c) = first_winning_column(game) {
            return vec![c];
        }
        let scores = self.column_scores(game, rng, n);
        let order = order_by_scores(&scores);
        proof {
            let k = choose|k: int| 0 <= k < g0.cols && !#[trigger] g0.is_full(k);
            assert(scores@[k] is Some);
            assert(order@.contains(k as usize));
            assert forall|i: int| 0 <= i < order@.len() implies g0.is_legal(#[trigger] order@[i] as int) by {
                assert(order@[i] < scores@.len() && scores@[order@[i] as int] is Some);
            }
            assert forall|c: int| #[trigger] g0.is_legal(c) implies order@.contains(c as usize) by {
                assert(scores@[c] is Some);
            }
            assert forall|i: int, j: int| 0 <= i < j < order@.len() implies order@[i] != order@[j] by {
                assert(ranks_before(scores@, order@[i] as int, order@[j] as int));
            }
        }
        order
    }
}


/// What a stored search value says of its position's value.
#[derive(Clone, Copy, PartialEq, Eq, Structural, Debug)]
pub enum Bound {
    /// The value itself.
    Exact,
    /// A lower bound: the search failed high.
    Lower,
    /// An upper bound: the search failed low.
    Upper,
}

/// What the transposition table holds for a position and depth.
pub struct Record {
    pub bound: Bound,
    pub col: usize,
    pub value: i64,
}

/// A stored record settles a search with window `(alpha, beta)` on its own:
/// it is exact, or a bound that leaves the window empty.
pub open spec fn settles(e: Record, alpha: int, beta: int) -> bool {
    e.bound == Bound::Exact || (e.bound == Bound::Lower && e.value >= beta) || (e.bound == Bound::Upper
        && e.value <= alpha)
}

/// How a searched value is stored against the window it was searched
/// with: an upper bound if it did not exceed `alpha`, a lower bound if it
/// reached `beta`, else exact.
pub open spec fn classify(value: int, alpha: int, beta: int) -> Bound {
    if value <= alpha {
        Bound::Upper
    } else if value >= beta {
        Bound::Lower
    } else {
        Bound::Exact
    }
}

/// A transposition-table record: the position and remaining depth it was
/// searched at, and the result.
pub struct TableEntry {
    key: Game,
    depth: usize,
    bound: Bound,
    col: usize,
    value: i64,
}

/// Modulus of the position hash, a prime below 2^61.
pub const KEY_MODULUS: u64 = 0x1fff_ffff_ffff_ffff;

/// The number a color adds to a position hash.
pub open spec fn color_code(c: Color) -> nat {
    match c {
        Color::Empty => 0,
        Color::Blue => 1,
        Color::Red => 2,
    }
}

/// The hash `h` extended by the first `r` cells of a column.
pub open spec fn hash_column(h: nat, col: Seq<Color>, r: nat) -> nat
    decreases r,
{
    if r == 0 {
        h
    } else {
        (hash_column(h, col, (r - 1) as nat) * 3 + color_code(col[r - 1])) % (KEY_MODULUS as nat)
    }
}

/// The hash of the first `c` columns of a board with `rows` rows.
pub open spec fn hash_columns(cells: Seq<Seq<Color>>, rows: nat, c: nat) -> nat
    decreases c,
{
    if c == 0 {
        0
    } else {
        hash_column(hash_columns(cells, rows, (c - 1) as nat), cells[c - 1], rows)
    }
}

/// The slot of the transposition table for a position searched to
/// `depth`: a hash of the cells, the turn and the depth.
pub open spec fn key_of(v: GameView, depth: nat) -> u64 {
    let h = (hash_columns(v.cells, v.rows, v.cols) * 3 + color_code(v.turn)) % (KEY_MODULUS as nat);
    ((h + depth % (KEY_MODULUS as nat)) % (KEY_MODULUS as nat)) as u64
}

/// The slot of the transposition table for `game` searched to `depth`.
/// Records are told apart by comparing the whole position, so equal
/// hashes are harmless.
fn position_key(game: &Game, depth: usize) -> (r: u64)
    requires
        game.wf(),
    ensures
        r == key_of(game@, depth as nat),
{
    let ghost v = game@;
    let mut h: u64 = 0;
    let mut c: usize = 0;
    while c < game.columns()
        invariant
            game.wf(),
            v == game@,
            c <= game@.cols,
            h < KEY_MODULUS,
            h == hash_columns(v.cells, v.rows, c as nat),
        decreases game@.cols - c,
    {
        let mut r: usize = 0;
        assert(v.cells[c as int].len() == v.rows);
        while r < game.rows()
            invariant
                game.wf(),
                v == game@,
                c < game@.cols,
                r <= game@.rows,
                h < KEY_MODULUS,
                h == hash_column(hash_columns(v.cells, v.rows, c as nat), v.cells[c as int], r as nat),
            decreases game@.rows - r,
        {
            let code: u64 = match game.get(c, r) {
                Color::Empty => 0,
                Color::Blue => 1,
                Color::Red => 2,
            };
            h = (h * 3 + code) % KEY_MODULUS;
            r += 1;
        }
        c += 1;
    }
    let code: u64 = match game.turn() {
        Color::Empty => 0,
        Color::Blue => 1,
        Color::Red => 2,
    };
    h = (h * 3 + code) % KEY_MODULUS;
    (h + depth as u64 % KEY_MODULUS) % KEY_MODULUS
}

/// The search player: negamax with alpha-beta pruning to a fixed depth,
/// the evaluator at its frontier and for move ordering, and a
/// transposition table keyed by position and remaining depth.
pub struct PerfectAI {
    evaluator: Evaluator,
    max_depth: usize,
    rng: StdRng,
    memo: HashMap<u64, TableEntry>,
}

impl PerfectAI {
    /// The evaluator the search scores its frontier and orders moves with.
    pub closed spec fn spec_evaluator(&self) -> Evaluator {
        self.evaluator
    }

    /// The depth that `get_column` searches to.
    pub closed spec fn spec_max_depth(&self) -> usize {
        self.max_depth
    }

    pub fn evaluator(&self) -> (e: Evaluator)
        ensures
            e == self.spec_evaluator(),
    {
        self.evaluator
    }

    pub fn max_depth(&self) -> (d: usize)
        ensures
            d == self.spec_max_depth(),
    {
        self.max_depth
    }

    /// The transposition table, by slot.
    pub closed spec fn table(&self) -> Map<u64, TableEntry> {
        self.memo@
    }

    /// The record held for `v` searched to `depth`, if any.
    pub closed spec fn record(&self, v: GameView, depth: nat) -> Option<Record> {
        let k = key_of(v, depth);
        if self.memo@.contains_key(k) && self.memo@[k].key@ == v && self.memo@[k].depth == depth {
            Some(Record { bound: self.memo@[k].bound, col: self.memo@[k].col, value: self.memo@[k].value })
        } else {
            None
        }
    }

    /// A record of `v` at `depth` settles the window `(alpha, beta)`.
    pub open spec fn settled(&self, v: GameView, depth: nat, alpha: int, beta: int) -> bool {
        match self.record(v, depth) {
            Some(e) => settles(e, alpha, beta),
            None => false,
        }
    }

    /// The value of a won position: what `nrollouts` won playouts score,
    /// the most that any position is valued at.
    pub open spec fn win_score(&self) -> int {
        self.spec_evaluator().top(self.spec_evaluator().nrollouts as nat)
    }

    /// A record is about a position in play, names a legal column and a
    /// value in range, and, searched at least one move deep where a move
    /// wins at once, names such a move with the win score.
    pub closed spec fn entry_ok(&self, e: TableEntry) -> bool {
        e.key.wf() && self.record_ok(e.key@, e.depth as nat, e.bound, e.col as int, e.value as int)
    }

    /// What a search of `pos` to `depth` may store or return: a legal
    /// column, a value within the win score, the win score with a winning
    /// column where a move wins at once, and for a position won (lost)
    /// within `depth` moves, the win score (its negation) unless the value
    /// is only a lower (upper) bound.
    pub open spec fn record_ok(&self, pos: GameView, depth: nat, bound: Bound, col: int, value: int) -> bool {
        &&& pos.valid()
        &&& pos.turn != Color::Empty
        &&& pos.is_legal(col)
        &&& -self.win_score() <= value <= self.win_score()
        &&& depth >= 1 && pos.has_immediate_win() ==> pos.wins_immediately(col) && value == self.win_score()
        &&& forall|d: nat|
            1 <= d <= depth && #[trigger] pos.forced_win(d) ==> value == self.win_score() || bound == Bound::Lower
        &&& forall|d: nat|
            1 <= d <= depth && #[trigger] pos.forced_loss(d) ==> value == -self.win_score() || bound
                == Bound::Upper
        &&& forall|d: nat, x: int|
            1 <= d <= depth && #[trigger] self.spec_evaluator().bounded(pos, d, x, true) ==> value >= x || bound
                == Bound::Lower
        &&& forall|d: nat, x: int|
            1 <= d <= depth && #[trigger] self.spec_evaluator().bounded(pos, d, x, false) ==> value <= x || bound
                == Bound::Upper
    }

    pub closed spec fn wf(&self) -> bool {
        &&& self.evaluator.wf()
        &&& forall|h: u64| #[trigger] self.memo@.contains_key(h) ==> self.entry_ok(self.memo@[h])
    }

    /// A search player with the standard rewards, `nrollouts` playouts per
    /// frontier column, searching `max_depth` moves deep, drawing from a
    /// generator seeded with `seed`.
    pub fn with(nrollouts: u32, max_depth: usize, seed: u64) -> (ai: PerfectAI)
        ensures
            ai.wf(),
            ai.spec_evaluator().nrollouts == nrollouts,
            ai.spec_evaluator().rewards == Rewards::standard_spec(),
            ai.spec_max_depth() == max_depth,
            ai.table() == Map::<u64, TableEntry>::empty(),
    {
        PerfectAI::from_evaluator(Evaluator::new(nrollouts, Rewards::standard()), max_depth, seed)
    }

    /// A search player on the given evaluator, with an empty table.
    pub fn from_evaluator(evaluator: Evaluator, max_depth: usize, seed: u64) -> (ai: PerfectAI)
        requires
            evaluator.wf(),
        ensures
            ai.wf(),
            ai.spec_evaluator() == evaluator,
            ai.spec_max_depth() == max_depth,
            ai.table() == Map::<u64, TableEntry>::empty(),
    {
        PerfectAI { evaluator, max_depth, rng: seeded_rng(seed), memo: HashMap::new() }
    }

    /// The win score as a machine integer.
    fn win_value(&self) -> (r: i64)
        requires
            self.evaluator.wf(),
        ensures
            r == self.win_score(),
            0 <= r <= 0xffff_ffff_ffff,
    {
        proof {
            lemma_score_bound(self.evaluator.nrollouts, self.evaluator.rewards.win, 0, 0);
        }
        self.evaluator.nrollouts as i64 * self.evaluator.rewards.win as i64
    }

    /// The best column for the player to move and its value, searching
    /// `depth` moves deep within the window `(alpha, beta)`, which must not
    /// be empty. The full window is `(-i64::MAX, i64::MAX)`.
    ///
    /// A stored record of this position and depth narrows the window (an
    /// exact one is returned as it is); an empty window returns the record.
    /// At depth 0 the evaluator's pick is returned. Otherwise the ranked
    /// columns are tried in turn: a move that wins is worth the win score, a
    /// move that draws `nrollouts` draw rewards, any other the negated value
    /// of the opponent's search one move less deep; the search stops once
    /// the best value reaches `beta`. The result is stored, as an upper
    /// bound if it did not exceed the `alpha` passed in, a lower bound if it
    /// reached `beta`, else as exact. The board is handed back as it was.
    ///
    /// A record that settles the window (`settled`) is returned as stored
    /// and nothing changes. Otherwise, at depth 0 the table is untouched and
    /// the result is the evaluator's pick; at depth 1 or more the result is
    /// stored for this position and depth, classified by `classify` against
    /// the window passed in. Table slots are only ever added or overwritten.
    ///
    /// The value is sound for whatever is settled within `depth` moves,
    /// whatever the table held (`Evaluator::bounded`): a value the player to
    /// move can make sure of is reached unless the search fails high (at or
    /// above `beta`), and a value they cannot exceed is not exceeded unless
    /// it fails low (at or below `alpha`). With the full window, a won
    /// position gets the win score, a lost one its negation, and when
    /// `depth` covers every empty cell the value is the minimax value.
    pub fn best_move(&mut self, game: &mut Game, depth: usize, alpha: i64, beta: i64) -> (r: (usize, i64))
        requires
            old(self).wf(),
            old(game).wf(),
            old(game)@.turn != Color::Empty,
            !old(game)@.all_full(),
            alpha >= -i64::MAX,
            alpha < beta,
        ensures
            final(self).wf(),
            final(self).spec_evaluator() == old(self).spec_evaluator(),
            final(self).spec_max_depth() == old(self).spec_max_depth(),
            final(game).wf(),
            final(game)@ == old(game)@,
            old(game)@.is_legal(r.0 as int),
            -old(self).win_score() <= r.1 <= old(self).win_score(),
            depth >= 1 && old(game)@.has_immediate_win() ==> old(game)@.wins_immediately(r.0 as int) && r.1
                == old(self).win_score(),
            forall|d: nat|
                1 <= d <= depth && #[trigger] old(game)@.forced_win(d) ==> r.1 == old(self).win_score() || r.1
                    >= beta,
            forall|d: nat|
                1 <= d <= depth && #[trigger] old(game)@.forced_loss(d) ==> r.1 == -old(self).win_score() || r.1
                    <= alpha,
            old(self).table().dom().subset_of(final(self).table().dom()),
            old(self).settled(old(game)@, depth as nat, alpha as int, beta as int) ==> {
                &&& r.0 == old(self).record(old(game)@, depth as nat)->Some_0.col
                &&& r.1 == old(self).record(old(game)@, depth as nat)->Some_0.value
                &&& final(self).table() == old(self).table()
            },
            !old(self).settled(old(game)@, depth as nat, alpha as int, beta as int) && depth == 0 ==> {
                &&& final(self).table() == old(self).table()
                &&& exists|s: Seq<Option<i64>>|
                    #[trigger] old(self).spec_evaluator().valid_scores(
                        old(game)@,
                        old(self).spec_evaluator().nrollouts as nat,
                        s,
                    ) && is_best(s, r.0 as int) && r.1 == s[r.0 as int]->Some_0
            },
            !old(self).settled(old(game)@, depth as nat, alpha as int, beta as int) && depth >= 1 ==> final(self).record(
                old(game)@,
                depth as nat,
            ) == Some(Record { bound: classify(r.1 as int, alpha as int, beta as int), col: r.0, value: r.1 }),
            forall|d: nat, x: int|
                1 <= d <= depth && #[trigger] old(self).spec_evaluator().bounded(old(game)@, d, x, true) ==> r.1 >= x
                    || r.1 >= beta,
            forall|d: nat, x: int|
                1 <= d <= depth && #[trigger] old(self).spec_evaluator().bounded(old(game)@, d, x, false) ==> r.1 <= x
                    || r.1 <= alpha,
            alpha < -old(self).win_score() && old(self).win_score() < beta ==> forall|d: nat, x: int|
                1 <= d <= depth && #[trigger] old(self).spec_evaluator().bounded(old(game)@, d, x, true)
                    && old(self).spec_evaluator().bounded(old(game)@, d, x, false) ==> r.1 == x,
            alpha < -old(self).win_score() && old(self).win_score() < beta && depth >= free_cells(
                old(game)@.heights,
                old(game)@.rows,
            ) ==> r.1 == old(self).spec_evaluator().minimax_value(old(game)@, depth as nat),
            alpha < -old(self).win_score() && old(self).win_score() < beta ==> (forall|d: nat|
                1 <= d <= depth && #[trigger] old(game)@.forced_win(d) ==> r.1 == old(self).win_score())
                && (forall|d: nat|
                1 <= d <= depth && #[trigger] old(game)@.forced_loss(d) ==> r.1 == -old(self).win_score()),
        decreases depth,
    {
        let ghost g0 = game@;
        let ghost m = self.win_score();
        proof {
            game.lemma_dims();
            if depth >= free_cells(g0.heights, g0.rows) {
                lemma_minimax_value_exists(self.evaluator, g0, depth as nat);
            }
        }
        let alpha_in = alpha;
        let beta_in = beta;
        let mut alpha = alpha;
        let mut beta = beta;
        let key = position_key(game, depth);
        let mut hit: Option<(Bound, usize, i64)> = None;
        match self.memo.get(&key) {
            Some(e) => {
                if e.depth == depth && e.key.same_position(game) {
                    proof {
                        assert(self.memo@.contains_key(key));
                        assert(self.entry_ok(self.memo@[key]));
                    }
                    hit = Some((e.bound, e.col, e.value));
                }
            },
            None => {},
        }
        assert(match hit {
            Some((b, c, v)) => self.record_ok(g0, depth as nat, b, c as int, v as int) && self.record(
                g0,
                depth as nat,
            ) == Some(Record { bound: b, col: c, value: v }),
            None => self.record(g0, depth as nat) is None,
        });
        if let Some((bound, col, value)) = hit {
            match bound {
                Bound::Exact => {
                    return (col, value);
                },
                Bound::Lower => {
                    if value > alpha {
                        alpha = value;
                    }
                },
                Bound::Upper => {
                    if value < beta {
                        beta = value;
                    }
                },
            }
            if alpha >= beta {
                return (col, value);
            }
        }
        // The window as narrowed by the table.
        let ghost alpha_n = alpha;
        let ghost beta_n = beta;
        if depth == 0 {
            return self.evaluator.pick_column(game, &mut self.rng);
        }
        let top = self.win_value();
        proof {
            lemma_score_bound(
                self.evaluator.nrollouts,
                self.evaluator.rewards.win,
                self.evaluator.nrollouts as int,
                self.evaluator.rewards.draw as int,
            );
        }
        let draw = self.evaluator.nrollouts as i64 * self.evaluator.rewards.draw as i64;
        let order = self.evaluator.ranked_columns(game, &mut self.rng, self.evaluator.nrollouts / 2);
        let mover = game.turn();
        let mut max_col: usize = order[0];
        let mut max_value: i64 = i64::MIN;
        let mut i: usize = 0;
        while i < order.len() && alpha < beta
            invariant
                self.wf(),
                self.evaluator == old(self).evaluator,
                self.max_depth == old(self).max_depth,
                old(self).table().dom().subset_of(self.table().dom()),
                game.wf(),
                game@ == g0,
                g0.turn == mover,
                mover != Color::Empty,
                depth >= 1,
                top == self.win_score(),
                top == m,
                -top <= draw <= top,
                top <= 0xffff_ffff_ffff,
                i <= order@.len(),
                order@.len() >= 1,
                forall|j: int| 0 <= j < order@.len() ==> g0.is_legal(#[trigger] order@[j] as int),
                g0.has_immediate_win() ==> order@.len() == 1 && g0.wins_immediately(order@[0] as int),
                !g0.has_immediate_win() ==> forall|c: int| #[trigger] g0.is_legal(c) ==> order@.contains(c as usize),
                alpha_n >= -i64::MAX,
                alpha_n < beta_n,
                beta == beta_n,
                i == 0 ==> max_value == i64::MIN && alpha == alpha_n,
                i >= 1 ==> g0.is_legal(max_col as int) && -top <= max_value <= top,
                i >= 1 ==> alpha == (if alpha_n >= max_value { alpha_n } else { max_value }),
                i >= 1 && g0.has_immediate_win() ==> max_col == order@[0] && max_value == top,
                forall|j: int, d: nat|
                    0 <= j < i && 1 <= d <= depth && #[trigger] g0.winning_move(order@[j] as int, d) ==> max_value
                        == top || max_value >= beta_n,
                forall|d: nat|
                    1 <= d <= depth && #[trigger] g0.forced_loss(d) && i >= 1 ==> max_value == -top || max_value
                        <= alpha_n,
                forall|j: int, d: nat, x: int|
                    0 <= j < i && 1 <= d <= depth && #[trigger] self.evaluator.move_at_least(g0, order@[j] as int, d, x)
                        ==> max_value >= x || max_value >= beta_n,
                forall|d: nat, x: int|
                    1 <= d <= depth && #[trigger] self.evaluator.bounded(g0, d, x, false) && i >= 1 ==> max_value <= x
                        || max_value <= alpha_n,
                draw == self.evaluator.nrollouts * self.evaluator.rewards.draw,
            decreases order@.len() - i,
        {
            let col = order[i];
            let ghost alpha_before = alpha;
            let ghost max_before = max_value;
            let result = game.drop_piece(col);
            let value: i64;
            if let Ok(Some(w)) = result {
                value = if w == mover {
                    top
                } else {
                    draw
                };
                proof {
                    assert forall|d: nat| 1 <= d <= depth && #[trigger] g0.forced_loss(d) implies false by {
                        assert(g0.is_legal(col as int));
                    }
                    assert(value == self.evaluator.end_value(g0, col as int));
                    assert forall|d: nat, x: int|
                        1 <= d <= depth && #[trigger] self.evaluator.bounded(g0, d, x, false) implies value <= x by {
                        assert(g0.is_legal(col as int));
                    }
                }
            } else {
                proof {
                    lemma_game_goes_on(g0, col as int);
                }
                let child = self.best_move(game, depth - 1, -beta, -alpha);
                value = -child.1;
                proof {
                    let a = g0.apply(col as int);
                    assert forall|d: nat| 1 <= d <= depth && #[trigger] g0.winning_move(col as int, d)
                        && !g0.wins_immediately(col as int) implies value == top || value >= beta_n by {
                        assert(a.forced_loss((d - 1) as nat));
                    }
                    assert forall|d: nat| 1 <= d <= depth && #[trigger] g0.forced_loss(d) implies value == -top
                        || value <= alpha_before by {
                        assert(g0.is_legal(col as int));
                        assert(a.forced_win((d - 1) as nat));
                    }
                    assert forall|d: nat, x: int|
                        1 <= d <= depth && #[trigger] self.evaluator.move_at_least(g0, col as int, d, x) implies value
                        >= x || value >= beta_n by {
                        assert(self.evaluator.bounded(a, (d - 1) as nat, -x, false));
                    }
                    assert forall|d: nat, x: int|
                        1 <= d <= depth && #[trigger] self.evaluator.bounded(g0, d, x, false) implies value <= x
                        || value <= alpha_before by {
                        assert(g0.is_legal(col as int));
                        assert(self.evaluator.bounded(a, (d - 1) as nat, -x, true));
                    }
                }
            }
            game.take_piece(col);
            proof {
                law_take_undoes_drop(g0, col as int);
            }
            if value > max_value {
                max_col = col;
                max_value = value;
                if value > alpha {
                    alpha = value;
                }
            }
            proof {
                assert forall|j: int, d: nat|
                    0 <= j < i + 1 && 1 <= d <= depth && #[trigger] g0.winning_move(order@[j] as int, d) implies max_value
                    == top || max_value >= beta_n by {
                    if j == i {
                        if g0.wins_immediately(col as int) {
                            assert(value == top);
                        }
                    }
                }
                assert forall|j: int, d: nat, x: int|
                    0 <= j < i + 1 && 1 <= d <= depth && #[trigger] self.evaluator.move_at_least(
                        g0,
                        order@[j] as int,
                        d,
                        x,
                    ) implies max_value >= x || max_value >= beta_n by {
                    if j == i {
                        if g0.outcome(col as int) is Some {
                            assert(value == self.evaluator.end_value(g0, col as int));
                        }
                    }
                }
            }
            i += 1;
        }
        proof {
            assert(i >= 1);
            assert forall|d: nat, x: int|
                1 <= d <= depth && #[trigger] self.evaluator.bounded(g0, d, x, true) implies max_value >= x
                || max_value >= beta_n by {
                let c = choose|c: int|
                    #![trigger g0.is_legal(c)]
                    g0.is_legal(c) && (if g0.outcome(c) is Some {
                        self.evaluator.end_value(g0, c) >= x
                    } else {
                        self.evaluator.bounded(g0.apply(c), (d - 1) as nat, -x, false)
                    });
                assert(self.evaluator.move_at_least(g0, c, d, x));
                if g0.has_immediate_win() {
                    lemma_bounded_range(self.evaluator, g0, d, x, true);
                } else if i < order@.len() {
                } else {
                    assert(order@.contains(c as usize));
                    let j = choose|j: int| 0 <= j < order@.len() && order@[j] == c as usize;
                    assert(order@[j] as int == c);
                    assert(self.evaluator.move_at_least(g0, order@[j] as int, d, x));
                }
            }
            assert forall|d: nat| 1 <= d <= depth && #[trigger] g0.forced_win(d) implies max_value == top
                || max_value >= beta_n by {
                let c = choose|c: int|
                    #![trigger g0.is_legal(c)]
                    g0.is_legal(c) && (g0.wins_immediately(c) || (g0.outcome(c) is None && g0.apply(c).forced(
                        (d - 1) as nat,
                        false,
                    )));
                assert(g0.winning_move(c, d));
                if g0.has_immediate_win() {
                } else if i < order@.len() {
                } else {
                    assert(g0.is_legal(c));
                    assert(order@.contains(c as usize));
                    let j = choose|j: int| 0 <= j < order@.len() && order@[j] == c as usize;
                    assert(order@[j] as int == c);
                    assert(g0.winning_move(order@[j] as int, d));
                }
            }
        }
        let bound = if max_value <= alpha_in {
            Bound::Upper
        } else if max_value >= beta_in {
            Bound::Lower
        } else {
            Bound::Exact
        };
        let entry = TableEntry { key: game.snapshot(), depth, bound, col: max_col, value: max_value };
        proof {
            assert(self.record_ok(g0, depth as nat, bound, max_col as int, max_value as int));
        }
        self.memo.insert(key, entry);
        (max_col, max_value)
    }
}

/// A computer player: picks a column for the player to move.
pub trait AI {
    /// The player's own state is consistent.
    spec fn ready(&self) -> bool;

    /// The player keeps its settings, and what it learned, from `earlier`.
    spec fn retains(&self, earlier: &Self) -> bool;

    /// A column that takes a piece, for the player to move on `game`.
    fn get_column(&mut self, game: &Game) -> (col: usize)
        requires
            old(self).ready(),
            game.wf(),
            game@.turn != Color::Empty,
            !game@.all_full(),
        ensures
            final(self).ready(),
            final(self).retains(old(self)),
            game@.is_legal(col as int),
    ;
}

/// The rollout player: plays the evaluator's pick.
pub struct SimpleAI {
    evaluator: Evaluator,
    rng: StdRng,
}

impl SimpleAI {
    pub closed spec fn spec_evaluator(&self) -> Evaluator {
        self.evaluator
    }

    /// A rollout player with the standard rewards and `nrollouts` playouts
    /// per column, drawing from a generator seeded with `seed`.
    pub fn with(nrollouts: u32, seed: u64) -> (ai: SimpleAI)
        ensures
            ai.ready(),
            ai.spec_evaluator().nrollouts == nrollouts,
            ai.spec_evaluator().rewards == Rewards::standard_spec(),
    {
        SimpleAI::from_evaluator(Evaluator::new(nrollouts, Rewards::standard()), seed)
    }

    /// A rollout player on the given evaluator.
    pub fn from_evaluator(evaluator: Evaluator, seed: u64) -> (ai: SimpleAI)
        requires
            evaluator.wf(),
        ensures
            ai.ready(),
            ai.spec_evaluator() == evaluator,
    {
        SimpleAI { evaluator, rng: seeded_rng(seed) }
    }

    pub fn evaluator(&self) -> (e: Evaluator)
        ensures
            e == self.spec_evaluator(),
    {
        self.evaluator
    }
}

impl AI for SimpleAI {
    closed spec fn ready(&self) -> bool {
        self.evaluator.wf()
    }

    /// The same evaluator.
    closed spec fn retains(&self, earlier: &SimpleAI) -> bool {
        self.evaluator == earlier.evaluator
    }

    /// The evaluator's pick on a copy of `game`.
    fn get_column(&mut self, game: &Game) -> (col: usize) {
        let mut g = game.snapshot();
        self.evaluator.pick_column(&mut g, &mut self.rng).0
    }
}

impl AI for PerfectAI {
    closed spec fn ready(&self) -> bool {
        self.wf()
    }

    /// The same evaluator and depth, and every table slot of `earlier`
    /// still filled.
    closed spec fn retains(&self, earlier: &PerfectAI) -> bool {
        &&& self.evaluator == earlier.evaluator
        &&& self.max_depth == earlier.max_depth
        &&& earlier.memo@.dom().subset_of(self.memo@.dom())
    }

    /// The column of a full-window search `max_depth` moves deep on a copy
    /// of `game`.
    fn get_column(&mut self, game: &Game) -> (col: usize) {
        let mut g = game.snapshot();
        self.best_move(&mut g, self.max_depth, -i64::MAX, i64::MAX).0
    }
}


/// Plays `game` out between `x`, who plays `Blue`, and `o`, who plays
/// `Red`, and returns the winner, or `Color::Empty` for a draw. The game
/// ends with no one to move, and a line of the winner's color on the board,
/// or, for a draw, every column full.
pub fn play_game<X: AI, O: AI>(game: &mut Game, x: &mut X, o: &mut O) -> (winner: Color)
    requires
        old(game).wf(),
        old(x).ready(),
        old(o).ready(),
        old(game)@.turn != Color::Empty,
        !old(game)@.all_full(),
    ensures
        final(game).wf(),
        final(game)@.turn == Color::Empty,
        winner != Color::Empty ==> final(game)@.has_line(winner),
        winner == Color::Empty ==> final(game)@.all_full(),
        old(game)@.can_end_with(winner),
{
    let ghost g0 = game@;
    let ghost mut played: nat = 0;
    let mut winner = Color::Empty;
    let mut done = false;
    while !done
        invariant
            game.wf(),
            x.ready(),
            o.ready(),
            done ==> g0.can_end_with(winner),
            !done ==> forall|w: Color, d: nat| #[trigger] game@.ends_within(w, d) ==> g0.ends_within(w, d + played),
            !done ==> game@.turn != Color::Empty && !game@.all_full(),
            done ==> game@.turn == Color::Empty,
            done && winner != Color::Empty ==> game@.has_line(winner),
            done && winner == Color::Empty ==> game@.all_full(),
        decreases free_cells(game@.heights, game@.rows), (if done { 0int } else { 1int }),
    {
        let ghost v = game@;
        let col = if game.turn() == Color::Blue {
            x.get_column(game)
        } else {
            o.get_column(game)
        };
        let result = game.drop_piece(col);
        proof {
            lemma_free_cells_step(v.heights, v.rows, col as int);
            assert(game@.heights == v.placed(col as int).heights);
        }
        if let Ok(Some(w)) = result {
            proof {
                lemma_game_over(v, col as int);
                lemma_ends_now(v, col as int);
                assert(g0.ends_within(w, 1 + played));
            }
            winner = w;
            done = true;
        } else {
            proof {
                lemma_game_goes_on(v, col as int);
                assert forall|w: Color, d: nat| #[trigger] game@.ends_within(w, d) implies g0.ends_within(
                    w,
                    d + (played + 1),
                ) by {
                    lemma_ends_after_move(v, col as int, w, d);
                    assert(v.ends_within(w, d + 1));
                }
                played = played + 1;
            }
        }
    }
    winner
}

/// Plays a game on the standard board between `x` (`Blue`, first to move)
/// and `o` (`Red`), and returns the winner, or `Color::Empty` for a draw:
/// a result that some sequence of legal moves from the empty board ends
/// with.
pub fn run_ai_game<X: AI, O: AI>(x: X, o: O) -> (winner: Color)
    requires
        x.ready(),
        o.ready(),
    ensures
        GameView::empty(NCOLS as nat, NROWS as nat, NWIN as nat).can_end_with(winner),
{
    let mut x = x;
    let mut o = o;
    let mut game = Game::new();
    proof {
        lemma_empty_has_room(NCOLS as nat, NROWS as nat, 4);
    }
    play_game(&mut game, &mut x, &mut o)
}

} // verus!
