use vstd::prelude::*;

verus! {

/// Number of rows of the standard board.
pub const NROWS: usize = 6;

/// Number of columns of the standard board.
pub const NCOLS: usize = 7;

/// Length of a winning line on the standard board.
pub const NWIN: usize = 4;

/// The content of a cell, or whose turn it is. `Empty` is an empty cell, and
/// as a turn it marks a finished game.
#[derive(Clone, Copy, PartialEq, Eq, Structural, Hash, Debug)]
pub enum Color {
    Empty,
    Blue,
    Red,
}

impl Color {
    pub open spec fn spec_opponent(self) -> Color {
        match self {
            Color::Empty => Color::Empty,
            Color::Blue => Color::Red,
            Color::Red => Color::Blue,
        }
    }

    /// The other player; `Empty` stays `Empty`.
    pub fn opponent(self) -> (r: Color)
        ensures
            r == self.spec_opponent(),
    {
        match self {
            Color::Empty => Color::Empty,
            Color::Blue => Color::Red,
            Color::Red => Color::Blue,
        }
    }

    pub fn is_none(self) -> (r: bool)
        ensures
            r == (self == Color::Empty),
    {
        self == Color::Empty
    }

    pub fn is_some(self) -> (r: bool)
        ensures
            r == (self != Color::Empty),
    {
        self != Color::Empty
    }
}

/// How a color is shown: `X` for `Blue`, `O` for `Red`, a space for `Empty`.
pub open spec fn shown_as(color: Color) -> char {
    match color {
        Color::Empty => ' ',
        Color::Blue => 'X',
        Color::Red => 'O',
    }
}

pub fn color_into_char(color: Color) -> (ch: char)
    ensures
        ch == shown_as(color),
{
    match color {
        Color::Empty => ' ',
        Color::Blue => 'X',
        Color::Red => 'O',
    }
}

/// The color shown as `ch`, one of `X`, `O` and a space.
pub fn char_into_color(ch: char) -> (color: Color)
    requires
        ch == ' ' || ch == 'X' || ch == 'O',
    ensures
        shown_as(color) == ch,
{
    if ch == 'X' {
        Color::Blue
    } else if ch == 'O' {
        Color::Red
    } else {
        Color::Empty
    }
}

/// The mathematical model of a board: its dimensions, the cells column by
/// column (row 0 at the bottom), the fill level of each column, and the turn.
pub struct GameView {
    pub cols: nat,
    pub rows: nat,
    pub win_len: nat,
    pub cells: Seq<Seq<Color>>,
    pub heights: Seq<nat>,
    pub turn: Color,
}


/// Offset of a coordinate by `i` steps of `delta` (one of -1, 0, 1).
pub open spec fn moved(x: int, delta: int, i: int) -> int {
    if delta == 1 {
        x + i
    } else if delta == -1 {
        x - i
    } else {
        x
    }
}

/// Column step of line direction `d`: vertical, horizontal, falling and
/// rising diagonal.
pub open spec fn dir_col(d: int) -> int {
    if d == 0 {
        0
    } else {
        1
    }
}

/// Row step of line direction `d`.
pub open spec fn dir_row(d: int) -> int {
    if d == 0 {
        1
    } else if d == 1 {
        0
    } else if d == 2 {
        -1
    } else {
        1
    }
}

/// The cell reached from `(c, r)` after `i` steps (negative: backward)
/// along direction `d`.
pub open spec fn step(c: int, r: int, d: int, i: int) -> (int, int) {
    (moved(c, dir_col(d), i), moved(r, dir_row(d), i))
}

impl GameView {
    pub open spec fn in_bounds(self, c: int, r: int) -> bool {
        0 <= c < self.cols && 0 <= r < self.rows
    }

    pub open spec fn cell(self, c: int, r: int) -> Color {
        self.cells[c][r]
    }

    /// Shapes agree with the dimensions, and gravity holds: a cell is taken
    /// exactly when it lies below its column's fill level.
    pub open spec fn valid(self) -> bool {
        &&& self.cols >= 1
        &&& self.rows >= 1
        &&& self.win_len >= 1
        &&& self.cells.len() == self.cols
        &&& self.heights.len() == self.cols
        &&& forall|c: int|
            0 <= c < self.cols ==> #[trigger] self.cells[c].len() == self.rows
        &&& forall|c: int| 0 <= c < self.cols ==> #[trigger] self.heights[c] <= self.rows
        &&& forall|c: int, r: int|
            #![trigger self.cells[c][r]]
            self.in_bounds(c, r) ==> (self.cells[c][r] != Color::Empty <==> r < self.heights[c])
    }

    pub open spec fn is_full(self, c: int) -> bool {
        self.heights[c] >= self.rows
    }

    pub open spec fn is_legal(self, c: int) -> bool {
        0 <= c < self.cols && !self.is_full(c)
    }

    pub open spec fn all_full(self) -> bool {
        forall|c: int| 0 <= c < self.cols ==> #[trigger] self.is_full(c)
    }

    /// Whether the cell at `p` is on the board and holds `m`.
    pub open spec fn holds(self, p: (int, int), m: Color) -> bool {
        self.in_bounds(p.0, p.1) && self.cell(p.0, p.1) == m
    }

    /// `win_len` consecutive cells of color `m` along direction `d` that
    /// include the cell `(c, r)`.
    pub open spec fn line_through(self, c: int, r: int, d: int, m: Color) -> bool {
        exists|s: int| -(self.win_len as int) < s <= 0 && #[trigger] self.window(c, r, d, s, m)
    }

    /// The `win_len` cells along `d` from offset `s` to `s + win_len - 1`
    /// around `(c, r)` all hold `m`.
    pub open spec fn window(self, c: int, r: int, d: int, s: int, m: Color) -> bool {
        forall|i: int| s <= i < s + self.win_len ==> #[trigger] self.holds(step(c, r, d, i), m)
    }

    /// Some line of color `m` runs through the cell `(c, r)`.
    pub open spec fn wins_at(self, c: int, r: int, m: Color) -> bool {
        exists|d: int| 0 <= d < 4 && #[trigger] self.line_through(c, r, d, m)
    }

    /// Some line of `win_len` cells of color `m` lies anywhere on the board.
    pub open spec fn has_line(self, m: Color) -> bool {
        exists|c: int, r: int, d: int|
            0 <= d < 4 && #[trigger] self.line_from(c, r, d, m)
    }

    /// The `win_len` cells starting at `(c, r)` along `d` all hold `m`.
    pub open spec fn line_from(self, c: int, r: int, d: int, m: Color) -> bool {
        forall|i: int| 0 <= i < self.win_len ==> #[trigger] self.holds(step(c, r, d, i), m)
    }

    /// The board after the player to move drops a piece in column `c`,
    /// before the turn is settled.
    pub open spec fn placed(self, c: int) -> GameView {
        let r = self.heights[c] as int;
        GameView {
            cols: self.cols,
            rows: self.rows,
            win_len: self.win_len,
            cells: self.cells.update(c, self.cells[c].update(r, self.turn)),
            heights: self.heights.update(c, (r + 1) as nat),
            turn: self.turn,
        }
    }

    /// What dropping a piece in column `c` reports: the mover wins when a
    /// line runs through the new piece, a full board without one is a draw
    /// (`Some(Color::Empty)`), else the game goes on (`None`).
    pub open spec fn outcome(self, c: int) -> Option<Color> {
        let p = self.placed(c);
        if p.wins_at(c, self.heights[c] as int, self.turn) {
            Some(self.turn)
        } else if p.all_full() {
            Some(Color::Empty)
        } else {
            None
        }
    }

    /// The board after a move in column `c`: the turn passes to the
    /// opponent, or the game is over.
    pub open spec fn apply(self, c: int) -> GameView {
        let p = self.placed(c);
        GameView {
            cols: p.cols,
            rows: p.rows,
            win_len: p.win_len,
            cells: p.cells,
            heights: p.heights,
            turn: if self.outcome(c) is None {
                self.turn.spec_opponent()
            } else {
                Color::Empty
            },
        }
    }

    /// The board after the top piece of column `c` is taken back: its owner
    /// is to move again.
    pub open spec fn undo(self, c: int) -> GameView {
        let r = self.heights[c] - 1;
        GameView {
            cols: self.cols,
            rows: self.rows,
            win_len: self.win_len,
            cells: self.cells.update(c, self.cells[c].update(r, Color::Empty)),
            heights: self.heights.update(c, r as nat),
            turn: self.cells[c][r],
        }
    }

    /// A move in column `c` wins at once for the player to move.
    pub open spec fn wins_immediately(self, c: int) -> bool {
        self.is_legal(c) && self.outcome(c) == Some(self.turn)
    }

    pub open spec fn has_immediate_win(self) -> bool {
        exists|c: int| #[trigger] self.wins_immediately(c)
    }

    /// The player to move can force a win (`win`), or cannot avoid a loss
    /// (`!win`), within `d` moves of both players. A win: some move wins at
    /// once, or lets the game go on into a position the opponent loses
    /// within `d - 1` moves. A loss: some move is open, and every move lets
    /// the game go on into a position the opponent wins within `d - 1` moves.
    pub open spec fn forced(self, d: nat, win: bool) -> bool
        decreases d,
    {
        if d == 0 {
            false
        } else if win {
            exists|c: int|
                #![trigger self.is_legal(c)]
                self.is_legal(c) && (self.wins_immediately(c) || (self.outcome(c) is None && self.apply(c).forced(
                    (d - 1) as nat,
                    false,
                )))
        } else {
            !self.all_full() && forall|c: int|
                #[trigger] self.is_legal(c) ==> self.outcome(c) is None && self.apply(c).forced((d - 1) as nat, true)
        }
    }

    pub open spec fn forced_win(self, d: nat) -> bool {
        self.forced(d, true)
    }

    pub open spec fn forced_loss(self, d: nat) -> bool {
        self.forced(d, false)
    }

    /// Some sequence of at most `d` legal moves from here ends the game with
    /// result `w` (the winner, or `Color::Empty` for a draw).
    pub open spec fn ends_within(self, w: Color, d: nat) -> bool
        decreases d,
    {
        if d == 0 {
            false
        } else {
            exists|c: int|
                #![trigger self.is_legal(c)]
                self.is_legal(c) && (self.outcome(c) == Some(w) || (self.outcome(c) is None && self.apply(c).ends_within(
                    w,
                    (d - 1) as nat,
                )))
        }
    }

    /// Some sequence of legal moves from here ends the game with result `w`.
    pub open spec fn can_end_with(self, w: Color) -> bool {
        exists|d: nat| #[trigger] self.ends_within(w, d)
    }

    /// Column `c` forces a win within `d` moves: it wins at once, or the
    /// opponent is then lost within `d - 1` moves.
    pub open spec fn winning_move(self, c: int, d: nat) -> bool {
        &&& d >= 1
        &&& self.is_legal(c)
        &&& (self.wins_immediately(c) || (self.outcome(c) is None && self.apply(c).forced_loss((d - 1) as nat)))
    }

    /// The empty board of the given dimensions, first player to move.
    pub open spec fn empty(cols: nat, rows: nat, win_len: nat) -> GameView {
        GameView {
            cols,
            rows,
            win_len,
            cells: Seq::new(cols, |c: int| Seq::new(rows, |r: int| Color::Empty)),
            heights: Seq::new(cols, |c: int| 0nat),
            turn: Color::Blue,
        }
    }
}

/// A board in play. Pieces are only ever added by `drop_piece` and removed
/// by `take_piece`.
#[derive(Clone)]
pub struct Game {
    cols: usize,
    rows: usize,
    win_len: usize,
    board: Vec<Vec<Color>>,
    next_row: Vec<usize>,
    turn: Color,
}

impl Default for Game {
    /// The standard board.
    fn default() -> (g: Game)
        ensures
            g.wf(),
            g@ == GameView::empty(NCOLS as nat, NROWS as nat, NWIN as nat),
    {
        Game::new()
    }
}

impl View for Game {
    type V = GameView;

    closed spec fn view(&self) -> GameView {
        GameView {
            cols: self.cols as nat,
            rows: self.rows as nat,
            win_len: self.win_len as nat,
            cells: self.board@.map_values(|v: Vec<Color>| v@),
            heights: self.next_row@.map_values(|h: usize| h as nat),
            turn: self.turn,
        }
    }
}

impl Game {
    pub open spec fn wf(&self) -> bool {
        self@.valid()
    }

    /// The dimensions are machine sizes.
    pub proof fn lemma_dims(&self)
        ensures
            self@.cols <= usize::MAX,
            self@.rows <= usize::MAX,
            self@.win_len <= usize::MAX,
    {
    }

    /// The fields agree with the view.
    proof fn lemma_fields(&self)
        requires
            self.wf(),
        ensures
            self.board@.len() == self@.cols,
            self.next_row@.len() == self@.heights.len(),
            forall|c: int| 0 <= c < self.board@.len() ==> #[trigger] self.board@[c]@ == self@.cells[c],
            forall|c: int| 0 <= c < self.next_row@.len() ==> #[trigger] self.next_row@[c] == self@.heights[c],
    {
    }

    /// The standard board: 7 columns, 6 rows, four in a row wins.
    pub fn new() -> (g: Game)
        ensures
            g.wf(),
            g@ == GameView::empty(NCOLS as nat, NROWS as nat, NWIN as nat),
    {
        Game::with_dimensions(NCOLS, NROWS, NWIN)
    }

    /// An empty board of `cols` columns and `rows` rows on which `win_len`
    /// pieces in a line win; `Blue` moves first.
    pub fn with_dimensions(cols: usize, rows: usize, win_len: usize) -> (g: Game)
        requires
            cols >= 1,
            rows >= 1,
            win_len >= 1,
        ensures
            g.wf(),
            g@ == GameView::empty(cols as nat, rows as nat, win_len as nat),
    {
        let mut board: Vec<Vec<Color>> = Vec::new();
        let mut next_row: Vec<usize> = Vec::new();
        let mut c: usize = 0;
        while c < cols
            invariant
                c <= cols,
                board@.len() == c,
                next_row@.len() == c,
                forall|k: int| 0 <= k < c ==> #[trigger] board@[k]@ == Seq::new(rows as nat, |r: int| Color::Empty),
                forall|k: int| 0 <= k < c ==> #[trigger] next_row@[k] == 0,
            decreases cols - c,
        {
            let mut column: Vec<Color> = Vec::new();
            let mut r: usize = 0;
            while r < rows
                invariant
                    r <= rows,
                    column@ == Seq::new(r as nat, |k: int| Color::Empty),
                decreases rows - r,
            {
                column.push(Color::Empty);
                r += 1;
                assert(column@ =~= Seq::new(r as nat, |k: int| Color::Empty));
            }
            board.push(column);
            next_row.push(0);
            c += 1;
        }
        let g = Game { cols, rows, win_len, board, next_row, turn: Color::Blue };
        assert(g@.cells =~= GameView::empty(cols as nat, rows as nat, win_len as nat).cells);
        assert(g@.heights =~= GameView::empty(cols as nat, rows as nat, win_len as nat).heights);
        g
    }

    pub fn columns(&self) -> (r: usize)
        ensures
            r == self@.cols,
    {
        self.cols
    }

    pub fn rows(&self) -> (r: usize)
        ensures
            r == self@.rows,
    {
        self.rows
    }

    pub fn win_length(&self) -> (r: usize)
        ensures
            r == self@.win_len,
    {
        self.win_len
    }

    /// The piece at column `col`, row `row` (row 0 is the bottom).
    pub fn get(&self, col: usize, row: usize) -> (r: Color)
        requires
            self.wf(),
            col < self@.cols,
            row < self@.rows,
        ensures
            r == self@.cell(col as int, row as int),
    {
        self.board[col][row]
    }

    pub fn is_full(&self, col: usize) -> (r: bool)
        requires
            self.wf(),
            col < self@.cols,
        ensures
            r == self@.is_full(col as int),
    {
        self.next_row[col] >= self.rows
    }

    /// Whose turn it is; `Color::Empty` once the game is over.
    pub fn turn(&self) -> (r: Color)
        ensures
            r == self@.turn,
    {
        self.turn
    }
}


/// The coordinate `x` moved `i` steps of `delta`, if it stays below `bound`.
fn shift(x: usize, delta: i8, i: usize, bound: usize) -> (r: Option<usize>)
    requires
        x < bound,
        -1 <= delta <= 1,
    ensures
        match r {
            Some(y) => y == moved(x as int, delta as int, i as int) && y < bound,
            None => !(0 <= moved(x as int, delta as int, i as int) < bound),
        },
{
    if delta == 0 {
        Some(x)
    } else if delta > 0 {
        if i < bound - x {
            Some(x + i)
        } else {
            None
        }
    } else if i <= x {
        Some(x - i)
    } else {
        None
    }
}

/// `i` forward, or `-i` backward.
pub open spec fn signed(forward: bool, i: int) -> int {
    if forward {
        i
    } else {
        -i
    }
}

/// Backward steps along a direction are forward steps against it.
proof fn lemma_moved_back(x: int, delta: int, i: int)
    requires
        -1 <= delta <= 1,
    ensures
        moved(x, delta, -i) == moved(x, -delta, i),
{
}

impl Game {
    /// The cell `i` steps from `(col, row)` along direction `d`, forward or
    /// backward, if it is on the board.
    fn neighbor(&self, col: usize, row: usize, d: usize, i: usize, forward: bool) -> (r: Option<(usize, usize)>)
        requires
            self.wf(),
            col < self@.cols,
            row < self@.rows,
            d < 4,
        ensures
            ({
                let p = step(col as int, row as int, d as int, signed(forward, i as int));
                match r {
                    Some(q) => self@.in_bounds(p.0, p.1) && q.0 == p.0 && q.1 == p.1,
                    None => !self@.in_bounds(p.0, p.1),
                }
            }),
    {
        let dc: i8 = if d == 0 { 0 } else { 1 };
        let dr: i8 = if d == 0 { 1 } else if d == 1 { 0 } else if d == 2 { -1 } else { 1 };
        let (dc, dr) = if forward { (dc, dr) } else { (-dc, -dr) };
        proof {
            lemma_moved_back(col as int, dir_col(d as int), i as int);
            lemma_moved_back(row as int, dir_row(d as int), i as int);
        }
        match shift(col, dc, i, self.cols) {
            None => None,
            Some(c) => match shift(row, dr, i, self.rows) {
                None => None,
                Some(r) => Some((c, r)),
            },
        }
    }

    /// How many cells of color `m` follow `(col, row)` along direction `d`
    /// without a gap, counting at most `win_len - 1`.
    fn run_length(&self, col: usize, row: usize, d: usize, forward: bool, m: Color) -> (n: usize)
        requires
            self.wf(),
            col < self@.cols,
            row < self@.rows,
            d < 4,
        ensures
            n < self@.win_len,
            forall|i: int|
                1 <= i <= n ==> #[trigger] self@.holds(
                    step(col as int, row as int, d as int, signed(forward, i)),
                    m,
                ),
            n + 1 < self@.win_len ==> !self@.holds(
                step(col as int, row as int, d as int, signed(forward, n + 1)),
                m,
            ),
    {
        let mut n: usize = 0;
        while n + 1 < self.win_len
            invariant
                self.wf(),
                col < self@.cols,
                row < self@.rows,
                d < 4,
                n < self@.win_len,
                forall|i: int|
                    1 <= i <= n ==> #[trigger] self@.holds(
                        step(col as int, row as int, d as int, signed(forward, i)),
                        m,
                    ),
            decreases self.win_len - n,
        {
            match self.neighbor(col, row, d, n + 1, forward) {
                None => {
                    return n;
                },
                Some((c, r)) => {
                    proof {
                        self.lemma_fields();
                        assert(self.board@[c as int]@ == self@.cells[c as int]);
                    }
                    if self.board[c][r] != m {
                        return n;
                    }
                },
            }
            n += 1;
        }
        n
    }
}

/// A line through a cell exists exactly when the runs of its color on
/// either side of it, with the cell itself, reach the winning length.
proof fn lemma_runs_make_line(v: GameView, c: int, r: int, d: int, m: Color, back: int, fwd: int)
    requires
        v.holds(step(c, r, d, 0), m),
        0 <= back < v.win_len,
        0 <= fwd < v.win_len,
        forall|i: int| 1 <= i <= back ==> #[trigger] v.holds(step(c, r, d, -i), m),
        forall|i: int| 1 <= i <= fwd ==> #[trigger] v.holds(step(c, r, d, i), m),
        back + 1 < v.win_len ==> !v.holds(step(c, r, d, -(back + 1)), m),
        fwd + 1 < v.win_len ==> !v.holds(step(c, r, d, fwd + 1), m),
    ensures
        v.line_through(c, r, d, m) <==> back + fwd + 1 >= v.win_len,
{
    if back + fwd + 1 >= v.win_len {
        let s = -back;
        assert forall|i: int| s <= i < s + v.win_len implies #[trigger] v.holds(step(c, r, d, i), m) by {
            if i < 0 {
                assert(v.holds(step(c, r, d, -(-i)), m));
            }
        }
        assert(v.window(c, r, d, s, m));
    }
    if v.line_through(c, r, d, m) {
        let s = choose|s: int| -(v.win_len as int) < s <= 0 && #[trigger] v.window(c, r, d, s, m);
        if back + fwd + 1 < v.win_len {
            if back < -s {
                assert(v.holds(step(c, r, d, -(back + 1)), m));
            }
            if fwd < s + v.win_len - 1 {
                assert(v.holds(step(c, r, d, fwd + 1), m));
            }
            assert(false);
        }
    }
}


/// Dropping a piece in a legal column keeps the board valid.
proof fn lemma_apply_valid(v: GameView, c: int)
    requires
        v.valid(),
        v.is_legal(c),
        v.turn != Color::Empty,
    ensures
        v.placed(c).valid(),
        v.apply(c).valid(),
{
    let p = v.placed(c);
    assert forall|k: int| 0 <= k < p.cols implies #[trigger] p.cells[k].len() == p.rows && p.heights[k] <= p.rows by {
        if k == c {
        } else {
            assert(p.cells[k] == v.cells[k]);
        }
    }
    assert forall|k: int, r: int| p.in_bounds(k, r) implies (p.cells[k][r] != Color::Empty <==> r < p.heights[k]) by {
        if k == c {
            assert(v.cells[k][r] != Color::Empty <==> r < v.heights[k]);
        } else {
            assert(p.cells[k] == v.cells[k]);
            assert(v.cells[k][r] != Color::Empty <==> r < v.heights[k]);
        }
    }
}

/// Taking back the top piece of a column keeps the board valid.
proof fn lemma_undo_valid(v: GameView, c: int)
    requires
        v.valid(),
        0 <= c < v.cols,
        v.heights[c] > 0,
    ensures
        v.undo(c).valid(),
        v.undo(c).turn != Color::Empty,
{
    let u = v.undo(c);
    let r0 = v.heights[c] - 1;
    assert(v.cells[c].len() == v.rows);
    assert(v.heights[c] <= v.rows);
    assert(v.cells[c][r0] != Color::Empty <==> r0 < v.heights[c]);
    assert forall|k: int| 0 <= k < u.cols implies #[trigger] u.cells[k].len() == u.rows && u.heights[k] <= u.rows by {
        if k == c {
        } else {
            assert(u.cells[k] == v.cells[k]);
        }
    }
    assert forall|k: int, r: int| u.in_bounds(k, r) implies (u.cells[k][r] != Color::Empty <==> r < u.heights[k]) by {
        if k == c {
            assert(v.cells[k][r] != Color::Empty <==> r < v.heights[k]);
        } else {
            assert(u.cells[k] == v.cells[k]);
            assert(v.cells[k][r] != Color::Empty <==> r < v.heights[k]);
        }
    }
}

impl Game {
    /// Whether every column is full.
    fn all_full(&self) -> (r: bool)
        requires
            self.wf(),
        ensures
            r == self@.all_full(),
    {
        let mut c: usize = 0;
        while c < self.cols
            invariant
                self.wf(),
                c <= self@.cols,
                forall|k: int| 0 <= k < c ==> #[trigger] self@.is_full(k),
            decreases self.cols - c,
        {
            if !self.is_full(c) {
                return false;
            }
            c += 1;
        }
        true
    }

    /// The result of the move that just filled `(col, row)`: the winner when
    /// a line runs through that cell, `Some(Color::Empty)` for a full board
    /// without one, else `None`. Only the four lines through the cell are
    /// walked.
    fn winner(&self, col: usize, row: usize) -> (r: Option<Color>)
        requires
            self.wf(),
            col < self@.cols,
            row < self@.rows,
        ensures
            r == (if self@.wins_at(col as int, row as int, self@.cell(col as int, row as int)) {
                Some(self@.cell(col as int, row as int))
            } else if self@.all_full() {
                Some(Color::Empty)
            } else {
                None
            }),
    {
        proof {
            self.lemma_fields();
        }
        let cell = self.board[col][row];
        let ghost v = self@;
        let mut d: usize = 0;
        while d < 4
            invariant
                self.wf(),
                v == self@,
                col < v.cols,
                row < v.rows,
                cell == v.cell(col as int, row as int),
                d <= 4,
                forall|e: int| 0 <= e < d ==> !#[trigger] v.line_through(col as int, row as int, e, cell),
            decreases 4 - d,
        {
            let back = self.run_length(col, row, d, false, cell);
            let fwd = self.run_length(col, row, d, true, cell);
            proof {
                assert(step(col as int, row as int, d as int, 0) == (col as int, row as int));
                assert forall|i: int| 1 <= i <= back implies #[trigger] v.holds(step(col as int, row as int, d as int, -i), cell) by {
                    assert(v.holds(step(col as int, row as int, d as int, signed(false, i)), cell));
                }
                assert(back + 1 < v.win_len ==> !v.holds(step(col as int, row as int, d as int, signed(false, back + 1)), cell));
                assert forall|i: int| 1 <= i <= fwd implies #[trigger] v.holds(step(col as int, row as int, d as int, i), cell) by {
                    assert(v.holds(step(col as int, row as int, d as int, signed(true, i)), cell));
                }
                assert(fwd + 1 < v.win_len ==> !v.holds(step(col as int, row as int, d as int, signed(true, fwd + 1)), cell));
                lemma_runs_make_line(v, col as int, row as int, d as int, cell, back as int, fwd as int);
            }
            if back >= self.win_len - 1 - fwd {
                return Some(cell);
            }
            d += 1;
        }
        if self.all_full() {
            Some(Color::Empty)
        } else {
            None
        }
    }

    /// Drops a piece of the player to move into column `col`. A full column
    /// is refused with `Err(())` and the board is left as it was. Otherwise
    /// the result is `Ok(Some(player))` when the move completes a line,
    /// `Ok(Some(Color::Empty))` when it fills the board without one (a draw),
    /// and `Ok(None)` when the game goes on with the other player to move.
    /// After a win or a draw no one is to move. A piece can only be dropped
    /// while someone is to move; a full column is refused even after the
    /// game is over.
    pub fn drop_piece(&mut self, col: usize) -> (r: Result<Option<Color>, ()>)
        requires
            old(self).wf(),
            col < old(self)@.cols,
            old(self)@.turn != Color::Empty || old(self)@.is_full(col as int),
        ensures
            final(self).wf(),
            old(self)@.is_full(col as int) ==> r == Err::<Option<Color>, ()>(()) && final(self)@ == old(self)@,
            !old(self)@.is_full(col as int) ==> r == Ok::<Option<Color>, ()>(old(self)@.outcome(col as int))
                && final(self)@ == old(self)@.apply(col as int),
    {
        let ghost g0 = self@;
        proof {
            self.lemma_fields();
        }
        let row = self.next_row[col];
        if row < self.rows {
            let mover = self.turn;
            self.board[col][row] = mover;
            self.next_row[col] = row + 1;
            proof {
                let p = g0.placed(col as int);
                assert(self@.cells[col as int] =~= p.cells[col as int]);
                assert(self@.cells =~= p.cells);
                assert(self@.heights =~= p.heights);
                lemma_apply_valid(g0, col as int);
            }
            let result = self.winner(col, row);
            self.turn = if result.is_none() {
                mover.opponent()
            } else {
                Color::Empty
            };
            proof {
                lemma_apply_valid(g0, col as int);
                assert(self@.cells =~= g0.apply(col as int).cells);
                assert(self@.heights =~= g0.apply(col as int).heights);
            }
            Ok(result)
        } else {
            Err(())
        }
    }

    /// Takes back the top piece of column `col`; its owner is to move again.
    /// Only a move that was made on this board, undone in reverse order,
    /// may be taken back.
    pub fn take_piece(&mut self, col: usize)
        requires
            old(self).wf(),
            col < old(self)@.cols,
            old(self)@.heights[col as int] > 0,
        ensures
            final(self).wf(),
            final(self)@ == old(self)@.undo(col as int),
            final(self)@.turn != Color::Empty,
    {
        let ghost g0 = self@;
        proof {
            self.lemma_fields();
            lemma_undo_valid(g0, col as int);
        }
        let row = self.next_row[col] - 1;
        self.turn = self.board[col][row];
        self.next_row[col] = row;
        self.board[col][row] = Color::Empty;
        proof {
            let u = g0.undo(col as int);
            assert(self@.cells[col as int] =~= u.cells[col as int]);
            assert(self@.cells =~= u.cells);
            assert(self@.heights =~= u.heights);
        }
    }
}


/// Steps along a direction add up.
proof fn lemma_step_add(c: int, r: int, d: int, a: int, b: int)
    ensures
        step(step(c, r, d, a).0, step(c, r, d, a).1, d, b) == step(c, r, d, a + b),
{
}

/// A line through a cell is a line on the board.
proof fn lemma_line_through_is_line(v: GameView, c: int, r: int, m: Color)
    requires
        v.wins_at(c, r, m),
    ensures
        v.has_line(m),
{
    let d = choose|d: int| 0 <= d < 4 && #[trigger] v.line_through(c, r, d, m);
    let s = choose|s: int| -(v.win_len as int) < s <= 0 && #[trigger] v.window(c, r, d, s, m);
    let start = step(c, r, d, s);
    assert forall|i: int| 0 <= i < v.win_len implies #[trigger] v.holds(step(start.0, start.1, d, i), m) by {
        lemma_step_add(c, r, d, s, i);
        assert(v.holds(step(c, r, d, s + i), m));
    }
    assert(v.line_from(start.0, start.1, d, m));
}

/// Taking back a piece right after dropping it restores the board exactly:
/// cells, fill levels and turn.
pub proof fn law_take_undoes_drop(v: GameView, c: int)
    requires
        v.valid(),
        v.is_legal(c),
        v.turn != Color::Empty,
    ensures
        v.apply(c).undo(c) == v,
{
    let a = v.apply(c);
    let u = a.undo(c);
    let h = v.heights[c] as int;
    assert(v.cells[c].len() == v.rows);
    assert(v.cells[c][h] != Color::Empty <==> h < v.heights[c]);
    assert(u.cells[c] =~= v.cells[c]);
    assert(u.cells =~= v.cells);
    assert(u.heights =~= v.heights);
}

/// On a board where the player to move has no line yet, a move is reported
/// as that player's win exactly when the board after it holds a line of
/// their color anywhere: never before the line is complete, and never
/// later than the move that completes it.
pub proof fn law_win_reported_exactly(v: GameView, c: int)
    requires
        v.valid(),
        v.is_legal(c),
        v.turn != Color::Empty,
        !v.has_line(v.turn),
    ensures
        (v.outcome(c) == Some(v.turn)) <==> v.apply(c).has_line(v.turn),
{
    let m = v.turn;
    let p = v.placed(c);
    let a = v.apply(c);
    let h = v.heights[c] as int;
    lemma_apply_valid(v, c);
    assert(a.cells == p.cells);
    if p.wins_at(c, h, m) {
        lemma_line_through_is_line(p, c, h, m);
        let (c0, r0, d) = choose|c0: int, r0: int, d: int| 0 <= d < 4 && #[trigger] p.line_from(c0, r0, d, m);
        assert forall|i: int| 0 <= i < a.win_len implies #[trigger] a.holds(step(c0, r0, d, i), m) by {
            assert(p.holds(step(c0, r0, d, i), m));
        }
        assert(a.line_from(c0, r0, d, m));
    }
    if a.has_line(m) {
        let (c0, r0, d) = choose|c0: int, r0: int, d: int| 0 <= d < 4 && #[trigger] a.line_from(c0, r0, d, m);
        if exists|i: int| 0 <= i < v.win_len && step(c0, r0, d, i) == (c, h) {
            let i0 = choose|i: int| 0 <= i < v.win_len && step(c0, r0, d, i) == (c, h);
            assert forall|j: int| -i0 <= j < -i0 + v.win_len implies #[trigger] p.holds(step(c, h, d, j), m) by {
                lemma_step_add(c0, r0, d, i0, j);
                assert(a.holds(step(c0, r0, d, i0 + j), m));
            }
            assert(p.window(c, h, d, -i0, m));
            assert(p.line_through(c, h, d, m));
        } else {
            assert forall|i: int| 0 <= i < v.win_len implies #[trigger] v.holds(step(c0, r0, d, i), m) by {
                let q = step(c0, r0, d, i);
                assert(a.holds(q, m));
                if q.0 == c {
                    assert(p.cells[c][q.1] == v.cells[c][q.1]);
                } else {
                    assert(p.cells[q.0] == v.cells[q.0]);
                }
            }
            assert(v.line_from(c0, r0, d, m));
        }
    }
}

/// A move that fills the board without completing a line is a draw.
pub proof fn law_full_board_is_draw(v: GameView, c: int)
    requires
        v.valid(),
        v.is_legal(c),
        v.turn != Color::Empty,
        v.apply(c).all_full(),
        !v.apply(c).has_line(v.turn),
    ensures
        v.outcome(c) == Some(Color::Empty),
{
    let p = v.placed(c);
    assert(p.cells == v.apply(c).cells);
    assert(p.heights == v.apply(c).heights);
    if p.wins_at(c, v.heights[c] as int, v.turn) {
        lemma_line_through_is_line(p, c, v.heights[c] as int, v.turn);
        let (c0, r0, d) = choose|c0: int, r0: int, d: int| 0 <= d < 4 && #[trigger] p.line_from(c0, r0, d, v.turn);
        assert forall|i: int| 0 <= i < v.win_len implies #[trigger] v.apply(c).holds(step(c0, r0, d, i), v.turn) by {
            assert(p.holds(step(c0, r0, d, i), v.turn));
        }
        assert(v.apply(c).line_from(c0, r0, d, v.turn));
    }
    assert forall|k: int| 0 <= k < p.cols implies #[trigger] p.is_full(k) by {
        assert(v.apply(c).is_full(k));
    }
}


/// The number of empty cells left in columns of the given fill levels.
pub open spec fn free_cells(heights: Seq<nat>, rows: nat) -> nat
    decreases heights.len(),
{
    if heights.len() == 0 {
        0
    } else {
        free_cells(heights.drop_last(), rows) + (rows - heights.last()) as nat
    }
}

/// Filling one more cell of a column leaves one empty cell less.
pub proof fn lemma_free_cells_step(heights: Seq<nat>, rows: nat, c: int)
    requires
        0 <= c < heights.len(),
        heights[c] < rows,
        forall|k: int| 0 <= k < heights.len() ==> #[trigger] heights[k] <= rows,
    ensures
        free_cells(heights.update(c, (heights[c] + 1) as nat), rows) + 1 == free_cells(heights, rows),
    decreases heights.len(),
{
    let h2 = heights.update(c, (heights[c] + 1) as nat);
    if c == heights.len() - 1 {
        assert(h2.drop_last() =~= heights.drop_last());
    } else {
        assert(h2.drop_last() =~= heights.drop_last().update(c, (heights[c] + 1) as nat));
        lemma_free_cells_step(heights.drop_last(), rows, c);
    }
}

impl Game {
    /// A copy of this board, for play that must not touch it.
    pub fn snapshot(&self) -> (g: Game)
        requires
            self.wf(),
        ensures
            g.wf(),
            g@ == self@,
    {
        proof {
            self.lemma_fields();
        }
        let mut board: Vec<Vec<Color>> = Vec::new();
        let mut next_row: Vec<usize> = Vec::new();
        let mut c: usize = 0;
        while c < self.cols
            invariant
                self.wf(),
                c <= self@.cols,
                board@.len() == c,
                next_row@.len() == c,
                forall|k: int| 0 <= k < c ==> #[trigger] board@[k]@ == self@.cells[k],
                forall|k: int| 0 <= k < c ==> #[trigger] next_row@[k] == self@.heights[k],
            decreases self.cols - c,
        {
            proof {
                self.lemma_fields();
            }
            let column = &self.board[c];
            let mut copy: Vec<Color> = Vec::new();
            let mut r: usize = 0;
            while r < column.len()
                invariant
                    r <= column@.len(),
                    copy@ == column@.subrange(0, r as int),
                decreases column@.len() - r,
            {
                copy.push(column[r]);
                r += 1;
                assert(copy@ =~= column@.subrange(0, r as int));
            }
            assert(copy@ =~= column@);
            board.push(copy);
            next_row.push(self.next_row[c]);
            c += 1;
        }
        let g = Game {
            cols: self.cols,
            rows: self.rows,
            win_len: self.win_len,
            board,
            next_row,
            turn: self.turn,
        };
        assert(g@.cells =~= self@.cells);
        assert(g@.heights =~= self@.heights);
        g
    }

    /// The columns that still take a piece, in increasing order.
    pub fn legal_columns(&self) -> (r: Vec<usize>)
        requires
            self.wf(),
        ensures
            forall|i: int| 0 <= i < r@.len() ==> #[trigger] self@.is_legal(r@[i] as int),
            forall|i: int, j: int| 0 <= i < j < r@.len() ==> r@[i] < r@[j],
            forall|c: int| #[trigger] self@.is_legal(c) ==> r@.contains(c as usize),
    {
        let mut r: Vec<usize> = Vec::new();
        let mut c: usize = 0;
        while c < self.cols
            invariant
                self.wf(),
                c <= self@.cols,
                forall|i: int| 0 <= i < r@.len() ==> self@.is_legal(#[trigger] r@[i] as int),
                forall|i: int| 0 <= i < r@.len() ==> #[trigger] r@[i] < c,
                forall|i: int, j: int| 0 <= i < j < r@.len() ==> r@[i] < r@[j],
                forall|k: int| 0 <= k < c && #[trigger] self@.is_legal(k) ==> r@.contains(k as usize),
            decreases self.cols - c,
        {
            let ghost r0 = r@;
            if !self.is_full(c) {
                r.push(c);
                proof {
                    assert(r@[r@.len() - 1] == c);
                    assert forall|i: int| 0 <= i < r0.len() implies r@[i] == r0[i] by {}
                    assert forall|k: int| 0 <= k < c && #[trigger] self@.is_legal(k) implies r@.contains(k as usize) by {
                        assert(r0.contains(k as usize));
                        let i = choose|i: int| 0 <= i < r0.len() && r0[i] == k as usize;
                        assert(r@[i] == k as usize);
                    }
                }
            }
            c += 1;
        }
        r
    }
}


/// After a move that neither wins nor draws, the game goes on: the other
/// player is to move and some column is still open.
pub proof fn lemma_game_goes_on(v: GameView, c: int)
    requires
        v.valid(),
        v.is_legal(c),
        v.turn != Color::Empty,
        v.outcome(c) is None,
    ensures
        v.apply(c).valid(),
        v.apply(c).turn == v.turn.spec_opponent(),
        v.apply(c).turn != Color::Empty,
        !v.apply(c).all_full(),
{
    lemma_apply_valid(v, c);
    let p = v.placed(c);
    let k = choose|k: int| 0 <= k < p.cols && !#[trigger] p.is_full(k);
    assert(!v.apply(c).is_full(k));
}


impl Game {
    /// Whether both boards have the same dimensions, pieces and turn.
    pub fn same_position(&self, other: &Game) -> (r: bool)
        requires
            self.wf(),
            other.wf(),
        ensures
            r == (self@ == other@),
    {
        proof {
            self.lemma_fields();
            other.lemma_fields();
        }
        if self.cols != other.cols || self.rows != other.rows || self.win_len != other.win_len
            || self.turn != other.turn {
            return false;
        }
        let mut c: usize = 0;
        while c < self.cols
            invariant
                self.wf(),
                other.wf(),
                self@.cols == other@.cols,
                self@.rows == other@.rows,
                c <= self@.cols,
                forall|k: int| 0 <= k < c ==> #[trigger] self@.cells[k] == other@.cells[k],
                forall|k: int| 0 <= k < c ==> #[trigger] self@.heights[k] == other@.heights[k],
            decreases self.cols - c,
        {
            proof {
                self.lemma_fields();
                other.lemma_fields();
            }
            if self.next_row[c] != other.next_row[c] {
                return false;
            }
            let mut r: usize = 0;
            while r < self.rows
                invariant
                    self.wf(),
                    other.wf(),
                    self@.cols == other@.cols,
                    self@.rows == other@.rows,
                    c < self@.cols,
                    r <= self@.rows,
                    forall|k: int| 0 <= k < r ==> #[trigger] self@.cells[c as int][k] == other@.cells[c as int][k],
                decreases self.rows - r,
            {
                proof {
                    self.lemma_fields();
                    other.lemma_fields();
                }
                if self.board[c][r] != other.board[c][r] {
                    return false;
                }
                r += 1;
            }
            assert(self@.cells[c as int] =~= other@.cells[c as int]);
            c += 1;
        }
        assert(self@.cells =~= other@.cells);
        assert(self@.heights =~= other@.heights);
        true
    }
}


/// A move that ends the game leaves no one to move, and the board shows why:
/// a line of the winner's color, or no open column for a draw.
pub proof fn lemma_game_over(v: GameView, c: int)
    requires
        v.valid(),
        v.is_legal(c),
        v.turn != Color::Empty,
        v.outcome(c) is Some,
    ensures
        v.apply(c).valid(),
        v.apply(c).turn == Color::Empty,
        v.outcome(c) == Some(v.turn) ==> v.apply(c).has_line(v.turn),
        v.outcome(c) != Some(v.turn) ==> v.outcome(c) == Some(Color::Empty) && v.apply(c).all_full(),
{
    lemma_apply_valid(v, c);
    let p = v.placed(c);
    let a = v.apply(c);
    assert(a.cells == p.cells);
    if p.wins_at(c, v.heights[c] as int, v.turn) {
        lemma_line_through_is_line(p, c, v.heights[c] as int, v.turn);
        let (c0, r0, d) = choose|c0: int, r0: int, d: int| 0 <= d < 4 && #[trigger] p.line_from(c0, r0, d, v.turn);
        assert forall|i: int| 0 <= i < v.win_len implies #[trigger] a.holds(step(c0, r0, d, i), v.turn) by {
            assert(p.holds(step(c0, r0, d, i), v.turn));
        }
        assert(a.line_from(c0, r0, d, v.turn));
    } else {
        assert forall|k: int| 0 <= k < a.cols implies #[trigger] a.is_full(k) by {
            assert(p.is_full(k));
        }
    }
}

/// The empty board has an open column.
pub proof fn lemma_empty_has_room(cols: nat, rows: nat, win_len: nat)
    requires
        cols >= 1,
        rows >= 1,
    ensures
        !GameView::empty(cols, rows, win_len).all_full(),
{
    assert(!GameView::empty(cols, rows, win_len).is_full(0));
}


/// A game that can end one way after a move can end that way before it.
pub proof fn lemma_ends_after_move(v: GameView, c: int, w: Color, d: nat)
    requires
        v.is_legal(c),
        v.outcome(c) is None,
        v.apply(c).ends_within(w, d),
    ensures
        v.ends_within(w, d + 1),
{
    assert(v.is_legal(c));
}

/// A move that ends the game ends it within one move.
pub proof fn lemma_ends_now(v: GameView, c: int)
    requires
        v.is_legal(c),
        v.outcome(c) is Some,
    ensures
        v.ends_within(v.outcome(c)->Some_0, 1),
{
    assert(v.is_legal(c));
}


/// A board with an open column has an empty cell.
pub proof fn lemma_free_cells_positive(heights: Seq<nat>, rows: nat, c: int)
    requires
        0 <= c < heights.len(),
        heights[c] < rows,
    ensures
        free_cells(heights, rows) >= 1,
    decreases heights.len(),
{
    if c < heights.len() - 1 {
        lemma_free_cells_positive(heights.drop_last(), rows, c);
    }
}

} // verus!
