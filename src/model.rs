use vstd::prelude::*;

use crate::grid::cell_index;
use crate::Piece;

verus! {

/// The mathematical state of a game: the cells row by row (row 0 on top),
/// the next free row of each column, the side to move and the winner.
/// Threats are not stored here: they are a function of the cells.
pub struct BoardState {
    pub width: nat,
    pub height: nat,
    pub cells: Seq<Piece>,
    pub drop_zones: Seq<nat>,
    pub next_move: Piece,
    pub winner: Option<Piece>,
}

/// Column step of line direction `k`: diagonal, horizontal, anti-diagonal, vertical.
pub open spec fn dir_dx(k: int) -> int {
    if k == 3 { 0 } else { -1 }
}

/// Row step of line direction `k`.
pub open spec fn dir_dy(k: int) -> int {
    if k == 0 { -1 } else if k == 1 { 0 } else { 1 }
}

/// `v` moved `j` steps along a unit step `d` (one of -1, 0, 1).
pub open spec fn shift(v: int, j: int, d: int) -> int {
    if d < 0 { v - j } else if d > 0 { v + j } else { v }
}

/// The largest exponent of two used as a threat weight.
pub const MAX_WEIGHT_EXP: u32 = 30;

pub open spec fn pow2(e: nat) -> int
    decreases e,
{
    if e == 0 { 1 } else { 2 * pow2((e - 1) as nat) }
}

/// Whether the cells of a window, given in order, are all `c` but the one at `gap`.
pub open spec fn others_are(w: Seq<Piece>, gap: int, c: Piece) -> bool {
    &&& (gap == 0 || w[0] == c)
    &&& (gap == 1 || w[1] == c)
    &&& (gap == 2 || w[2] == c)
    &&& (gap == 3 || w[3] == c)
}

impl BoardState {
    pub open spec fn in_bounds(self, x: int, y: int) -> bool {
        0 <= x < self.width && 0 <= y < self.height
    }

    pub open spec fn cell(self, x: int, y: int) -> Piece {
        self.cells[cell_index(self.width as int, x, y)]
    }

    /// Column of the cell `j` steps from `(x, _)` along direction `k`.
    pub open spec fn px(self, x: int, k: int, j: int) -> int {
        shift(x, j, dir_dx(k))
    }

    /// Row of the cell `j` steps from `(_, y)` along direction `k`.
    pub open spec fn py(self, y: int, k: int, j: int) -> int {
        shift(y, j, dir_dy(k))
    }

    /// The four cells starting at `(qx, qy)` along direction `k` lie on the board.
    pub open spec fn window_fits(self, qx: int, qy: int, k: int) -> bool {
        &&& 0 <= k < 4
        &&& self.in_bounds(qx, qy)
        &&& self.in_bounds(self.px(qx, k, 3), self.py(qy, k, 3))
    }

    /// The pieces of the four-cell window starting at `(qx, qy)` along direction `k`.
    pub open spec fn window(self, qx: int, qy: int, k: int) -> Seq<Piece> {
        seq![
            self.cell(qx, qy),
            self.cell(self.px(qx, k, 1), self.py(qy, k, 1)),
            self.cell(self.px(qx, k, 2), self.py(qy, k, 2)),
            self.cell(self.px(qx, k, 3), self.py(qy, k, 3)),
        ]
    }

    /// The window along direction `k` that holds `(gx, gy)` at place `j0`
    /// lies on the board and holds `c` in its other three cells.
    pub open spec fn threat_via(self, gx: int, gy: int, c: Piece, k: int, j0: int) -> bool {
        let qx = self.px(gx, k, -j0);
        let qy = self.py(gy, k, -j0);
        &&& 0 <= j0 < 4
        &&& self.window_fits(qx, qy, k)
        &&& others_are(self.window(qx, qy, k), j0, c)
    }

    /// `(gx, gy)` is an empty cell that completes four in a row for colour `c`.
    pub open spec fn is_threat(self, gx: int, gy: int, c: Piece) -> bool {
        &&& c.is_color()
        &&& self.in_bounds(gx, gy)
        &&& self.cell(gx, gy) == Piece::Empty
        &&& exists|k: int, j0: int| #[trigger] self.threat_via(gx, gy, c, k, j0)
    }

    /// The four-cell window along direction `k` that holds `(x, y)` at place
    /// `j1` lies on the board, is empty at place `j0` and holds `c` elsewhere.
    /// Its empty cell is `(px(x, k, j0 - j1), py(y, k, j0 - j1))`.
    pub open spec fn threat_through(self, x: int, y: int, c: Piece, k: int, j1: int, j0: int) -> bool {
        let qx = self.px(x, k, -j1);
        let qy = self.py(y, k, -j1);
        &&& 0 <= j1 < 4
        &&& 0 <= j0 < 4
        &&& self.window_fits(qx, qy, k)
        &&& self.window(qx, qy, k)[j0] == Piece::Empty
        &&& others_are(self.window(qx, qy, k), j0, c)
    }

    /// The same state with `p` written at `(x, y)`.
    pub open spec fn place(self, x: int, y: int, p: Piece) -> BoardState {
        BoardState { cells: self.cells.update(cell_index(self.width as int, x, y), p), ..self }
    }

    pub open spec fn wf(self) -> bool {
        &&& self.cells.len() == self.width * self.height
        &&& self.drop_zones.len() == self.width
        &&& forall|x: int| 0 <= x < self.width ==> #[trigger] self.drop_zones[x] <= self.height
        &&& forall|x: int, y: int|
            self.in_bounds(x, y) ==> (#[trigger] self.cell(x, y) == Piece::Empty <==> y
                < self.drop_zones[x])
        &&& self.next_move.is_color()
        &&& (self.winner matches Some(p) ==> p.is_color())
    }

    pub open spec fn column_full(self, x: int) -> bool {
        self.drop_zones[x] == 0
    }

    /// No move is possible: every column is full.
    pub open spec fn is_full(self) -> bool {
        forall|x: int| 0 <= x < self.width ==> #[trigger] self.column_full(x)
    }

    pub open spec fn game_over(self) -> bool {
        self.winner.is_some() || self.is_full()
    }

    /// The state after the side to move drops a piece into column `x`,
    /// which must not be full.
    pub open spec fn drop(self, x: int) -> BoardState {
        let y = self.drop_zones[x] - 1;
        let p = self.next_move;
        BoardState {
            cells: self.cells.update(cell_index(self.width as int, x, y), p),
            drop_zones: self.drop_zones.update(x, y as nat),
            next_move: p.spec_opponent(),
            winner: if self.winner.is_some() {
                self.winner
            } else if self.is_threat(x, y, p) {
                Some(p)
            } else {
                None
            },
            ..self
        }
    }

    /// The successor states for the columns `x..width` that are not full, in column order.
    pub open spec fn moves_from(self, x: int) -> Seq<BoardState>
        decreases self.width - x,
    {
        if x < 0 || x >= self.width {
            seq![]
        } else if self.column_full(x) {
            self.moves_from(x + 1)
        } else {
            seq![self.drop(x)].add(self.moves_from(x + 1))
        }
    }

    /// The first column from `x` on that is not full, or `width` if none is.
    pub open spec fn next_open(self, x: int) -> int
        decreases self.width - x,
    {
        if x < 0 || x >= self.width {
            self.width as int
        } else if self.column_full(x) {
            self.next_open(x + 1)
        } else {
            x
        }
    }

    pub open spec fn moves(self) -> Seq<BoardState> {
        self.moves_from(0)
    }

    /// Weight of a threat in row `y`: nothing on the bottom row, else a
    /// power of two that grows with the row index, capped.
    pub open spec fn threat_weight(self, y: int) -> int {
        if y == self.height - 1 {
            0
        } else if y >= MAX_WEIGHT_EXP {
            pow2(MAX_WEIGHT_EXP as nat)
        } else {
            pow2(y as nat)
        }
    }

    /// Contribution of one cell: its weight for a red threat, minus it for a yellow one.
    pub open spec fn cell_value(self, x: int, y: int) -> int {
        (if self.is_threat(x, y, Piece::Red) { self.threat_weight(y) } else { 0 }) - (
        if self.is_threat(x, y, Piece::Yellow) {
            self.threat_weight(y)
        } else {
            0
        })
    }

    /// Sum of the cell values of row `y` over the columns `0..x`.
    pub open spec fn row_value(self, y: int, x: int) -> int
        decreases x,
    {
        if x <= 0 {
            0
        } else {
            self.row_value(y, x - 1) + self.cell_value(x - 1, y)
        }
    }

    /// Sum of the cell values of the rows `0..y`.
    pub open spec fn rows_value(self, y: int) -> int
        decreases y,
    {
        if y <= 0 {
            0
        } else {
            self.rows_value(y - 1) + self.row_value(y - 1, self.width as int)
        }
    }

    /// The threat heuristic, kept strictly inside the range of `i32`.
    pub open spec fn heuristic(self) -> i32 {
        let h = self.rows_value(self.height as int);
        if h < i32::MIN + 1 {
            (i32::MIN + 1) as i32
        } else if h > i32::MAX - 1 {
            (i32::MAX - 1) as i32
        } else {
            h as i32
        }
    }

    /// Red maximises, Yellow minimises; a won game scores the extreme of its winner.
    pub open spec fn score(self) -> i32 {
        match self.winner {
            Some(Piece::Red) => i32::MAX,
            Some(Piece::Yellow) => i32::MIN,
            _ => self.heuristic(),
        }
    }
}

/// Filling a cell that is a threat of the side to move makes that side the
/// winner, if nobody has won yet; a drop never makes the other side win.
pub proof fn lemma_threat_completion_wins(s: BoardState, x: int)
    requires
        s.wf(),
        0 <= x < s.width,
        !s.column_full(x),
    ensures
        s.winner is None && s.is_threat(x, s.drop_zones[x] - 1, s.next_move) ==> s.drop(x).winner
            == Some(s.next_move),
        s.winner is None ==> s.drop(x).winner != Some(s.next_move.spec_opponent()),
        s.winner is Some ==> s.drop(x).winner == s.winner,
{
}

/// The score is the largest `i32` exactly when Red has won, the smallest
/// exactly when Yellow has won, and strictly between them otherwise.
pub proof fn lemma_score_extremes(s: BoardState)
    requires
        s.wf(),
    ensures
        s.score() == i32::MAX <==> s.winner == Some(Piece::Red),
        s.score() == i32::MIN <==> s.winner == Some(Piece::Yellow),
        s.winner is None ==> i32::MIN < s.score() < i32::MAX,
{
}

} // verus!
