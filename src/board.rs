use vstd::prelude::*;

use crate::grid::{Grid, cell_index, lemma_cell_index_bounds};
use crate::model::{BoardState, MAX_WEIGHT_EXP, dir_dx, dir_dy, pow2, shift};
use crate::tally::{positions_of, Position, Tallies, lemma_positions_drop_first, lemma_positions_push, lemma_window_tally, lemma_window_tally_sound};
use crate::threats::{lemma_cell_index_injective, lemma_place_cell, lemma_same_cells, lemma_threat_local, lemma_threat_persists};
use crate::search::Search;
use crate::Piece;

verus! {

/// A game in progress: the cells, the next free row of each column, the
/// cells where each side threatens to complete four in a row, the side to
/// move and the winner once there is one.
pub struct Board {
    grid: Grid<Piece>,
    drop_zones: Vec<usize>,
    red_threats: Grid<bool>,
    yellow_threats: Grid<bool>,
    winner: Option<Piece>,
    next_move: Piece,
}

impl View for Board {
    type V = BoardState;

    closed spec fn view(&self) -> BoardState {
        BoardState {
            width: self.grid.spec_width(),
            height: self.grid.spec_height(),
            cells: self.grid@,
            drop_zones: self.drop_zones@.map_values(|v: usize| v as nat),
            next_move: self.next_move,
            winner: self.winner,
        }
    }
}

/// `v` moved `j` steps along the unit step `d`, when that stays in `0..limit`.
fn step(v: usize, j: i64, d: i64, limit: usize) -> (r: Option<usize>)
    requires
        -3 <= j <= 3,
        -1 <= d <= 1,
    ensures
        (r is Some) <==> 0 <= shift(v as int, j as int, d as int) < limit,
        r matches Some(u) ==> u == shift(v as int, j as int, d as int),
{
    let s: i64 = if d < 0 {
        -j
    } else if d > 0 {
        j
    } else {
        0
    };
    if s >= 0 {
        let su = s as usize;
        if v < limit && su < limit - v {
            Some(v + su)
        } else {
            None
        }
    } else {
        let su = (-s) as usize;
        if su <= v && v - su < limit {
            Some(v - su)
        } else {
            None
        }
    }
}

/// Column and row step of line direction `k`.
fn direction(k: usize) -> (r: (i64, i64))
    requires
        k < 4,
    ensures
        r.0 == dir_dx(k as int),
        r.1 == dir_dy(k as int),
{
    if k == 0 {
        (-1, -1)
    } else if k == 1 {
        (-1, 0)
    } else if k == 2 {
        (-1, 1)
    } else {
        (0, 1)
    }
}

/// `poses` lists the cells `lo, lo + 1, ...` steps from `(x, y)` along
/// direction `k`, with what they hold.
pub open spec fn line_cells(s: BoardState, x: int, y: int, k: int, lo: int, poses: Seq<(Position, Piece)>) -> bool {
    forall|m: int|
        0 <= m < poses.len() ==> {
            let e = #[trigger] poses[m];
            &&& e.0.0 == s.px(x, k, lo + m)
            &&& e.0.1 == s.py(y, k, lo + m)
            &&& s.in_bounds(e.0.0 as int, e.0.1 as int)
            &&& e.1 == s.cell(e.0.0 as int, e.0.1 as int)
        }
}

/// The four listed cells that end at place `i` are the board's window that
/// starts `lo + i - 3` steps from `(x, y)`.
pub proof fn lemma_line_window(s: BoardState, x: int, y: int, k: int, lo: int, poses: Seq<(Position, Piece)>, i: int)
    requires
        0 <= k < 4,
        line_cells(s, x, y, k, lo, poses),
        3 <= i < poses.len(),
    ensures
        s.window_fits(s.px(x, k, lo + i - 3), s.py(y, k, lo + i - 3), k),
        ({
            let ws = poses.subrange(i - 3, i + 1);
            seq![ws[0].1, ws[1].1, ws[2].1, ws[3].1] == s.window(
                s.px(x, k, lo + i - 3),
                s.py(y, k, lo + i - 3),
                k,
            )
        }),
        forall|j: int|
            0 <= j < 4 ==> (#[trigger] poses.subrange(i - 3, i + 1)[j]).0.0 == s.px(
                x,
                k,
                lo + i - 3 + j,
            ) && poses.subrange(i - 3, i + 1)[j].0.1 == s.py(y, k, lo + i - 3 + j),
{
    let ws = poses.subrange(i - 3, i + 1);
    let e0 = poses[i - 3];
    let e1 = poses[i - 2];
    let e2 = poses[i - 1];
    let e3 = poses[i];
    let qx = s.px(x, k, lo + i - 3);
    let qy = s.py(y, k, lo + i - 3);
    assert(s.px(qx, k, 1) == s.px(x, k, lo + i - 2));
    assert(s.py(qy, k, 1) == s.py(y, k, lo + i - 2));
    assert(s.px(qx, k, 2) == s.px(x, k, lo + i - 1));
    assert(s.py(qy, k, 2) == s.py(y, k, lo + i - 1));
    assert(s.px(qx, k, 3) == s.px(x, k, lo + i));
    assert(s.py(qy, k, 3) == s.py(y, k, lo + i));
    assert(seq![ws[0].1, ws[1].1, ws[2].1, ws[3].1] =~= s.window(qx, qy, k));
}

/// What the tallies of the window of four listed cells that ends at place
/// `i` show: each threat they report is one, and each threat of a window
/// through `(x, y)` that starts there is reported.
pub proof fn lemma_window_report(s: BoardState, x: int, y: int, k: int, lo: int, poses: Seq<(Position, Piece)>, i: int)
    requires
        0 <= k < 4,
        -3 <= lo <= 0,
        line_cells(s, x, y, k, lo, poses),
        3 <= i < poses.len(),
        s.cells.len() == s.width * s.height,
    ensures
        ({
            let ws = poses.subrange(i - 3, i + 1);
            let gap = positions_of(ws, Piece::Empty)[0];
            forall|c: Piece|
                c.is_color() && positions_of(ws, Piece::Empty).len() == 1 && #[trigger] positions_of(ws, c).len() == 3
                    ==> s.is_threat(gap.0 as int, gap.1 as int, c)
        }),
        ({
            let ws = poses.subrange(i - 3, i + 1);
            let j1 = 3 - lo - i;
            forall|c: Piece, j0: int|
                c.is_color() && #[trigger] s.threat_through(x, y, c, k, j1, j0) ==> {
                    &&& positions_of(ws, Piece::Empty).len() == 1
                    &&& positions_of(ws, c).len() == 3
                    &&& positions_of(ws, Piece::Empty)[0].0 == s.px(x, k, j0 - j1)
                    &&& positions_of(ws, Piece::Empty)[0].1 == s.py(y, k, j0 - j1)
                }
        }),
{
    let ws = poses.subrange(i - 3, i + 1);
    let gap = positions_of(ws, Piece::Empty)[0];
    lemma_line_window(s, x, y, k, lo, poses, i);
    let qx = s.px(x, k, lo + i - 3);
    let qy = s.py(y, k, lo + i - 3);
    assert forall|c: Piece|
        c.is_color() && positions_of(ws, Piece::Empty).len() == 1 && #[trigger] positions_of(ws, c).len() == 3
            implies s.is_threat(gap.0 as int, gap.1 as int, c) by {
        let j0 = lemma_window_tally_sound(ws, c);
        assert(s.px(gap.0 as int, k, -j0) == qx);
        assert(s.py(gap.1 as int, k, -j0) == qy);
        assert(s.threat_via(gap.0 as int, gap.1 as int, c, k, j0));
        assert(ws[j0] == poses[i - 3 + j0]);
    }
    let j1 = 3 - lo - i;
    assert forall|c: Piece, j0: int|
        c.is_color() && #[trigger] s.threat_through(x, y, c, k, j1, j0) implies {
            &&& positions_of(ws, Piece::Empty).len() == 1
            &&& positions_of(ws, c).len() == 3
            &&& positions_of(ws, Piece::Empty)[0].0 == s.px(x, k, j0 - j1)
            &&& positions_of(ws, Piece::Empty)[0].1 == s.py(y, k, j0 - j1)
        } by {
        assert(s.px(x, k, -j1) == qx);
        assert(s.py(y, k, -j1) == qy);
        assert(ws[j0].1 == s.window(qx, qy, k)[j0]);
        lemma_window_tally(ws, c, j0);
    }
}

/// Adds cell `i` of `poses` to the tallies, and drops the cell that leaves
/// the window of four.
fn push_cell(tallies: &mut Tallies, poses: &Vec<(Position, Piece)>, i: usize)
    requires
        i < poses@.len(),
        old(tallies).counts(poses@.subrange(if i >= 4 { i - 4 } else { 0 }, i as int)),
    ensures
        final(tallies).counts(poses@.subrange(if i >= 3 { i - 3 } else { 0 }, i + 1)),
{
    let ghost before = poses@.subrange(if i >= 4 { i - 4 } else { 0 }, i as int);
    let (pos, piece) = poses[i];
    tallies.get(&piece).push(pos);
    proof {
        assert(poses@.subrange(if i >= 4 { i - 4 } else { 0 }, i + 1) =~= before.push(poses@[i as int]));
        lemma_positions_push(before, poses@[i as int], Piece::Red);
        lemma_positions_push(before, poses@[i as int], Piece::Yellow);
        lemma_positions_push(before, poses@[i as int], Piece::Empty);
    }
    if i >= 4 {
        let (early_pos, early_piece) = poses[i - 4];
        let ghost five = poses@.subrange(i - 4, i + 1);
        proof {
            lemma_positions_drop_first(five, Piece::Red);
            lemma_positions_drop_first(five, Piece::Yellow);
            lemma_positions_drop_first(five, Piece::Empty);
            assert(five.subrange(1, 5) =~= poses@.subrange(i - 3, i + 1));
        }
        tallies.get(&early_piece).remove(0);
    }
}

/// The largest threat weight.
pub open spec fn weight_cap() -> int {
    1073741824
}

pub proof fn lemma_pow2_mono(a: nat, b: nat)
    requires
        a <= b,
    ensures
        1 <= pow2(a) <= pow2(b),
    decreases b,
{
    if b > a {
        lemma_pow2_mono(a, (b - 1) as nat);
    } else {
        lemma_pow2_pos(a);
    }
}

pub proof fn lemma_pow2_pos(e: nat)
    ensures
        pow2(e) >= 1,
    decreases e,
{
    if e > 0 {
        lemma_pow2_pos((e - 1) as nat);
    }
}

pub proof fn lemma_pow2_cap(e: nat)
    requires
        e <= MAX_WEIGHT_EXP,
    ensures
        1 <= pow2(e) <= weight_cap(),
{
    lemma_pow2_mono(e, 30);
    reveal_with_fuel(pow2, 31);
}

/// `2` to the power `e`, for `e` at most the cap.
fn power_of_two(e: u32) -> (r: i128)
    requires
        e <= MAX_WEIGHT_EXP,
    ensures
        r == pow2(e as nat),
{
    let mut r: i128 = 1;
    let mut i: u32 = 0;
    while i < e
        invariant
            i <= e <= MAX_WEIGHT_EXP,
            r == pow2(i as nat),
        decreases e - i,
    {
        proof {
            lemma_pow2_cap((i + 1) as nat);
        }
        r = r * 2;
        i = i + 1;
    }
    r
}

impl Board {
    /// Flags the threats that the tallies of a full window report: its
    /// single empty cell, for a colour that fills the other three.
    fn mark_reported(
        &mut self,
        tallies: &Tallies,
        Ghost(x): Ghost<int>,
        Ghost(y): Ghost<int>,
        Ghost(k): Ghost<int>,
        Ghost(lo): Ghost<int>,
        poses: &Vec<(Position, Piece)>,
        i: usize,
    )
        requires
            old(self).shape_ok(),
            0 <= k < 4,
            -3 <= lo <= 0,
            line_cells(old(self)@, x, y, k, lo, poses@),
            3 <= i < poses@.len(),
            tallies.counts(poses@.subrange(i - 3, i + 1)),
        ensures
            final(self).shape_ok(),
            final(self)@ == old(self)@,
            forall|a: int, b: int, c: Piece|
                old(self)@.in_bounds(a, b) && #[trigger] final(self).threat_flag(a, b, c) ==> old(
                    self,
                ).threat_flag(a, b, c) || old(self)@.is_threat(a, b, c),
            forall|a: int, b: int, c: Piece|
                old(self)@.in_bounds(a, b) && #[trigger] old(self).threat_flag(a, b, c)
                    ==> final(self).threat_flag(a, b, c),
            forall|c: Piece, j0: int|
                c.is_color() && #[trigger] old(self)@.threat_through(x, y, c, k, 3 - lo - i, j0)
                    ==> final(self).threat_flag(
                    old(self)@.px(x, k, j0 - (3 - lo - i)),
                    old(self)@.py(y, k, j0 - (3 - lo - i)),
                    c,
                ),
    {
        proof {
            lemma_window_report(self@, x, y, k, lo, poses@, i as int);
        }
        if tallies.empty.len() == 1 {
            let gap = tallies.empty[0];
            proof {
                let ws = poses@.subrange(i - 3, i + 1);
                assert(positions_of(ws, Piece::Red) == tallies.red@);
                assert(positions_of(ws, Piece::Yellow) == tallies.yellow@);
            }
            if tallies.red.len() == 3 {
                assert(self@.is_threat(gap.0 as int, gap.1 as int, Piece::Red));
                self.mark_threat(gap.0, gap.1, Piece::Red);
            }
            if tallies.yellow.len() == 3 {
                assert(self@.is_threat(gap.0 as int, gap.1 as int, Piece::Yellow));
                self.mark_threat(gap.0, gap.1, Piece::Yellow);
            }
        }
    }

    /// The threat flag kept for colour `c` at `(x, y)`.
    pub closed spec fn threat_flag(&self, x: int, y: int, c: Piece) -> bool {
        match c {
            Piece::Red => self.red_threats.at(x, y),
            Piece::Yellow => self.yellow_threats.at(x, y),
            Piece::Empty => false,
        }
    }

    /// The three grids are well formed and of one size.
    pub closed spec fn shape_ok(&self) -> bool {
        &&& self.grid.wf()
        &&& self.red_threats.wf()
        &&& self.yellow_threats.wf()
        &&& self.red_threats.spec_width() == self.grid.spec_width()
        &&& self.red_threats.spec_height() == self.grid.spec_height()
        &&& self.yellow_threats.spec_width() == self.grid.spec_width()
        &&& self.yellow_threats.spec_height() == self.grid.spec_height()
    }

    /// The flags hold exactly the threats of the cells.
    pub closed spec fn threats_exact(&self) -> bool {
        &&& self.shape_ok()
        &&& forall|x: int, y: int, c: Piece|
            self@.in_bounds(x, y) ==> (#[trigger] self.threat_flag(x, y, c) <==> self@.is_threat(
                x,
                y,
                c,
            ))
    }

    pub closed spec fn wf(&self) -> bool {
        &&& self.threats_exact()
        &&& self@.wf()
    }

    /// An empty `width` by `height` board; Yellow moves first.
    pub fn new_with_size(width: usize, height: usize) -> (r: Board)
        requires
            width * height <= usize::MAX,
        ensures
            r.wf(),
            r@ == (BoardState {
                width: width as nat,
                height: height as nat,
                cells: Seq::new((width * height) as nat, |i: int| Piece::Empty),
                drop_zones: Seq::new(width as nat, |i: int| height as nat),
                next_move: Piece::Yellow,
                winner: None,
            }),
    {
        let grid = Grid::new(width, height, Piece::Empty);
        let red_threats = Grid::new(width, height, false);
        let yellow_threats = Grid::new(width, height, false);
        let mut drop_zones: Vec<usize> = Vec::new();
        let mut i: usize = 0;
        while i < width
            invariant
                i <= width,
                drop_zones@ == Seq::new(i as nat, |k: int| height),
            decreases width - i,
        {
            drop_zones.push(height);
            i = i + 1;
            assert(drop_zones@ =~= Seq::new(i as nat, |k: int| height));
        }
        let r = Board { grid, drop_zones, red_threats, yellow_threats, winner: None, next_move: Piece::Yellow };
        proof {
            assert(r@.drop_zones =~= Seq::new(width as nat, |i: int| height as nat));
            assert forall|x: int, y: int| r@.in_bounds(x, y) implies #[trigger] r@.cell(x, y)
                == Piece::Empty by {
                lemma_cell_index_bounds(width as int, height as int, x, y);
            }
            assert forall|x: int, y: int, c: Piece| r@.in_bounds(x, y) implies (
            #[trigger] r.threat_flag(x, y, c) <==> r@.is_threat(x, y, c)) by {
                lemma_cell_index_bounds(width as int, height as int, x, y);
                if r@.is_threat(x, y, c) {
                    let (k, j0) = choose|k: int, j0: int| #[trigger] r@.threat_via(x, y, c, k, j0);
                    let qx = r@.px(x, k, -j0);
                    let qy = r@.py(y, k, -j0);
                    lemma_cell_index_bounds(width as int, height as int, qx, qy);
                    lemma_cell_index_bounds(
                        width as int,
                        height as int,
                        r@.px(qx, k, 3),
                        r@.py(qy, k, 3),
                    );
                    assert(r@.window(qx, qy, k)[0] == Piece::Empty);
                    assert(r@.window(qx, qy, k)[3] == Piece::Empty);
                }
            }
        }
        r
    }

    /// An empty board of seven columns and six rows.
    pub fn new() -> (r: Board)
        ensures
            r.wf(),
            r@.width == 7,
            r@.height == 6,
            r@.cells == Seq::new(42, |i: int| Piece::Empty),
            r@.drop_zones == Seq::new(7, |i: int| 6nat),
            r@.next_move == Piece::Yellow,
            r@.winner == None::<Piece>,
    {
        Board::new_with_size(7, 6)
    }

    pub fn width(&self) -> (r: usize)
        ensures
            r == self@.width,
    {
        self.grid.width()
    }

    pub fn height(&self) -> (r: usize)
        ensures
            r == self@.height,
    {
        self.grid.height()
    }

    pub fn winner(&self) -> (r: Option<Piece>)
        ensures
            r == self@.winner,
    {
        self.winner
    }

    pub fn next_move(&self) -> (r: Piece)
        ensures
            r == self@.next_move,
    {
        self.next_move
    }

    /// The next free row of column `x`; 0 when the column is full.
    pub fn drop_zone(&self, x: usize) -> (r: usize)
        requires
            self.wf(),
            x < self@.width,
        ensures
            r == self@.drop_zones[x as int],
    {
        self.drop_zones[x]
    }

    /// The piece at `(x, y)`.
    pub fn cell(&self, x: usize, y: usize) -> (r: Piece)
        requires
            self.wf(),
            x < self@.width,
            y < self@.height,
        ensures
            r == self@.cell(x as int, y as int),
    {
        *self.grid.get(x, y)
    }

    /// Whether `(x, y)` is an empty cell that completes four in a row for `c`.
    pub fn has_threat(&self, x: usize, y: usize, c: Piece) -> (r: bool)
        requires
            self.wf(),
            x < self@.width,
            y < self@.height,
        ensures
            r == self@.is_threat(x as int, y as int, c),
    {
        assert(self.threat_flag(x as int, y as int, c) <==> self@.is_threat(x as int, y as int, c));
        match c {
            Piece::Red => *self.red_threats.get(x, y),
            Piece::Yellow => *self.yellow_threats.get(x, y),
            Piece::Empty => false,
        }
    }

    /// Flags `(x, y)` as a threat of colour `c`.
    fn mark_threat(&mut self, x: usize, y: usize, c: Piece)
        requires
            old(self).shape_ok(),
            x < old(self)@.width,
            y < old(self)@.height,
        ensures
            final(self).shape_ok(),
            final(self)@ == old(self)@,
            forall|a: int, b: int, d: Piece|
                old(self)@.in_bounds(a, b) ==> #[trigger] final(self).threat_flag(a, b, d) == (
                old(self).threat_flag(a, b, d) || (a == x && b == y && d == c && c.is_color())),
    {
        let ghost w = self@.width as int;
        let ghost h = self@.height as int;
        match c {
            Piece::Red => {
                *self.red_threats.get_mut(x, y) = true;
            },
            Piece::Yellow => {
                *self.yellow_threats.get_mut(x, y) = true;
            },
            Piece::Empty => {},
        }
        proof {
            assert forall|a: int, b: int, d: Piece| old(self)@.in_bounds(a, b) implies #[trigger] self.threat_flag(a, b, d) == (
            old(self).threat_flag(a, b, d) || (a == x && b == y && d == c && c.is_color())) by {
                lemma_cell_index_bounds(w, h, a, b);
                lemma_cell_index_bounds(w, h, x as int, y as int);
                if cell_index(w, a, b) == cell_index(w, x as int, y as int) {
                    lemma_cell_index_injective(w, a, b, x as int, y as int);
                }
            }
        }
    }

    /// Clears both threat flags of `(x, y)`.
    fn clear_threats(&mut self, x: usize, y: usize)
        requires
            old(self).shape_ok(),
            x < old(self)@.width,
            y < old(self)@.height,
        ensures
            final(self).shape_ok(),
            final(self)@ == old(self)@,
            forall|a: int, b: int, d: Piece|
                old(self)@.in_bounds(a, b) ==> #[trigger] final(self).threat_flag(a, b, d) == (
                old(self).threat_flag(a, b, d) && !(a == x && b == y)),
    {
        let ghost w = self@.width as int;
        let ghost h = self@.height as int;
        *self.red_threats.get_mut(x, y) = false;
        *self.yellow_threats.get_mut(x, y) = false;
        proof {
            assert forall|a: int, b: int, d: Piece| old(self)@.in_bounds(a, b) implies #[trigger] self.threat_flag(a, b, d) == (
            old(self).threat_flag(a, b, d) && !(a == x && b == y)) by {
                lemma_cell_index_bounds(w, h, a, b);
                lemma_cell_index_bounds(w, h, x as int, y as int);
                if cell_index(w, a, b) == cell_index(w, x as int, y as int) {
                    lemma_cell_index_injective(w, a, b, x as int, y as int);
                }
            }
        }
    }

    /// Flags every threat that a window along direction `k` through `(x, y)`
    /// shows, sliding a window of four cells along the line and counting
    /// what it holds.
    fn scan_line(&mut self, x: usize, y: usize, k: usize)
        requires
            old(self).shape_ok(),
            old(self)@.in_bounds(x as int, y as int),
            k < 4,
        ensures
            final(self).shape_ok(),
            final(self)@ == old(self)@,
            forall|a: int, b: int, c: Piece|
                old(self)@.in_bounds(a, b) && #[trigger] final(self).threat_flag(a, b, c) ==> old(
                    self,
                ).threat_flag(a, b, c) || old(self)@.is_threat(a, b, c),
            forall|a: int, b: int, c: Piece|
                old(self)@.in_bounds(a, b) && #[trigger] old(self).threat_flag(a, b, c)
                    ==> final(self).threat_flag(a, b, c),
            forall|c: Piece, j1: int, j0: int|
                c.is_color() && #[trigger] old(self)@.threat_through(
                    x as int,
                    y as int,
                    c,
                    k as int,
                    j1,
                    j0,
                ) ==> final(self).threat_flag(
                    old(self)@.px(x as int, k as int, j0 - j1),
                    old(self)@.py(y as int, k as int, j0 - j1),
                    c,
                ),
    {
        let ghost s = self@;
        let ghost xi = x as int;
        let ghost yi = y as int;
        let ghost ki = k as int;
        let mut lo: i64 = -3;
        loop
            invariant
                -3 <= lo <= 0,
                k < 4,
                xi == x,
                yi == y,
                ki == k,
                s == self@,
                s.in_bounds(xi, yi),
                forall|d: int| -3 <= d < lo ==> !s.in_bounds(s.px(xi, ki, d), s.py(yi, ki, d)),
            ensures
                -3 <= lo <= 0,
                s.in_bounds(s.px(xi, ki, lo as int), s.py(yi, ki, lo as int)),
                forall|d: int| -3 <= d < lo ==> !s.in_bounds(s.px(xi, ki, d), s.py(yi, ki, d)),
            decreases 0 - lo,
        {
            match self.line_point(x, y, k, lo) {
                Some(_) => break,
                None => {
                    assert(s.px(xi, ki, 0) == xi && s.py(yi, ki, 0) == yi);
                    lo = lo + 1;
                },
            }
        }
        let mut hi: i64 = 3;
        loop
            invariant
                0 <= hi <= 3,
                k < 4,
                xi == x,
                yi == y,
                ki == k,
                s == self@,
                s.in_bounds(xi, yi),
                forall|d: int| hi < d <= 3 ==> !s.in_bounds(s.px(xi, ki, d), s.py(yi, ki, d)),
            ensures
                0 <= hi <= 3,
                s.in_bounds(s.px(xi, ki, hi as int), s.py(yi, ki, hi as int)),
                forall|d: int| hi < d <= 3 ==> !s.in_bounds(s.px(xi, ki, d), s.py(yi, ki, d)),
            decreases hi,
        {
            match self.line_point(x, y, k, hi) {
                Some(_) => break,
                None => {
                    assert(s.px(xi, ki, 0) == xi && s.py(yi, ki, 0) == yi);
                    hi = hi - 1;
                },
            }
        }
        if hi - lo < 3 {
            proof {
                assert forall|c: Piece, j1: int, j0: int|
                    c.is_color() && #[trigger] s.threat_through(xi, yi, c, ki, j1, j0) implies false by {
                    assert(s.px(s.px(xi, ki, -j1), ki, 3) == s.px(xi, ki, 3 - j1));
                    assert(s.py(s.py(yi, ki, -j1), ki, 3) == s.py(yi, ki, 3 - j1));
                }
            }
            return;
        }
        let mut poses: Vec<(Position, Piece)> = Vec::new();
        let mut d: i64 = lo;
        while d <= hi
            invariant
                lo <= d <= hi + 1,
                -3 <= lo <= 0 <= hi <= 3,
                k < 4,
                xi == x,
                yi == y,
                ki == k,
                s == self@,
                self.shape_ok(),
                s.in_bounds(s.px(xi, ki, lo as int), s.py(yi, ki, lo as int)),
                s.in_bounds(s.px(xi, ki, hi as int), s.py(yi, ki, hi as int)),
                poses@.len() == d - lo,
                line_cells(s, xi, yi, ki, lo as int, poses@),
                s.in_bounds(xi, yi),
                s == old(self)@,
                forall|d: int| -3 <= d < lo ==> !s.in_bounds(s.px(xi, ki, d), s.py(yi, ki, d)),
                forall|d: int| hi < d <= 3 ==> !s.in_bounds(s.px(xi, ki, d), s.py(yi, ki, d)),
                forall|a: int, b: int, c: Piece| #[trigger] self.threat_flag(a, b, c) == old(self).threat_flag(a, b, c),
            decreases hi + 1 - d,
        {
            match self.line_point(x, y, k, d) {
                Some(p) => {
                    let piece = *self.grid.get(p.0, p.1);
                    poses.push((p, piece));
                },
                None => {
                    assert(s.in_bounds(s.px(xi, ki, d as int), s.py(yi, ki, d as int)));
                },
            }
            d = d + 1;
        }
        let mut tallies = Tallies { red: Vec::new(), yellow: Vec::new(), empty: Vec::new() };
        assert(poses@.subrange(0, 0) =~= Seq::<(Position, Piece)>::empty());
        let n = poses.len();
        let mut i: usize = 0;
        while i < n
            invariant
                n == poses@.len(),
                n == hi - lo + 1,
                i <= n,
                -3 <= lo <= 0 <= hi <= 3,
                k < 4,
                xi == x,
                yi == y,
                ki == k,
                s == self@,
                s == old(self)@,
                self.shape_ok(),
                s.in_bounds(xi, yi),
                forall|d: int| -3 <= d < lo ==> !s.in_bounds(s.px(xi, ki, d), s.py(yi, ki, d)),
                forall|d: int| hi < d <= 3 ==> !s.in_bounds(s.px(xi, ki, d), s.py(yi, ki, d)),
                line_cells(s, xi, yi, ki, lo as int, poses@),
                tallies.counts(poses@.subrange(if i >= 4 { i - 4 } else { 0 }, i as int)),
                forall|a: int, b: int, c: Piece|
                    s.in_bounds(a, b) && #[trigger] self.threat_flag(a, b, c) ==> old(
                        self,
                    ).threat_flag(a, b, c) || s.is_threat(a, b, c),
                forall|a: int, b: int, c: Piece|
                    s.in_bounds(a, b) && #[trigger] old(self).threat_flag(a, b, c)
                        ==> self.threat_flag(a, b, c),
                forall|c: Piece, j1: int, j0: int|
                    c.is_color() && #[trigger] s.threat_through(xi, yi, c, ki, j1, j0) && -j1 - lo
                        + 4 <= i ==> self.threat_flag(s.px(xi, ki, j0 - j1), s.py(yi, ki, j0 - j1), c),
            decreases n - i,
        {
            let ghost prev = *self;
            push_cell(&mut tallies, &poses, i);
            if i >= 3 {
                self.mark_reported(&tallies, Ghost(xi), Ghost(yi), Ghost(ki), Ghost(lo as int), &poses, i);
            }
            proof {
                assert forall|c: Piece, j1: int, j0: int|
                    c.is_color() && #[trigger] s.threat_through(xi, yi, c, ki, j1, j0) && -j1 - lo
                        + 4 <= i + 1 implies self.threat_flag(s.px(xi, ki, j0 - j1), s.py(yi, ki, j0 - j1), c) by {
                    let qx = s.px(xi, ki, -j1);
                    let qy = s.py(yi, ki, -j1);
                    assert(s.px(qx, ki, 3) == s.px(xi, ki, 3 - j1));
                    assert(s.py(qy, ki, 3) == s.py(yi, ki, 3 - j1));
                    assert(s.in_bounds(s.px(xi, ki, j0 - j1), s.py(yi, ki, j0 - j1)));
                    if -j1 - lo + 4 <= i {
                        assert(prev.threat_flag(s.px(xi, ki, j0 - j1), s.py(yi, ki, j0 - j1), c));
                    } else {
                        assert(j1 == 3 - lo - i);
                    }
                }
            }
            i = i + 1;
        }
        proof {
            assert forall|c: Piece, j1: int, j0: int|
                c.is_color() && #[trigger] s.threat_through(xi, yi, c, ki, j1, j0) implies -j1 - lo + 4 <= n by {
                assert(s.px(s.px(xi, ki, -j1), ki, 3) == s.px(xi, ki, 3 - j1));
                assert(s.py(s.py(yi, ki, -j1), ki, 3) == s.py(yi, ki, 3 - j1));
            }
        }
    }

    /// Flags every threat that a window through `(x, y)` shows, along each
    /// of the four line directions.
    fn update(&mut self, x: usize, y: usize)
        requires
            old(self).shape_ok(),
            old(self)@.in_bounds(x as int, y as int),
        ensures
            final(self).shape_ok(),
            final(self)@ == old(self)@,
            forall|a: int, b: int, c: Piece|
                old(self)@.in_bounds(a, b) && #[trigger] final(self).threat_flag(a, b, c) ==> old(
                    self,
                ).threat_flag(a, b, c) || old(self)@.is_threat(a, b, c),
            forall|a: int, b: int, c: Piece|
                old(self)@.in_bounds(a, b) && #[trigger] old(self).threat_flag(a, b, c)
                    ==> final(self).threat_flag(a, b, c),
            forall|c: Piece, k: int, j1: int, j0: int|
                c.is_color() && #[trigger] old(self)@.threat_through(x as int, y as int, c, k, j1, j0)
                    ==> final(self).threat_flag(
                    old(self)@.px(x as int, k, j0 - j1),
                    old(self)@.py(y as int, k, j0 - j1),
                    c,
                ),
    {
        let ghost s = self@;
        let mut k: usize = 0;
        while k < 4
            invariant
                k <= 4,
                s == old(self)@,
                s == self@,
                self.shape_ok(),
                s.in_bounds(x as int, y as int),
                forall|a: int, b: int, c: Piece|
                    s.in_bounds(a, b) && #[trigger] self.threat_flag(a, b, c) ==> old(
                        self,
                    ).threat_flag(a, b, c) || s.is_threat(a, b, c),
                forall|a: int, b: int, c: Piece|
                    s.in_bounds(a, b) && #[trigger] old(self).threat_flag(a, b, c)
                        ==> self.threat_flag(a, b, c),
                forall|c: Piece, k2: int, j1: int, j0: int|
                    c.is_color() && #[trigger] s.threat_through(x as int, y as int, c, k2, j1, j0)
                        && k2 < k ==> self.threat_flag(s.px(x as int, k2, j0 - j1), s.py(y as int, k2, j0 - j1), c),
            decreases 4 - k,
        {
            let ghost prev = *self;
            self.scan_line(x, y, k);
            proof {
                assert forall|c: Piece, k2: int, j1: int, j0: int|
                    c.is_color() && #[trigger] s.threat_through(x as int, y as int, c, k2, j1, j0)
                        && k2 < k + 1 implies self.threat_flag(s.px(x as int, k2, j0 - j1), s.py(y as int, k2, j0 - j1), c) by {
                    let qx = s.px(x as int, k2, -j1);
                    let qy = s.py(y as int, k2, -j1);
                    assert(s.px(qx, k2, 3) == s.px(x as int, k2, 3 - j1));
                    assert(s.py(qy, k2, 3) == s.py(y as int, k2, 3 - j1));
                    assert(s.in_bounds(s.px(x as int, k2, j0 - j1), s.py(y as int, k2, j0 - j1)));
                    if k2 < k {
                        assert(prev.threat_flag(s.px(x as int, k2, j0 - j1), s.py(y as int, k2, j0 - j1), c));
                    }
                }
            }
            k = k + 1;
        }
    }

    /// Writes `piece` into the empty cell `(x, y)`. If the cell was a threat
    /// of that colour and nobody has won yet, that colour wins. The cell is no
    /// longer a threat of either colour, and the lines through it are scanned
    /// for new threats.
    pub fn set(&mut self, x: usize, y: usize, piece: Piece)
        requires
            old(self).threats_exact(),
            old(self)@.in_bounds(x as int, y as int),
            old(self)@.cell(x as int, y as int) == Piece::Empty,
            piece.is_color(),
        ensures
            final(self).threats_exact(),
            final(self)@ == (BoardState {
                cells: old(self)@.place(x as int, y as int, piece).cells,
                winner: if old(self)@.winner.is_some() {
                    old(self)@.winner
                } else if old(self)@.is_threat(x as int, y as int, piece) {
                    Some(piece)
                } else {
                    None
                },
                ..old(self)@
            }),
    {
        let ghost s = self@;
        let completes = match piece {
            Piece::Red => *self.red_threats.get(x, y),
            Piece::Yellow => *self.yellow_threats.get(x, y),
            Piece::Empty => false,
        };
        assert(completes == s.is_threat(x as int, y as int, piece)) by {
            assert(self.threat_flag(x as int, y as int, piece) <==> s.is_threat(x as int, y as int, piece));
        }
        *self.grid.get_mut(x, y) = piece;
        assert(self@ =~= s.place(x as int, y as int, piece));
        let ghost t = self@;
        proof {
            // flags still describe the old cells
            assert forall|a: int, b: int, c: Piece| s.in_bounds(a, b) implies (#[trigger] self.threat_flag(a, b, c) <==> s.is_threat(a, b, c)) by {
                assert(old(self).threat_flag(a, b, c) <==> s.is_threat(a, b, c));
            }
        }
        let ghost before_clear = *self;
        self.clear_threats(x, y);
        let ghost before_update = *self;
        self.update(x, y);
        proof {
            assert forall|a: int, b: int, c: Piece| t.in_bounds(a, b) implies (#[trigger] self.threat_flag(a, b, c) <==> t.is_threat(a, b, c)) by {
                assert(before_clear.threat_flag(a, b, c) <==> s.is_threat(a, b, c));
                if self.threat_flag(a, b, c) {
                    if before_update.threat_flag(a, b, c) {
                        lemma_threat_persists(s, x as int, y as int, piece, a, b, c);
                    }
                }
                if t.is_threat(a, b, c) {
                    lemma_threat_local(s, x as int, y as int, piece, a, b, c);
                    if s.is_threat(a, b, c) {
                        assert(before_update.threat_flag(a, b, c));
                    }
                }
            }
        }
        let ghost u = *self;
        if completes && self.winner.is_none() {
            self.winner = Some(piece);
        }
        proof {
            lemma_same_cells(self@, t);
            lemma_same_cells(s, old(self)@);
            assert forall|a: int, b: int, c: Piece| self@.in_bounds(a, b) implies (#[trigger] self.threat_flag(a, b, c) <==> self@.is_threat(a, b, c)) by {
                assert(u.threat_flag(a, b, c) == self.threat_flag(a, b, c));
                assert(u.threat_flag(a, b, c) <==> t.is_threat(a, b, c));
            }
        }
    }

    /// Drops a piece of the side to move into column `x`. A full column is
    /// refused with `None` and the board stays as it was; otherwise the piece
    /// lands on the next free row, which is returned, and the turn passes.
    pub fn drop(&mut self, x: usize) -> (r: Option<usize>)
        requires
            old(self).wf(),
            x < old(self)@.width,
        ensures
            final(self).wf(),
            old(self)@.column_full(x as int) ==> r is None && *final(self) == *old(self),
            !old(self)@.column_full(x as int) ==> r == Some((old(self)@.drop_zones[x as int] - 1) as usize)
                && final(self)@ == old(self)@.drop(x as int),
    {
        if self.drop_zones[x] > 0 {
            let ghost s = self@;
            let drop_spot: usize = self.drop_zones[x] - 1;
            let ghost b0 = *self;
            self.drop_zones.set(x, drop_spot);
            proof {
                assert(self@.drop_zones =~= s.drop_zones.update(x as int, drop_spot as nat));
                lemma_same_cells(self@, s);
                assert forall|a: int, b: int, c: Piece| self@.in_bounds(a, b) implies (#[trigger] self.threat_flag(a, b, c) <==> self@.is_threat(a, b, c)) by {
                    assert(b0.threat_flag(a, b, c) <==> s.is_threat(a, b, c));
                }
                assert(self@.cell(x as int, drop_spot as int) == Piece::Empty);
            }
            self.set(x, drop_spot, self.next_move);
            let ghost u = *self;
            self.next_move = self.next_move.opponent();
            proof {
                lemma_same_cells(self@, u@);
                let t = s.drop(x as int);
                assert(self@ == t);
                lemma_same_cells(self@, t);
                assert forall|a: int, b: int| t.in_bounds(a, b) implies (#[trigger] t.cell(a, b)
                    == Piece::Empty <==> b < t.drop_zones[a]) by {
                    lemma_place_cell(s, x as int, drop_spot as int, s.next_move, a, b);
                    assert(s.cell(a, b) == Piece::Empty <==> b < s.drop_zones[a]);
                }
                assert forall|a: int| 0 <= a < t.width implies #[trigger] t.drop_zones[a] <= t.height by {
                    assert(s.drop_zones[a] <= s.height);
                }
                assert forall|a: int, b: int, c: Piece| self@.in_bounds(a, b) implies (#[trigger] self.threat_flag(a, b, c) <==> self@.is_threat(a, b, c)) by {
                    assert(u.threat_flag(a, b, c) <==> u@.is_threat(a, b, c));
                }
            }
            Some(drop_spot)
        } else {
            None
        }
    }

    /// Weight of a threat in row `y`.
    fn threat_weight(&self, y: usize) -> (r: i128)
        requires
            self.wf(),
            y < self@.height,
        ensures
            r == self@.threat_weight(y as int),
            0 <= r <= weight_cap(),
    {
        if y == self.grid.height() - 1 {
            0
        } else if y >= MAX_WEIGHT_EXP as usize {
            proof {
                lemma_pow2_cap(MAX_WEIGHT_EXP as nat);
            }
            power_of_two(MAX_WEIGHT_EXP)
        } else {
            proof {
                lemma_pow2_cap(y as nat);
            }
            power_of_two(y as u32)
        }
    }

    /// A copy of the board.
    pub fn copy(&self) -> (r: Board)
        ensures
            self.wf() ==> r.wf(),
            r@ == self@,
    {
        let mut drop_zones: Vec<usize> = Vec::new();
        let mut i: usize = 0;
        while i < self.drop_zones.len()
            invariant
                i <= self.drop_zones@.len(),
                drop_zones@ == self.drop_zones@.subrange(0, i as int),
            decreases self.drop_zones@.len() - i,
        {
            drop_zones.push(self.drop_zones[i]);
            i = i + 1;
            assert(drop_zones@ =~= self.drop_zones@.subrange(0, i as int));
        }
        assert(drop_zones@ =~= self.drop_zones@);
        let r = Board {
            grid: self.grid.copy(),
            drop_zones,
            red_threats: self.red_threats.copy(),
            yellow_threats: self.yellow_threats.copy(),
            winner: self.winner,
            next_move: self.next_move,
        };
        proof {
            assert(r@ =~= self@);
            assert forall|a: int, b: int, c: Piece| self.wf() && r@.in_bounds(a, b) implies (#[trigger] r.threat_flag(a, b, c) <==> r@.is_threat(a, b, c)) by {
                assert(self.threat_flag(a, b, c) <==> self@.is_threat(a, b, c));
            }
        }
        r
    }

    /// The cell `j` steps from `(x, y)` along direction `k`, if it lies on the board.
    fn line_point(&self, x: usize, y: usize, k: usize, j: i64) -> (r: Option<Position>)
        requires
            k < 4,
            -3 <= j <= 3,
        ensures
            (r is Some) <==> self@.in_bounds(
                self@.px(x as int, k as int, j as int),
                self@.py(y as int, k as int, j as int),
            ),
            r matches Some(p) ==> p.0 == self@.px(x as int, k as int, j as int) && p.1
                == self@.py(y as int, k as int, j as int),
    {
        let (dx, dy) = direction(k);
        match step(x, j, dx, self.grid.width()) {
            Some(px) => match step(y, j, dy, self.grid.height()) {
                Some(py) => Some((px, py)),
                None => None,
            },
            None => None,
        }
    }
}


impl Clone for Board {
    fn clone(&self) -> (r: Board)
        ensures
            r@ == self@,
            self.wf() ==> r.wf(),
    {
        self.copy()
    }
}

impl PartialEq for Board {
    /// Two boards are equal when they hold the same cells and the same side is to move.
    fn eq(&self, other: &Board) -> (r: bool) {
        if self.grid.width() != other.grid.width() || self.grid.height() != other.grid.height()
            || self.next_move != other.next_move {
            return false;
        }
        self.grid.same_cells(&other.grid)
    }
}

impl vstd::std_specs::cmp::PartialEqSpecImpl for Board {
    open spec fn obeys_eq_spec() -> bool {
        true
    }

    open spec fn eq_spec(&self, other: &Board) -> bool {
        &&& self@.width == other@.width
        &&& self@.height == other@.height
        &&& self@.cells == other@.cells
        &&& self@.next_move == other@.next_move
    }
}

/// Every flagged threat lies on an empty cell of the board.
pub proof fn lemma_threats_on_empty_cells(b: &Board)
    requires
        b.wf(),
    ensures
        forall|x: int, y: int, c: Piece|
            b@.in_bounds(x, y) && #[trigger] b.threat_flag(x, y, c) ==> b@.cell(x, y) == Piece::Empty,
{
    assert forall|x: int, y: int, c: Piece|
        b@.in_bounds(x, y) && #[trigger] b.threat_flag(x, y, c) implies b@.cell(x, y) == Piece::Empty by {
        assert(b.threat_flag(x, y, c) <==> b@.is_threat(x, y, c));
    }
}

/// Walks the columns of a board in order and yields, for each one that is
/// not full, the board after a drop there.
pub struct BoardMoveIterator {
    board: Board,
    move_index: usize,
}

impl BoardMoveIterator {
    pub closed spec fn board_view(&self) -> BoardState {
        self.board@
    }

    pub closed spec fn position(&self) -> int {
        self.move_index as int
    }

    pub closed spec fn valid(&self) -> bool {
        &&& self.board.wf()
        &&& self.move_index <= self.board@.width
    }

    /// Starts before the first column of `board`.
    pub fn new(board: &Board) -> (r: BoardMoveIterator)
        requires
            board.wf(),
        ensures
            r.valid(),
            r.board_view() == board@,
            r.position() == 0,
    {
        BoardMoveIterator { board: board.copy(), move_index: 0 }
    }

    /// The board after a drop into the next column that is not full, if any.
    pub fn next(&mut self) -> (r: Option<Board>)
        requires
            old(self).valid(),
        ensures
            final(self).valid(),
            final(self).board_view() == old(self).board_view(),
            ({
                let s = old(self).board_view();
                let j = s.next_open(old(self).position());
                if j < s.width {
                    &&& r matches Some(b) && b.wf() && b@ == s.drop(j)
                    &&& final(self).position() == j + 1
                } else {
                    &&& r is None
                    &&& final(self).position() == s.width
                }
            }),
    {
        let ghost s = self.board@;
        let ghost start = self.move_index as int;
        proof {
            lemma_next_open_skips(s, start, start);
        }
        while self.move_index < self.board.drop_zones.len() && self.board.drop_zones[self.move_index] == 0
            invariant
                self.board.wf(),
                self.board@ == s,
                start <= self.move_index <= s.width,
                s.next_open(start) == s.next_open(self.move_index as int),
            decreases s.width - self.move_index,
        {
            self.move_index = self.move_index + 1;
        }
        if self.move_index < self.board.drop_zones.len() {
            let mut new_board = self.board.copy();
            new_board.drop(self.move_index);
            self.move_index = self.move_index + 1;
            Some(new_board)
        } else {
            None
        }
    }
}

/// Skipping full columns does not change the next open column.
pub proof fn lemma_next_open_skips(s: BoardState, a: int, b: int)
    requires
        0 <= a <= b <= s.width,
        forall|x: int| a <= x < b ==> #[trigger] s.column_full(x),
    ensures
        s.next_open(a) == s.next_open(b),
    decreases b - a,
{
    if a < b {
        lemma_next_open_skips(s, a + 1, b);
    }
}

/// The moves from column `x` on are the drop into the next open column,
/// then the moves after it.
pub proof fn lemma_moves_from_next(s: BoardState, x: int)
    requires
        0 <= x <= s.width,
    ensures
        s.next_open(x) <= s.width,
        x <= s.next_open(x),
        s.next_open(x) < s.width ==> s.moves_from(x) == seq![s.drop(s.next_open(x))].add(
            s.moves_from(s.next_open(x) + 1),
        ),
        s.next_open(x) == s.width ==> s.moves_from(x) == Seq::<BoardState>::empty(),
    decreases s.width - x,
{
    if x < s.width && s.column_full(x) {
        lemma_moves_from_next(s, x + 1);
    }
}

impl Search for Board {
    open spec fn valid(&self) -> bool {
        self.wf()
    }

    open spec fn score_of(v: BoardState) -> i32 {
        v.score()
    }

    open spec fn game_over_of(v: BoardState) -> bool {
        v.game_over()
    }

    open spec fn moves_of(v: BoardState) -> Seq<BoardState> {
        v.moves()
    }

    /// The evaluation of the position for the search: the extreme value of
    /// the winner once there is one, else the sum over the threats of their
    /// weights, counted for Red and against Yellow, kept strictly inside the
    /// range of `i32`.
    fn score(&self) -> (r: i32)
        ensures
            r == i32::MAX <==> self@.winner == Some(Piece::Red),
            r == i32::MIN <==> self@.winner == Some(Piece::Yellow),
    {
        match self.winner {
            Some(Piece::Red) => {
                return i32::MAX;
            },
            Some(Piece::Yellow) => {
                return i32::MIN;
            },
            _ => {},
        }
        let w = self.grid.width();
        let h = self.grid.height();
        let ghost m = weight_cap();
        proof {
            assert(w * h <= usize::MAX);
        }
        let mut total: i128 = 0;
        let mut y: usize = 0;
        while y < h
            invariant
                self.wf(),
                w == self@.width,
                h == self@.height,
                w * h <= usize::MAX,
                m == weight_cap(),
                y <= h,
                total == self@.rows_value(y as int),
                -(y * w) * m <= total <= (y * w) * m,
            decreases h - y,
        {
            let weight = self.threat_weight(y);
            let mut row: i128 = 0;
            let mut x: usize = 0;
            proof {
                assert((y + 1) * w <= w * h) by (nonlinear_arith)
                    requires
                        y < h,
                ;
            }
            while x < w
                invariant
                    self.wf(),
                    w == self@.width,
                    h == self@.height,
                    y < h,
                    m == weight_cap(),
                    w * h <= usize::MAX,
                    x <= w,
                    weight == self@.threat_weight(y as int),
                    0 <= weight <= m,
                    row == self@.row_value(y as int, x as int),
                    -x * m <= row <= x * m,
                decreases w - x,
            {
                let red = self.has_threat(x, y, Piece::Red);
                let yellow = self.has_threat(x, y, Piece::Yellow);
                proof {
                    assert((x + 1) * m == x * m + m) by (nonlinear_arith);
                    assert(x * m <= usize::MAX * m) by (nonlinear_arith)
                        requires
                            x <= usize::MAX,
                            m > 0,
                    ;
                }
                let mut v: i128 = 0;
                if red {
                    v = v + weight;
                }
                if yellow {
                    v = v - weight;
                }
                row = row + v;
                x = x + 1;
            }
            proof {
                assert((y + 1) * w * m == y * w * m + w * m) by (nonlinear_arith);
                assert((y + 1) * w * m <= usize::MAX * m) by (nonlinear_arith)
                    requires
                        (y + 1) * w <= usize::MAX,
                        m > 0,
                ;
            }
            total = total + row;
            y = y + 1;
        }
        let lo: i128 = (i32::MIN + 1) as i128;
        let hi: i128 = (i32::MAX - 1) as i128;
        if total < lo {
            (i32::MIN + 1) as i32
        } else if total > hi {
            (i32::MAX - 1) as i32
        } else {
            total as i32
        }
    }

    /// The game is over once someone has won or every column is full.
    fn game_over(&self) -> (r: bool)
    {
        if self.winner.is_some() {
            return true;
        }
        let mut x: usize = 0;
        while x < self.drop_zones.len()
            invariant
                self.wf(),
                self.winner.is_none(),
                x <= self.drop_zones@.len(),
                forall|c: int| 0 <= c < x ==> #[trigger] self@.column_full(c),
            decreases self.drop_zones@.len() - x,
        {
            if self.drop_zones[x] != 0 {
                assert(!self@.column_full(x as int));
                return false;
            }
            x = x + 1;
        }
        true
    }

    /// The boards after a drop into each column that is not full, in column order.
    fn moves(&self) -> (r: Vec<Board>) {
        let mut it = BoardMoveIterator::new(self);
        let mut r: Vec<Board> = Vec::new();
        let ghost s = self@;
        loop
            invariant
                it.valid(),
                it.board_view() == s,
                s.wf(),
                s.moves() == r@.map_values(|b: Board| b@).add(s.moves_from(it.position())),
                forall|i: int| 0 <= i < r@.len() ==> #[trigger] r@[i].wf(),
            ensures
                s.moves() == r@.map_values(|b: Board| b@),
                forall|i: int| 0 <= i < r@.len() ==> #[trigger] r@[i].wf(),
            decreases s.width - it.position(),
        {
            let ghost pos = it.position();
            proof {
                lemma_moves_from_next(s, pos);
            }
            match it.next() {
                Some(b) => {
                    let ghost old_r = r@;
                    r.push(b);
                    proof {
                        assert(r@.map_values(|b: Board| b@) =~= old_r.map_values(|b: Board| b@).push(b@));
                        assert(s.moves() =~= r@.map_values(|b: Board| b@).add(s.moves_from(it.position())));
                    }
                },
                None => {
                    proof {
                        assert(s.moves() =~= r@.map_values(|b: Board| b@));
                    }
                    break;
                },
            }
        }
        proof {
            assert forall|i: int| 0 <= i < r@.len() implies #[trigger] r@[i].wf() && r@[i]@ == s.moves()[i] by {
                assert(r@.map_values(|b: Board| b@)[i] == r@[i]@);
            }
        }
        r
    }
}

} // verus!
