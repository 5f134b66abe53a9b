use vstd::prelude::*;

use crate::grid::{cell_index, lemma_cell_index_bounds};
use crate::model::{BoardState, others_are};
use crate::Piece;

verus! {

pub proof fn lemma_cell_index_injective(width: int, x1: int, y1: int, x2: int, y2: int)
    requires
        0 <= x1 < width,
        0 <= x2 < width,
        0 <= y1,
        0 <= y2,
        cell_index(width, x1, y1) == cell_index(width, x2, y2),
    ensures
        x1 == x2 && y1 == y2,
{
    assert(x1 == x2 && y1 == y2) by (nonlinear_arith)
        requires
            0 <= x1 < width,
            0 <= x2 < width,
            0 <= y1,
            0 <= y2,
            y1 * width + x1 == y2 * width + x2,
    ;
}

/// Writing one cell changes that cell only.
pub proof fn lemma_place_cell(s: BoardState, x: int, y: int, p: Piece, a: int, b: int)
    requires
        s.cells.len() == s.width * s.height,
        s.in_bounds(x, y),
        s.in_bounds(a, b),
    ensures
        s.place(x, y, p).cell(a, b) == if a == x && b == y {
            p
        } else {
            s.cell(a, b)
        },
{
    let w = s.width as int;
    lemma_cell_index_bounds(w, s.height as int, x, y);
    lemma_cell_index_bounds(w, s.height as int, a, b);
    if cell_index(w, x, y) == cell_index(w, a, b) {
        lemma_cell_index_injective(w, x, y, a, b);
    }
}

/// Writing a cell outside a window leaves the window as it was.
pub proof fn lemma_window_unchanged(s: BoardState, x: int, y: int, p: Piece, qx: int, qy: int, k: int)
    requires
        s.cells.len() == s.width * s.height,
        s.in_bounds(x, y),
        s.window_fits(qx, qy, k),
        !(qx == x && qy == y),
        !(s.px(qx, k, 1) == x && s.py(qy, k, 1) == y),
        !(s.px(qx, k, 2) == x && s.py(qy, k, 2) == y),
        !(s.px(qx, k, 3) == x && s.py(qy, k, 3) == y),
    ensures
        s.place(x, y, p).window(qx, qy, k) == s.window(qx, qy, k),
        s.place(x, y, p).window_fits(qx, qy, k),
{
    lemma_place_cell(s, x, y, p, qx, qy);
    lemma_place_cell(s, x, y, p, s.px(qx, k, 1), s.py(qy, k, 1));
    lemma_place_cell(s, x, y, p, s.px(qx, k, 2), s.py(qy, k, 2));
    lemma_place_cell(s, x, y, p, s.px(qx, k, 3), s.py(qy, k, 3));
    assert(s.place(x, y, p).window(qx, qy, k) =~= s.window(qx, qy, k));
}

/// A threat away from the cell just filled stays a threat: its window
/// holds no empty cell but its gap.
pub proof fn lemma_threat_persists(s: BoardState, x: int, y: int, p: Piece, gx: int, gy: int, c: Piece)
    requires
        s.cells.len() == s.width * s.height,
        s.in_bounds(x, y),
        s.cell(x, y) == Piece::Empty,
        s.is_threat(gx, gy, c),
        !(gx == x && gy == y),
    ensures
        s.place(x, y, p).is_threat(gx, gy, c),
{
    let (k, j0) = choose|k: int, j0: int| #[trigger] s.threat_via(gx, gy, c, k, j0);
    let qx = s.px(gx, k, -j0);
    let qy = s.py(gy, k, -j0);
    let w = s.window(qx, qy, k);
    assert(w[0] == s.cell(qx, qy));
    assert(w[1] == s.cell(s.px(qx, k, 1), s.py(qy, k, 1)));
    assert(w[2] == s.cell(s.px(qx, k, 2), s.py(qy, k, 2)));
    assert(w[3] == s.cell(s.px(qx, k, 3), s.py(qy, k, 3)));
    lemma_window_unchanged(s, x, y, p, qx, qy, k);
    lemma_place_cell(s, x, y, p, gx, gy);
    assert(s.place(x, y, p).threat_via(gx, gy, c, k, j0));
}

/// A threat whose window holds `(x, y)` at place `j1` is seen from `(x, y)`.
pub proof fn lemma_via_is_through(t: BoardState, x: int, y: int, gx: int, gy: int, c: Piece, k: int, j0: int, j1: int)
    requires
        t.threat_via(gx, gy, c, k, j0),
        t.cell(gx, gy) == Piece::Empty,
        0 <= j1 < 4,
        t.px(t.px(gx, k, -j0), k, j1) == x,
        t.py(t.py(gy, k, -j0), k, j1) == y,
    ensures
        t.threat_through(x, y, c, k, j1, j0),
        gx == t.px(x, k, j0 - j1),
        gy == t.py(y, k, j0 - j1),
{
    let qx = t.px(gx, k, -j0);
    let qy = t.py(gy, k, -j0);
    assert(t.px(x, k, -j1) == qx);
    assert(t.py(y, k, -j1) == qy);
    let w = t.window(qx, qy, k);
    if j0 == 0 {
        assert(w[0] == t.cell(gx, gy));
    } else if j0 == 1 {
        assert(w[1] == t.cell(gx, gy));
    } else if j0 == 2 {
        assert(w[2] == t.cell(gx, gy));
    } else {
        assert(w[3] == t.cell(gx, gy));
    }
}

/// A threat after a cell is filled was a threat before, elsewhere, or lies
/// on a window through the filled cell.
pub proof fn lemma_threat_local(s: BoardState, x: int, y: int, p: Piece, gx: int, gy: int, c: Piece)
    requires
        s.cells.len() == s.width * s.height,
        s.in_bounds(x, y),
        p.is_color(),
        s.place(x, y, p).is_threat(gx, gy, c),
    ensures
        !(gx == x && gy == y),
        s.is_threat(gx, gy, c) || exists|k: int, j1: int, j0: int|
            #[trigger] s.place(x, y, p).threat_through(x, y, c, k, j1, j0) && gx == s.px(
                x,
                k,
                j0 - j1,
            ) && gy == s.py(y, k, j0 - j1),
{
    let t = s.place(x, y, p);
    lemma_place_cell(s, x, y, p, gx, gy);
    let (k, j0) = choose|k: int, j0: int| #[trigger] t.threat_via(gx, gy, c, k, j0);
    let qx = s.px(gx, k, -j0);
    let qy = s.py(gy, k, -j0);
    if qx == x && qy == y {
        lemma_via_is_through(t, x, y, gx, gy, c, k, j0, 0);
    } else if s.px(qx, k, 1) == x && s.py(qy, k, 1) == y {
        lemma_via_is_through(t, x, y, gx, gy, c, k, j0, 1);
    } else if s.px(qx, k, 2) == x && s.py(qy, k, 2) == y {
        lemma_via_is_through(t, x, y, gx, gy, c, k, j0, 2);
    } else if s.px(qx, k, 3) == x && s.py(qy, k, 3) == y {
        lemma_via_is_through(t, x, y, gx, gy, c, k, j0, 3);
    } else {
        lemma_window_unchanged(s, x, y, p, qx, qy, k);
        assert(s.threat_via(gx, gy, c, k, j0));
    }
}

/// Threats depend on the size and the cells alone.
pub proof fn lemma_same_cells(s1: BoardState, s2: BoardState)
    requires
        s1.width == s2.width,
        s1.height == s2.height,
        s1.cells == s2.cells,
    ensures
        forall|x: int, y: int, c: Piece| #[trigger] s1.is_threat(x, y, c) == s2.is_threat(x, y, c),
{
    assert forall|x: int, y: int, c: Piece| #[trigger] s1.is_threat(x, y, c) implies s2.is_threat(x, y, c) by {
        let (k, j0) = choose|k: int, j0: int| #[trigger] s1.threat_via(x, y, c, k, j0);
        assert(s2.threat_via(x, y, c, k, j0));
    }
    assert forall|x: int, y: int, c: Piece| #[trigger] s2.is_threat(x, y, c) implies s1.is_threat(x, y, c) by {
        let (k, j0) = choose|k: int, j0: int| #[trigger] s2.threat_via(x, y, c, k, j0);
        assert(s1.threat_via(x, y, c, k, j0));
    }
}

} // verus!
