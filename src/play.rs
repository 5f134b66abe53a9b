use vstd::prelude::*;

use crate::board::Board;
use crate::model::BoardState;
use crate::search::{Search, best_of, minimax, minimax_value};
use crate::Piece;

verus! {

/// Red maximises the score, Yellow minimises it.
pub open spec fn maximizes(p: Piece) -> bool {
    p == Piece::Red
}

/// The states among `ch[0..n]`, in order, whose value searched `depth` plies
/// deeper for the side that then moves is `target`.
pub open spec fn with_value(ch: Seq<BoardState>, n: int, depth: nat, maximizing: bool, target: i32) -> Seq<BoardState>
    decreases n,
{
    if n <= 0 || n > ch.len() {
        seq![]
    } else {
        let rest = with_value(ch, n - 1, depth, maximizing, target);
        if minimax_value::<Board>(ch[n - 1], depth, !maximizing) == target {
            rest.push(ch[n - 1])
        } else {
            rest
        }
    }
}

/// The moves of `s` that are best for its side to move, each child searched
/// `depth` plies deeper.
pub open spec fn best_moves_of(s: BoardState, depth: nat) -> Seq<BoardState> {
    let ms = s.moves();
    let mx = maximizes(s.next_move);
    match best_of::<Board>(ms, ms.len() as int, depth, mx) {
        Some(b) => with_value(ms, ms.len() as int, depth, mx, b),
        None => seq![],
    }
}

/// The boards after each move that is best for the side to move, in column
/// order: every child is searched `depth` plies deeper, and those with the
/// highest value (for Red) or the lowest (for Yellow) are kept.
pub fn best_moves(board: &Board, depth: usize) -> (r: Vec<Board>)
    requires
        board.wf(),
    ensures
        r@.map_values(|b: Board| b@) == best_moves_of(board@, depth as nat),
        forall|i: int| 0 <= i < r@.len() ==> #[trigger] r@[i].wf(),
{
    let mx = match board.next_move() {
        Piece::Red => true,
        _ => false,
    };
    let children = board.moves();
    let ghost ms = board@.moves();
    let ghost cv = children@;
    proof {
        assert forall|j: int| 0 <= j < cv.len() implies #[trigger] cv[j].wf() && cv[j]@ == ms[j] by {
            assert(cv[j].valid());
        }
    }
    let mut scores: Vec<i32> = Vec::new();
    let mut best: Option<i32> = None;
    let mut i: usize = 0;
    while i < children.len()
        invariant
            children@ == cv,
            cv.len() == ms.len(),
            forall|j: int| 0 <= j < cv.len() ==> #[trigger] cv[j].wf() && cv[j]@ == ms[j],
            i <= ms.len(),
            scores@.len() == i,
            forall|j: int| 0 <= j < i ==> #[trigger] scores@[j] == minimax_value::<Board>(ms[j], depth as nat, !mx),
            best == best_of::<Board>(ms, i as int, depth as nat, mx),
        decreases cv.len() - i,
    {
        assert(cv[i as int].wf());
        let v = minimax(&children[i], depth, None, None, !mx);
        scores.push(v);
        best = Some(match best {
            None => v,
            Some(b) => if mx {
                if b >= v { b } else { v }
            } else {
                if b <= v { b } else { v }
            },
        });
        i = i + 1;
    }
    let mut r: Vec<Board> = Vec::new();
    match best {
        None => {
            assert(r@.map_values(|b: Board| b@) =~= best_moves_of(board@, depth as nat));
            r
        },
        Some(target) => {
            let mut i: usize = 0;
            while i < children.len()
                invariant
                    children@ == cv,
                    cv.len() == ms.len(),
                    forall|j: int| 0 <= j < cv.len() ==> #[trigger] cv[j].wf() && cv[j]@ == ms[j],
                    i <= ms.len(),
                    scores@.len() == ms.len(),
                    forall|j: int| 0 <= j < ms.len() ==> #[trigger] scores@[j] == minimax_value::<Board>(ms[j], depth as nat, !mx),
                    r@.map_values(|b: Board| b@) == with_value(ms, i as int, depth as nat, mx, target),
                    forall|j: int| 0 <= j < r@.len() ==> #[trigger] r@[j].wf(),
                decreases cv.len() - i,
            {
                assert(cv[i as int].wf());
                assert(scores@[i as int] == minimax_value::<Board>(ms[i as int], depth as nat, !mx));
                if scores[i] == target {
                    let ghost old_r = r@;
                    r.push(children[i].copy());
                    assert(r@.map_values(|b: Board| b@) =~= old_r.map_values(|b: Board| b@).push(ms[i as int]));
                }
                i = i + 1;
            }
            r
        },
    }
}

/// Relies on rand's `Rng::gen_range` on the thread's generator: a number in
/// `0..n`, which must not be empty.
#[verifier::external_body]
fn random_below(n: usize) -> (r: usize)
    requires
        n > 0,
    ensures
        r < n,
{
    rand::Rng::gen_range(&mut rand::thread_rng(), 0..n)
}

/// One of the best moves for the side to move, picked at random; `None`
/// when no move is possible.
pub fn choose_move(board: &Board, depth: usize) -> (r: Option<Board>)
    requires
        board.wf(),
    ensures
        r is None <==> board@.moves().len() == 0,
        r matches Some(b) ==> b.wf() && best_moves_of(board@, depth as nat).contains(b@),
{
    let candidates = best_moves(board, depth);
    let ghost bm = best_moves_of(board@, depth as nat);
    proof {
        let ms = board@.moves();
        lemma_best_nonempty(ms, ms.len() as int, depth as nat, maximizes(board@.next_move));
        assert(candidates@.map_values(|b: Board| b@).len() == candidates@.len());
    }
    if candidates.len() == 0 {
        None
    } else {
        let i = random_below(candidates.len());
        let b = candidates[i].copy();
        assert(candidates@.map_values(|b: Board| b@)[i as int] == candidates@[i as int]@);
        assert(bm[i as int] == b@);
        Some(b)
    }
}

/// The best of a nonempty list of moves is among them.
pub proof fn lemma_best_nonempty(ch: Seq<BoardState>, n: int, depth: nat, mx: bool)
    requires
        0 <= n <= ch.len(),
    ensures
        (best_of::<Board>(ch, n, depth, mx) is Some) <==> n > 0,
        n > 0 ==> with_value(ch, n, depth, mx, best_of::<Board>(ch, n, depth, mx)->0).len() > 0,
    decreases n,
{
    if n > 0 {
        lemma_best_nonempty(ch, n - 1, depth, mx);
        let b = best_of::<Board>(ch, n, depth, mx)->0;
        let v = minimax_value::<Board>(ch[n - 1], depth, !mx);
        if v != b {
            lemma_best_reached(ch, n - 1, depth, mx);
        }
    }
}

/// A running best is the value of one of the states it ran over, and that
/// state is kept by `with_value`.
pub proof fn lemma_best_reached(ch: Seq<BoardState>, n: int, depth: nat, mx: bool)
    requires
        0 < n <= ch.len(),
    ensures
        with_value(ch, n, depth, mx, best_of::<Board>(ch, n, depth, mx)->0).len() > 0,
    decreases n,
{
    let b = best_of::<Board>(ch, n, depth, mx)->0;
    let v = minimax_value::<Board>(ch[n - 1], depth, !mx);
    if n == 1 {
        assert(best_of::<Board>(ch, 0, depth, mx) is None);
    }
    if v != b {
        lemma_best_reached(ch, n - 1, depth, mx);
        lemma_with_value_prefix(ch, n - 1, n, depth, mx, b);
    }
}

/// `with_value` over a longer prefix keeps at least as many states.
pub proof fn lemma_with_value_prefix(ch: Seq<BoardState>, n: int, m: int, depth: nat, mx: bool, t: i32)
    requires
        0 <= n <= m <= ch.len(),
    ensures
        with_value(ch, n, depth, mx, t).len() <= with_value(ch, m, depth, mx, t).len(),
    decreases m - n,
{
    if n < m {
        lemma_with_value_prefix(ch, n, m - 1, depth, mx, t);
    }
}

} // verus!
