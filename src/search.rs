use vstd::prelude::*;

verus! {

/// A two-player zero-sum game as the search sees it: a value for the
/// maximising side, the successor states, and whether the game is over.
/// The contracts speak of the game's model `Self::V`.
pub trait Search: Sized + View {
    /// The value is a well-formed game state.
    spec fn valid(&self) -> bool;

    spec fn score_of(v: Self::V) -> i32;

    spec fn game_over_of(v: Self::V) -> bool;

    spec fn moves_of(v: Self::V) -> Seq<Self::V>;

    fn score(&self) -> (r: i32)
        requires
            self.valid(),
        ensures
            r == Self::score_of(self@),
    ;

    fn moves(&self) -> (r: Vec<Self>)
        requires
            self.valid(),
        ensures
            r@.len() == Self::moves_of(self@).len(),
            forall|i: int| 0 <= i < r@.len() ==> #[trigger] r@[i].valid() && r@[i]@ == Self::moves_of(self@)[i],
    ;

    fn game_over(&self) -> (r: bool)
        requires
            self.valid(),
        ensures
            r == Self::game_over_of(self@),
    ;
}

/// `b` combined into a running best, upwards when maximising, else downwards.
pub open spec fn better(a: Option<i32>, b: i32, maximizing: bool) -> i32 {
    match a {
        None => b,
        Some(v) => if maximizing {
            if v >= b { v } else { b }
        } else {
            if v <= b { v } else { b }
        },
    }
}

/// The running best over the children `0..n`, each valued by plain minimax.
pub open spec fn best_of<T: Search>(ch: Seq<T::V>, n: int, depth: nat, maximizing: bool) -> Option<i32>
    decreases depth, 1int, n,
{
    if n <= 0 || n > ch.len() {
        None
    } else {
        let r = minimax_value::<T>(ch[n - 1], depth, !maximizing);
        Some(better(best_of::<T>(ch, n - 1, depth, maximizing), r, maximizing))
    }
}

/// The minimax value of `v` searched `depth` plies deep, every branch explored.
pub open spec fn minimax_value<T: Search>(v: T::V, depth: nat, maximizing: bool) -> i32
    decreases depth, 0int, 0int,
{
    if depth == 0 || T::game_over_of(v) {
        T::score_of(v)
    } else {
        let ch = T::moves_of(v);
        match best_of::<T>(ch, ch.len() as int, (depth - 1) as nat, maximizing) {
            Some(b) => b,
            None => T::score_of(v),
        }
    }
}

/// Both bounds are set and the lower one has reached the upper one.
pub open spec fn cut_off(alpha: Option<i32>, beta: Option<i32>) -> bool {
    alpha is Some && beta is Some && beta->0 <= alpha->0
}

/// The state of the children loop of the pruned search after the children
/// `0..n`, or after the child at which it stopped: the running best, the
/// moved bound (alpha when maximising, beta otherwise) and whether it stopped.
pub open spec fn ab_children<T: Search>(
    ch: Seq<T::V>,
    n: int,
    depth: nat,
    alpha: Option<i32>,
    beta: Option<i32>,
    maximizing: bool,
) -> (Option<i32>, Option<i32>, bool)
    decreases depth, 1int, n,
{
    if n <= 0 || n > ch.len() {
        (None, if maximizing { alpha } else { beta }, false)
    } else {
        let prev = ab_children::<T>(ch, n - 1, depth, alpha, beta, maximizing);
        if prev.2 {
            prev
        } else if maximizing {
            let r = alphabeta::<T>(ch[n - 1], depth, prev.1, beta, false);
            let na = Some(better(prev.1, r, true));
            (Some(better(prev.0, r, true)), na, cut_off(na, beta))
        } else {
            let r = alphabeta::<T>(ch[n - 1], depth, alpha, prev.1, true);
            let nb = Some(better(prev.1, r, false));
            (Some(better(prev.0, r, false)), nb, cut_off(alpha, nb))
        }
    }
}

/// The value that the search with alpha-beta pruning returns.
pub open spec fn alphabeta<T: Search>(
    v: T::V,
    depth: nat,
    alpha: Option<i32>,
    beta: Option<i32>,
    maximizing: bool,
) -> i32
    decreases depth, 0int, 0int,
{
    if depth == 0 || T::game_over_of(v) {
        T::score_of(v)
    } else {
        let ch = T::moves_of(v);
        match ab_children::<T>(ch, ch.len() as int, (depth - 1) as nat, alpha, beta, maximizing).0 {
            Some(b) => b,
            None => T::score_of(v),
        }
    }
}

/// Minimax search of `state`, `depth` plies deep, with alpha-beta pruning:
/// the children of a node are skipped once the bounds show that they
/// cannot change the result. With no bounds the result is the exact
/// minimax value.
pub fn minimax<T: Search>(
    state: &T,
    depth: usize,
    alpha: Option<i32>,
    beta: Option<i32>,
    maximizing: bool,
) -> (r: i32)
    requires
        state.valid(),
    ensures
        r == alphabeta::<T>(state@, depth as nat, alpha, beta, maximizing),
        alpha is None && beta is None ==> r == minimax_value::<T>(state@, depth as nat, maximizing),
        window_open(alpha, beta) ==> clamp(r as int, alpha, beta) == clamp(
            minimax_value::<T>(state@, depth as nat, maximizing) as int,
            alpha,
            beta,
        ),
    decreases depth,
{
    proof {
        lemma_alphabeta_unbounded::<T>(state@, depth as nat, maximizing);
        if window_open(alpha, beta) {
            lemma_alphabeta_window::<T>(state@, depth as nat, alpha, beta, maximizing);
        }
    }
    if depth == 0 || state.game_over() {
        return state.score();
    }
    let children = state.moves();
    let ghost ch = T::moves_of(state@);
    let ghost cv = children@;
    let ghost d = (depth - 1) as nat;
    let mut best: Option<i32> = None;
    let mut new_alpha = alpha;
    let mut new_beta = beta;
    let mut i: usize = 0;
    while i < children.len()
        invariant_except_break
            ab_children::<T>(ch, i as int, d, alpha, beta, maximizing) == (
                best,
                if maximizing { new_alpha } else { new_beta },
                false,
            ),
        invariant
            children@ == cv,
            cv.len() == ch.len(),
            forall|j: int| 0 <= j < cv.len() ==> #[trigger] cv[j].valid() && cv[j]@ == ch[j],
            d == depth - 1,
            0 < depth,
            i <= ch.len(),
            maximizing ==> new_beta == beta,
            !maximizing ==> new_alpha == alpha,
        ensures
            ab_children::<T>(ch, ch.len() as int, d, alpha, beta, maximizing).0 == best,
        decreases children@.len() - i,
    {
        assert(cv[i as int].valid());
        let child = &children[i];
        assert(child.valid() && child@ == ch[i as int]);
        if maximizing {
            let child_score = minimax(child, depth - 1, new_alpha, new_beta, false);
            best = Some(match best {
                None => child_score,
                Some(v) => if v >= child_score { v } else { child_score },
            });
            new_alpha = Some(match new_alpha {
                None => child_score,
                Some(v) => if v >= child_score { v } else { child_score },
            });
        } else {
            let child_score = minimax(child, depth - 1, new_alpha, new_beta, true);
            best = Some(match best {
                None => child_score,
                Some(v) => if v <= child_score { v } else { child_score },
            });
            new_beta = Some(match new_beta {
                None => child_score,
                Some(v) => if v <= child_score { v } else { child_score },
            });
        }
        i = i + 1;
        let stop = match (new_alpha, new_beta) {
            (Some(a), Some(b)) => b <= a,
            _ => false,
        };
        if stop {
            proof {
                lemma_ab_children_stopped::<T>(ch, i as int, ch.len() as int, d, alpha, beta, maximizing);
            }
            break;
        }
    }
    match best {
        Some(b) => b,
        None => state.score(),
    }
}

/// Minimax search of `state`, `depth` plies deep, with every branch explored.
pub fn minimax_exhaustive<T: Search>(state: &T, depth: usize, maximizing: bool) -> (r: i32)
    requires
        state.valid(),
    ensures
        r == minimax_value::<T>(state@, depth as nat, maximizing),
    decreases depth,
{
    if depth == 0 || state.game_over() {
        return state.score();
    }
    let children = state.moves();
    let ghost ch = T::moves_of(state@);
    let ghost cv = children@;
    let ghost d = (depth - 1) as nat;
    let mut best: Option<i32> = None;
    let mut i: usize = 0;
    while i < children.len()
        invariant
            children@ == cv,
            cv.len() == ch.len(),
            forall|j: int| 0 <= j < cv.len() ==> #[trigger] cv[j].valid() && cv[j]@ == ch[j],
            d == depth - 1,
            0 < depth,
            i <= ch.len(),
            best == best_of::<T>(ch, i as int, d, maximizing),
        decreases children@.len() - i,
    {
        assert(cv[i as int].valid());
        let child_score = minimax_exhaustive(&children[i], depth - 1, !maximizing);
        best = Some(match best {
            None => child_score,
            Some(v) => if maximizing {
                if v >= child_score { v } else { child_score }
            } else {
                if v <= child_score { v } else { child_score }
            },
        });
        i = i + 1;
    }
    match best {
        Some(b) => b,
        None => state.score(),
    }
}

/// A stopped children loop stays as it stopped.
pub proof fn lemma_ab_children_stopped<T: Search>(
    ch: Seq<T::V>,
    n: int,
    m: int,
    depth: nat,
    alpha: Option<i32>,
    beta: Option<i32>,
    maximizing: bool,
)
    requires
        0 <= n <= m <= ch.len(),
        ab_children::<T>(ch, n, depth, alpha, beta, maximizing).2,
    ensures
        ab_children::<T>(ch, m, depth, alpha, beta, maximizing) == ab_children::<T>(
            ch,
            n,
            depth,
            alpha,
            beta,
            maximizing,
        ),
    decreases m - n,
{
    if n < m {
        lemma_ab_children_stopped::<T>(ch, n, m - 1, depth, alpha, beta, maximizing);
    }
}

/// Searching with pruning from unbounded alpha and beta gives the same
/// value as searching every branch.
pub proof fn lemma_alphabeta_unbounded<T: Search>(v: T::V, depth: nat, maximizing: bool)
    ensures
        alphabeta::<T>(v, depth, None, None, maximizing) == minimax_value::<T>(v, depth, maximizing),
{
    lemma_alphabeta_window::<T>(v, depth, None, None, maximizing);
}

/// `x` brought into the window between `alpha` and `beta`, where set.
pub open spec fn clamp(x: int, alpha: Option<i32>, beta: Option<i32>) -> int {
    let lo = match alpha {
        None => x,
        Some(a) => if x < a { a as int } else { x },
    };
    match beta {
        None => lo,
        Some(b) => if lo > b { b as int } else { lo },
    }
}

/// The window is open: when both bounds are set, the lower is below the upper.
pub open spec fn window_open(alpha: Option<i32>, beta: Option<i32>) -> bool {
    alpha is Some && beta is Some ==> alpha->0 < beta->0
}

/// Pruning never changes the value as seen through the window: inside an
/// open window the pruned search returns the minimax value, and outside it
/// a value on the same side of the window.
pub proof fn lemma_alphabeta_window<T: Search>(
    v: T::V,
    depth: nat,
    alpha: Option<i32>,
    beta: Option<i32>,
    maximizing: bool,
)
    requires
        window_open(alpha, beta),
    ensures
        clamp(alphabeta::<T>(v, depth, alpha, beta, maximizing) as int, alpha, beta) == clamp(
            minimax_value::<T>(v, depth, maximizing) as int,
            alpha,
            beta,
        ),
    decreases depth, 0int, 0int,
{
    if depth == 0 || T::game_over_of(v) {
    } else {
        let ch = T::moves_of(v);
        lemma_children_window::<T>(ch, ch.len() as int, (depth - 1) as nat, alpha, beta, maximizing);
    }
}

/// The children loop of the pruned search, seen through the window, agrees
/// with the running best of plain minimax.
pub proof fn lemma_children_window<T: Search>(
    ch: Seq<T::V>,
    n: int,
    depth: nat,
    alpha: Option<i32>,
    beta: Option<i32>,
    maximizing: bool,
)
    requires
        window_open(alpha, beta),
        0 <= n <= ch.len(),
    ensures
        ({
            let st = ab_children::<T>(ch, n, depth, alpha, beta, maximizing);
            let b = best_of::<T>(ch, n, depth, maximizing);
            &&& (st.0 is Some <==> n > 0)
            &&& (b is Some <==> n > 0)
            &&& n > 0 ==> clamp(st.0->0 as int, alpha, beta) == clamp(b->0 as int, alpha, beta)
            &&& maximizing ==> st.1 == (if n > 0 { Some(better(alpha, st.0->0, true)) } else { alpha })
            &&& !maximizing ==> st.1 == (if n > 0 { Some(better(beta, st.0->0, false)) } else { beta })
            &&& (maximizing && st.2) ==> beta is Some && st.0->0 >= beta->0
            &&& (!maximizing && st.2) ==> alpha is Some && st.0->0 <= alpha->0
            &&& (maximizing && !st.2) ==> window_open(st.1, beta)
            &&& (!maximizing && !st.2) ==> window_open(alpha, st.1)
        }),
    decreases depth, 1int, n,
{
    if n > 0 {
        lemma_children_window::<T>(ch, n - 1, depth, alpha, beta, maximizing);
        let prev = ab_children::<T>(ch, n - 1, depth, alpha, beta, maximizing);
        if !prev.2 {
            if maximizing {
                lemma_alphabeta_window::<T>(ch[n - 1], depth, prev.1, beta, false);
            } else {
                lemma_alphabeta_window::<T>(ch[n - 1], depth, alpha, prev.1, true);
            }
        }
    }
}

} // verus!
