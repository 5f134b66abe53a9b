use vstd::prelude::*;

use crate::Piece;

verus! {

/// A cell address: column, then row.
pub type Position = (usize, usize);

/// The positions of the cells of `s` that hold `c`, in order.
pub open spec fn positions_of(s: Seq<(Position, Piece)>, c: Piece) -> Seq<Position>
    decreases s.len(),
{
    if s.len() == 0 {
        seq![]
    } else {
        let rest = positions_of(s.drop_last(), c);
        if s.last().1 == c {
            rest.push(s.last().0)
        } else {
            rest
        }
    }
}

/// The cells of a sliding window, sorted by what they hold.
pub struct Tallies {
    pub red: Vec<Position>,
    pub yellow: Vec<Position>,
    pub empty: Vec<Position>,
}

impl Tallies {
    /// The list kept for `piece`.
    pub open spec fn list(&self, piece: Piece) -> Vec<Position> {
        match piece {
            Piece::Red => self.red,
            Piece::Yellow => self.yellow,
            Piece::Empty => self.empty,
        }
    }

    /// The tallies count exactly the cells of `s`.
    pub open spec fn counts(&self, s: Seq<(Position, Piece)>) -> bool {
        &&& self.red@ == positions_of(s, Piece::Red)
        &&& self.yellow@ == positions_of(s, Piece::Yellow)
        &&& self.empty@ == positions_of(s, Piece::Empty)
    }

    /// Mutable access to the list kept for `piece`; the other lists stay as they are.
    pub fn get(&mut self, piece: &Piece) -> (r: &mut Vec<Position>)
        ensures
            *r == old(self).list(*piece),
            final(self).red == if *piece == Piece::Red {
                *final(r)
            } else {
                old(self).red
            },
            final(self).yellow == if *piece == Piece::Yellow {
                *final(r)
            } else {
                old(self).yellow
            },
            final(self).empty == if *piece == Piece::Empty {
                *final(r)
            } else {
                old(self).empty
            },
    {
        match piece {
            Piece::Red => &mut self.red,
            Piece::Yellow => &mut self.yellow,
            Piece::Empty => &mut self.empty,
        }
    }
}

pub proof fn lemma_positions_push(s: Seq<(Position, Piece)>, e: (Position, Piece), c: Piece)
    ensures
        positions_of(s.push(e), c) == if e.1 == c {
            positions_of(s, c).push(e.0)
        } else {
            positions_of(s, c)
        },
{
    assert(s.push(e).drop_last() =~= s);
}

pub proof fn lemma_positions_drop_first(s: Seq<(Position, Piece)>, c: Piece)
    requires
        s.len() > 0,
    ensures
        s[0].1 == c ==> positions_of(s, c).len() > 0 && positions_of(s, c)[0] == s[0].0,
        positions_of(s.subrange(1, s.len() as int), c) == if s[0].1 == c {
            positions_of(s, c).subrange(1, positions_of(s, c).len() as int)
        } else {
            positions_of(s, c)
        },
    decreases s.len(),
{
    if s.len() == 1 {
        assert(s.drop_last() =~= seq![]);
        assert(s.subrange(1, 1) =~= seq![]);
        assert(positions_of(s.drop_last(), c) =~= Seq::<Position>::empty());
        assert(s.last() == s[0]);
    } else {
        let t = s.drop_last();
        lemma_positions_drop_first(t, c);
        assert(t[0] == s[0]);
        assert(s.subrange(1, s.len() as int) =~= t.subrange(1, t.len() as int).push(s.last()));
        lemma_positions_push(t.subrange(1, t.len() as int), s.last(), c);
        assert(s =~= t.push(s.last()));
        lemma_positions_push(t, s.last(), c);
        if s[0].1 == c {
            let pt = positions_of(t, c);
            if s.last().1 == c {
                assert(pt.push(s.last().0).subrange(1, pt.len() + 1int) =~= pt.subrange(
                    1,
                    pt.len() as int,
                ).push(s.last().0));
            }
        }
    }
}

pub open spec fn one_if(b: bool) -> int {
    if b { 1 } else { 0 }
}

/// What the positions of a window of four cells are, cell by cell.
pub proof fn lemma_positions_four(ws: Seq<(Position, Piece)>, c: Piece)
    requires
        ws.len() == 4,
    ensures
        positions_of(ws, c).len() == one_if(ws[0].1 == c) + one_if(ws[1].1 == c) + one_if(
            ws[2].1 == c,
        ) + one_if(ws[3].1 == c),
        ws[0].1 == c ==> positions_of(ws, c)[0] == ws[0].0,
        ws[0].1 != c && ws[1].1 == c ==> positions_of(ws, c)[0] == ws[1].0,
        ws[0].1 != c && ws[1].1 != c && ws[2].1 == c ==> positions_of(ws, c)[0] == ws[2].0,
        ws[0].1 != c && ws[1].1 != c && ws[2].1 != c && ws[3].1 == c ==> positions_of(ws, c)[0]
            == ws[3].0,
{
    let s1 = ws.subrange(0, 1);
    let s2 = ws.subrange(0, 2);
    let s3 = ws.subrange(0, 3);
    let s0 = ws.subrange(0, 0);
    assert(s0 =~= Seq::<(Position, Piece)>::empty());
    assert(positions_of(s0, c) =~= Seq::<Position>::empty());
    assert(s0.push(ws[0]) =~= s1);
    assert(s1.push(ws[1]) =~= s2);
    assert(s2.push(ws[2]) =~= s3);
    assert(s3.push(ws[3]) =~= ws);
    lemma_positions_push(s0, ws[0], c);
    lemma_positions_push(s1, ws[1], c);
    lemma_positions_push(s2, ws[2], c);
    lemma_positions_push(s3, ws[3], c);
}

/// In a window of four cells with an empty cell at `j0`, one empty cell and
/// three of colour `c` is the same as every other cell holding `c`.
pub proof fn lemma_window_tally(ws: Seq<(Position, Piece)>, c: Piece, j0: int)
    requires
        ws.len() == 4,
        c.is_color(),
        0 <= j0 < 4,
        ws[j0].1 == Piece::Empty,
    ensures
        (positions_of(ws, Piece::Empty).len() == 1 && positions_of(ws, c).len() == 3)
            <==> crate::model::others_are(seq![ws[0].1, ws[1].1, ws[2].1, ws[3].1], j0, c),
        positions_of(ws, Piece::Empty).len() == 1 ==> positions_of(ws, Piece::Empty)[0]
            == ws[j0].0,
{
    lemma_positions_four(ws, c);
    lemma_positions_four(ws, Piece::Empty);
}

/// A window of four cells with one empty cell and three of colour `c` holds
/// `c` everywhere but at its empty cell.
pub proof fn lemma_window_tally_sound(ws: Seq<(Position, Piece)>, c: Piece) -> (j0: int)
    requires
        ws.len() == 4,
        c.is_color(),
        positions_of(ws, Piece::Empty).len() == 1,
        positions_of(ws, c).len() == 3,
    ensures
        0 <= j0 < 4,
        ws[j0].1 == Piece::Empty,
        ws[j0].0 == positions_of(ws, Piece::Empty)[0],
        crate::model::others_are(seq![ws[0].1, ws[1].1, ws[2].1, ws[3].1], j0, c),
{
    lemma_positions_four(ws, Piece::Empty);
    let j0: int = if ws[0].1 == Piece::Empty {
        0
    } else if ws[1].1 == Piece::Empty {
        1
    } else if ws[2].1 == Piece::Empty {
        2
    } else {
        3
    };
    lemma_window_tally(ws, c, j0);
    j0
}

} // verus!
