use connect_four::{Grid, Piece, Tallies};

#[test]
fn grid_starts_with_the_default() {
    let g = Grid::new(3, 2, Piece::Empty);
    assert_eq!(g.width(), 3);
    assert_eq!(g.height(), 2);
    for y in 0..2 {
        for x in 0..3 {
            assert_eq!(*g.get(x, y), Piece::Empty);
        }
    }
}

#[test]
fn grid_writes_one_cell() {
    let mut g = Grid::new(3, 2, 0u8);
    *g.get_mut(2, 1) = 7;
    *g.get_mut(0, 1) = 5;
    assert_eq!(*g.get(2, 1), 7);
    assert_eq!(*g.get(0, 1), 5);
    assert_eq!(*g.get(2, 0), 0);
    assert_eq!(*g.get(1, 1), 0);
    let c = g.copy();
    assert_eq!(*c.get(2, 1), 7);
}

#[test]
fn tallies_hand_out_the_right_list() {
    let mut t = Tallies { red: Vec::new(), yellow: Vec::new(), empty: Vec::new() };
    t.get(&Piece::Red).push((1, 2));
    t.get(&Piece::Empty).push((3, 4));
    t.get(&Piece::Empty).push((5, 6));
    assert_eq!(t.red, vec![(1, 2)]);
    assert!(t.yellow.is_empty());
    assert_eq!(t.empty, vec![(3, 4), (5, 6)]);
    t.get(&Piece::Empty).remove(0);
    assert_eq!(t.empty, vec![(5, 6)]);
}
