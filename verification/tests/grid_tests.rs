use survival_sim::util::HEPT32;
use survival_sim::world::grid::Grid;
use survival_sim::world::grid::IPos;
use survival_sim::world::grid::Pos;
use survival_sim::world::grid::Tile;

#[test]
fn empty_grid_is_all_empty() {
    let g = Grid::empty(10, 10);
    for y in 0..10usize {
        for x in 0..10usize {
            assert_eq!(g.index(Pos(x, y)), Tile::Empty);
        }
    }
    assert!(g.check_wf());
}

#[test]
fn index_out_of_bounds_is_sentinel() {
    let g = Grid::empty(10, 10);
    assert_eq!(g.index(Pos(10, 5)), Tile::OutOfBounds);
    assert_eq!(g.index(Pos(5, 10)), Tile::OutOfBounds);
    assert_eq!(g.index_i(IPos(-1, 0)), Tile::OutOfBounds);
    assert_eq!(g.index_i(IPos(0, -1)), Tile::OutOfBounds);
}

#[test]
fn index_mut_then_index_agree() {
    let mut g = Grid::empty(10, 10);
    let t = Tile::Creature { species: 0, color: HEPT32::RED, food: 3 };
    g.index_mut(Pos(4, 7), t);
    assert_eq!(g.index(Pos(4, 7)), t);
    for y in 0..10usize {
        for x in 0..10usize {
            if (x, y) != (4, 7) {
                assert_eq!(g.index(Pos(x, y)), Tile::Empty);
            }
        }
    }
}

#[test]
fn pos_signed_round_trip() {
    let p = Pos(3, 7);
    let i = p.to_ipos();
    assert_eq!(i.try_to_pos(), Some(p));
    let q = Pos(0, 0);
    assert_eq!(q.to_ipos().try_to_pos(), Some(q));
}

#[test]
fn negative_signed_position_does_not_narrow() {
    assert_eq!(IPos(-1, 2).try_to_pos(), None);
    assert_eq!(IPos(2, -1).try_to_pos(), None);
    assert_eq!(IPos(-3, -3).try_to_pos(), None);
}

#[test]
fn windowed_view_at_corner() {
    let mut g = Grid::empty(10, 10);
    g.index_mut(Pos(0, 0), Tile::Creature { species: 0, color: HEPT32::RED, food: 1 });
    g.index_mut(Pos(2, 1), Tile::Bush(true));
    let v = g.windowed_view(IPos(0, 0), 3);
    assert_eq!(v.len(), 7);
    for row in &v {
        assert_eq!(row.len(), 7);
    }
    // the top-left 3x3 block lies past both edges
    for i in 0..3usize {
        for j in 0..3usize {
            assert_eq!(v[i][j], Tile::OutOfBounds);
        }
    }
    // the in-grid remainder reflects the real tiles
    assert_eq!(v[3][3], Tile::Creature { species: 0, color: HEPT32::RED, food: 1 });
    assert_eq!(v[4][5], Tile::Bush(true));
    assert_eq!(v[4][4], Tile::Empty);
    assert_eq!(v[6][6], Tile::Empty);
}

#[test]
fn windowed_view_far_outside_keeps_size() {
    let g = Grid::empty(10, 10);
    let v = g.windowed_view(IPos(-50, 1000), 3);
    assert_eq!(v.len(), 7);
    for row in &v {
        assert_eq!(row.len(), 7);
        for t in row {
            assert_eq!(*t, Tile::OutOfBounds);
        }
    }
}

#[test]
fn windowed_view_beyond_far_edge_is_total() {
    let g = Grid::empty(10, 10);
    // center flush against the far corner: no fault, just sentinel fill
    let v = g.windowed_view(IPos(9, 9), 3);
    assert_eq!(v.len(), 7);
    assert_eq!(v[3][3], Tile::Empty);
    assert_eq!(v[3][4], Tile::OutOfBounds);
    assert_eq!(v[4][3], Tile::OutOfBounds);
}

#[test]
fn slice_matches_i_slice() {
    let mut g = Grid::empty(8, 6);
    g.index_mut(Pos(2, 2), Tile::Bush(false));
    let a = g.slice(Pos(1, 1), 3, 3);
    let b = g.i_slice(IPos(1, 1), 3, 3);
    assert_eq!(a, b);
    assert_eq!(a[1][1], Tile::Bush(false));
}

#[test]
fn arr_copies_every_tile() {
    let mut g = Grid::empty(4, 3);
    g.index_mut(Pos(3, 2), Tile::Bush(true));
    let rows = g.arr();
    assert_eq!(rows.len(), 3);
    assert_eq!(rows[0].len(), 4);
    assert_eq!(rows[2][3], Tile::Bush(true));
    assert_eq!(rows[0][0], Tile::Empty);
}

#[test]
fn tile_symbols() {
    assert_eq!(Tile::Empty.symbol(), ' ');
    assert_eq!(Tile::OutOfBounds.symbol(), 'X');
    assert_eq!(Tile::Bush(true).symbol(), '%');
    assert_eq!(Tile::Bush(false).symbol(), '/');
    assert_eq!(Tile::Wall { species: 1, color: 0 }.symbol(), '#');
    assert_eq!(Tile::Creature { species: 1, color: 0, food: 0 }.symbol(), '@');
}

#[test]
fn tile_feature_pairs() {
    assert_eq!(Tile::Empty.feature_pair(), (0, 0));
    assert_eq!(Tile::OutOfBounds.feature_pair(), (1, 0));
    assert_eq!(Tile::Bush(false).feature_pair(), (2, 0));
    assert_eq!(Tile::Bush(true).feature_pair(), (2, 1));
    assert_eq!(Tile::Wall { species: 3, color: 9 }.feature_pair(), (3, 3));
    assert_eq!(Tile::Creature { species: 2, color: 9, food: 5 }.feature_pair(), (4, 2));
}
