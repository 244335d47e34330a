use survival_sim::train::CreatureAction;
use survival_sim::util::HEPT32;
use survival_sim::world::grid::Grid;
use survival_sim::world::grid::Pos;
use survival_sim::world::grid::Tile;
use survival_sim::world::species::Species;

fn creature(species: usize, color: u32, food: isize) -> Tile {
    Tile::Creature { species, color, food }
}

#[test]
fn move_relocates_creature_unchanged() {
    let mut grid = Grid::empty(10, 10);
    grid.index_mut(Pos(5, 5), creature(0, HEPT32::RED, 1));
    let mut sp = Species { id: 0, color: HEPT32::RED, members: vec![Pos(5, 5)] };
    assert!(sp.check_action(&grid, CreatureAction::Move(1, 0), 0));
    sp.handle_action(&mut grid, CreatureAction::Move(1, 0), 0);
    assert_eq!(grid.index(Pos(6, 5)), creature(0, HEPT32::RED, 1));
    assert_eq!(grid.index(Pos(5, 5)), Tile::Empty);
    assert_eq!(sp.members, vec![Pos(6, 5)]);
}

#[test]
fn move_into_occupied_cell_is_not_offered() {
    let mut grid = Grid::empty(10, 10);
    grid.index_mut(Pos(5, 5), creature(0, HEPT32::RED, 1));
    grid.index_mut(Pos(6, 5), Tile::Bush(true));
    let sp = Species { id: 0, color: HEPT32::RED, members: vec![Pos(5, 5)] };
    assert!(!sp.check_action(&grid, CreatureAction::Move(1, 0), 0));
    assert!(sp.check_action(&grid, CreatureAction::Move(-1, 0), 0));
}

#[test]
fn attack_full_bush_harvests() {
    let mut grid = Grid::empty(10, 10);
    grid.index_mut(Pos(5, 5), creature(0, HEPT32::RED, 0));
    grid.index_mut(Pos(6, 5), Tile::Bush(true));
    let mut sp = Species { id: 0, color: HEPT32::RED, members: vec![Pos(5, 5)] };
    sp.handle_action(&mut grid, CreatureAction::Attack(1, 0), 0);
    assert_eq!(grid.index(Pos(6, 5)), Tile::Bush(false));
    assert_eq!(grid.index(Pos(5, 5)), creature(0, HEPT32::RED, 1));
}

#[test]
fn attack_eaten_bush_destroys_it_without_gain() {
    let mut grid = Grid::empty(10, 10);
    grid.index_mut(Pos(5, 5), creature(0, HEPT32::RED, 2));
    grid.index_mut(Pos(6, 5), Tile::Bush(false));
    let mut sp = Species { id: 0, color: HEPT32::RED, members: vec![Pos(5, 5)] };
    sp.handle_action(&mut grid, CreatureAction::Attack(1, 0), 0);
    assert_eq!(grid.index(Pos(6, 5)), Tile::Empty);
    assert_eq!(grid.index(Pos(5, 5)), creature(0, HEPT32::RED, 2));
}

#[test]
fn attack_wall_destroys_it() {
    let mut grid = Grid::empty(10, 10);
    grid.index_mut(Pos(5, 5), creature(0, HEPT32::RED, 0));
    grid.index_mut(Pos(5, 6), Tile::Wall { species: 1, color: HEPT32::BLUE });
    let mut sp = Species { id: 0, color: HEPT32::RED, members: vec![Pos(5, 5)] };
    sp.handle_action(&mut grid, CreatureAction::Attack(0, 1), 0);
    assert_eq!(grid.index(Pos(5, 6)), Tile::Empty);
    assert_eq!(grid.index(Pos(5, 5)), creature(0, HEPT32::RED, 1));
}

#[test]
fn attack_creature_transfers_food() {
    let mut grid = Grid::empty(10, 10);
    grid.index_mut(Pos(4, 5), creature(0, HEPT32::RED, 2));
    grid.index_mut(Pos(5, 5), creature(1, HEPT32::BLUE, 0));
    let mut s0 = Species { id: 0, color: HEPT32::RED, members: vec![Pos(4, 5)] };
    s0.handle_action(&mut grid, CreatureAction::Attack(1, 0), 0);
    assert_eq!(grid.index(Pos(5, 5)), creature(1, HEPT32::BLUE, -1));
    assert_eq!(grid.index(Pos(4, 5)), creature(0, HEPT32::RED, 3));
}

#[test]
fn attack_empty_is_harmless() {
    let mut grid = Grid::empty(10, 10);
    grid.index_mut(Pos(5, 5), creature(0, HEPT32::RED, 1));
    let mut sp = Species { id: 0, color: HEPT32::RED, members: vec![Pos(5, 5)] };
    sp.handle_action(&mut grid, CreatureAction::Attack(0, -1), 0);
    assert_eq!(grid.index(Pos(5, 4)), Tile::Empty);
    assert_eq!(grid.index(Pos(5, 5)), creature(0, HEPT32::RED, 1));
}

#[test]
fn attack_out_of_bounds_is_legal_no_op() {
    let mut grid = Grid::empty(10, 10);
    grid.index_mut(Pos(0, 0), creature(0, HEPT32::RED, 1));
    let mut sp = Species { id: 0, color: HEPT32::RED, members: vec![Pos(0, 0)] };
    assert!(sp.check_action(&grid, CreatureAction::Attack(-1, 0), 0));
    sp.handle_action(&mut grid, CreatureAction::Attack(-1, 0), 0);
    assert_eq!(grid.index(Pos(0, 0)), creature(0, HEPT32::RED, 1));
    assert_eq!(sp.members, vec![Pos(0, 0)]);
}

#[test]
fn build_wall_places_and_pays() {
    let mut grid = Grid::empty(10, 10);
    grid.index_mut(Pos(5, 5), creature(0, HEPT32::RED, 2));
    let mut sp = Species { id: 0, color: HEPT32::RED, members: vec![Pos(5, 5)] };
    assert!(sp.check_action(&grid, CreatureAction::BuildWall(1, 0), 0));
    sp.handle_action(&mut grid, CreatureAction::BuildWall(1, 0), 0);
    assert_eq!(grid.index(Pos(6, 5)), Tile::Wall { species: 0, color: HEPT32::RED });
    assert_eq!(grid.index(Pos(5, 5)), creature(0, HEPT32::RED, 1));
}

#[test]
fn build_wall_without_food_is_not_applicable() {
    let mut grid = Grid::empty(10, 10);
    grid.index_mut(Pos(5, 5), creature(0, HEPT32::RED, 0));
    let sp = Species { id: 0, color: HEPT32::RED, members: vec![Pos(5, 5)] };
    assert!(!sp.check_action(&grid, CreatureAction::BuildWall(1, 0), 0));
}

#[test]
fn do_nothing_changes_nothing() {
    let mut grid = Grid::empty(10, 10);
    grid.index_mut(Pos(5, 5), creature(0, HEPT32::RED, 1));
    let mut sp = Species { id: 0, color: HEPT32::RED, members: vec![Pos(5, 5)] };
    sp.handle_action(&mut grid, CreatureAction::DoNothing, 0);
    assert_eq!(grid.index(Pos(5, 5)), creature(0, HEPT32::RED, 1));
    assert_eq!(sp.members, vec![Pos(5, 5)]);
}

#[test]
fn get_food_reads_the_counter() {
    let mut grid = Grid::empty(10, 10);
    grid.index_mut(Pos(2, 3), creature(0, HEPT32::RED, 7));
    let sp = Species { id: 0, color: HEPT32::RED, members: vec![Pos(2, 3)] };
    assert_eq!(sp.get_food(&grid, 0), 7);
}

#[test]
fn get_view_slice_is_centered() {
    let mut grid = Grid::empty(10, 10);
    grid.index_mut(Pos(5, 5), creature(0, HEPT32::RED, 1));
    grid.index_mut(Pos(6, 5), Tile::Bush(true));
    let sp = Species { id: 0, color: HEPT32::RED, members: vec![Pos(5, 5)] };
    let v = sp.get_view_slice(&grid, 0);
    assert_eq!(v.len(), 7);
    assert_eq!(v[3][3], creature(0, HEPT32::RED, 1));
    assert_eq!(v[3][4], Tile::Bush(true));
}

#[test]
fn cleanup_removes_starved_in_order() {
    let mut grid = Grid::empty(10, 10);
    grid.index_mut(Pos(1, 1), creature(0, HEPT32::RED, 1));
    grid.index_mut(Pos(3, 1), creature(0, HEPT32::RED, -1));
    grid.index_mut(Pos(5, 1), creature(0, HEPT32::RED, 0));
    grid.index_mut(Pos(7, 1), creature(0, HEPT32::RED, -2));
    let mut sp = Species {
        id: 0,
        color: HEPT32::RED,
        members: vec![Pos(1, 1), Pos(3, 1), Pos(5, 1), Pos(7, 1)],
    };
    sp.cleanup(&mut grid);
    assert_eq!(sp.members, vec![Pos(1, 1), Pos(5, 1)]);
    assert_eq!(grid.index(Pos(3, 1)), Tile::Empty);
    assert_eq!(grid.index(Pos(7, 1)), Tile::Empty);
    assert_eq!(grid.index(Pos(1, 1)), creature(0, HEPT32::RED, 1));
    assert_eq!(grid.index(Pos(5, 1)), creature(0, HEPT32::RED, 0));
}
