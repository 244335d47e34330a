use survival_sim::train::CreatureAction;
use survival_sim::train::CreatureState;
use survival_sim::train::directions;
use survival_sim::util::HEPT32;
use survival_sim::world::grid::Grid;
use survival_sim::world::grid::Pos;
use survival_sim::world::grid::Tile;
use survival_sim::world::species::Species;

fn state_with(center_neighbors: &[(usize, usize, Tile)], food: isize) -> CreatureState {
    let mut slice: Vec<Vec<Tile>> = Vec::new();
    for _ in 0..7usize {
        slice.push(vec![Tile::Empty; 7]);
    }
    slice[3][3] = Tile::Creature { species: 0, color: HEPT32::RED, food };
    for (row, col, t) in center_neighbors {
        slice[*row][*col] = *t;
    }
    CreatureState { slice, food, time: 0 }
}

#[test]
fn directions_enumerate_the_four_unit_steps() {
    assert_eq!(directions(), vec![(1, 0), (-1, 0), (0, 1), (0, -1)]);
}

#[test]
fn actions_offer_moves_into_empty_cells() {
    let s = state_with(&[], 0);
    let a = s.actions();
    assert_eq!(
        a,
        vec![
            CreatureAction::Move(1, 0),
            CreatureAction::Move(-1, 0),
            CreatureAction::Move(0, 1),
            CreatureAction::Move(0, -1),
        ]
    );
}

#[test]
fn build_wall_needs_a_food_balance() {
    let poor = state_with(&[], 0);
    for a in poor.actions() {
        assert!(!matches!(a, CreatureAction::BuildWall(_, _)));
    }
    let rich = state_with(&[], 1);
    let offered = rich.actions();
    assert!(offered.contains(&CreatureAction::BuildWall(1, 0)));
    assert!(offered.contains(&CreatureAction::BuildWall(0, -1)));
    assert_eq!(offered.len(), 8);
}

#[test]
fn attack_targets_are_tangible() {
    let s = state_with(
        &[
            (3, 4, Tile::Bush(true)),
            (3, 2, Tile::Bush(false)),
            (4, 3, Tile::Wall { species: 1, color: HEPT32::BLUE }),
            (2, 3, Tile::Creature { species: 1, color: HEPT32::BLUE, food: 0 }),
        ],
        0,
    );
    let a = s.actions();
    assert_eq!(
        a,
        vec![
            CreatureAction::Attack(1, 0),
            CreatureAction::Attack(0, 1),
            CreatureAction::Attack(0, -1),
        ]
    );
}

#[test]
fn do_nothing_is_the_sole_fallback() {
    let s = state_with(
        &[
            (3, 4, Tile::OutOfBounds),
            (3, 2, Tile::OutOfBounds),
            (4, 3, Tile::Bush(false)),
            (2, 3, Tile::OutOfBounds),
        ],
        5,
    );
    assert_eq!(s.actions(), vec![CreatureAction::DoNothing]);
}

#[test]
fn state_snapshot_reads_view_and_food() {
    let mut grid = Grid::empty(10, 10);
    grid.index_mut(Pos(5, 5), Tile::Creature { species: 0, color: HEPT32::RED, food: 4 });
    grid.index_mut(Pos(6, 5), Tile::Bush(true));
    let sp = Species { id: 0, color: HEPT32::RED, members: vec![Pos(5, 5)] };
    let s = CreatureState::new(&sp, &grid, 13, 0);
    assert_eq!(s.food, 4);
    assert_eq!(s.time, 13);
    assert_eq!(s.slice[3][4], Tile::Bush(true));
    assert_eq!(s.slice[3][3], Tile::Creature { species: 0, color: HEPT32::RED, food: 4 });
}

#[test]
fn direction_action_resolves_by_target_tile() {
    let s = state_with(
        &[(3, 4, Tile::Bush(true)), (3, 2, Tile::OutOfBounds)],
        0,
    );
    assert_eq!(s.direction_action(1, 0), CreatureAction::Attack(1, 0));
    assert_eq!(s.direction_action(-1, 0), CreatureAction::DoNothing);
    assert_eq!(s.direction_action(0, 1), CreatureAction::Move(0, 1));
}

#[test]
fn reward_base_formula() {
    let s = CreatureState { slice: Vec::new(), food: 1, time: 10 };
    assert_eq!(s.reward_base(), -10);
    let hungry = CreatureState { slice: Vec::new(), food: -3, time: 4 };
    assert_eq!(hungry.reward_base(), -20);
    let sated = CreatureState { slice: Vec::new(), food: 5, time: 7 };
    assert_eq!(sated.reward_base(), 21);
}

#[test]
fn feature_pairs_flatten_the_view() {
    let s = state_with(&[(0, 0, Tile::Bush(true))], 2);
    let pairs = s.feature_pairs();
    assert_eq!(pairs.len(), 49);
    assert_eq!(pairs[0], (2, 1));
    assert_eq!(pairs[24], (4, 0));
    assert_eq!(pairs[1], (0, 0));
}
