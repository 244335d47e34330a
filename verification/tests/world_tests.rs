use survival_sim::train::CreatureAction;
use survival_sim::util::HEPT32;
use survival_sim::world::grid::Grid;
use survival_sim::world::grid::Pos;
use survival_sim::world::grid::Tile;
use survival_sim::world::species::Species;
use survival_sim::world::species::SpeciesConfig;
use survival_sim::world::SimConfig;
use survival_sim::world::World;

fn creature(species: usize, color: u32, food: isize) -> Tile {
    Tile::Creature { species, color, food }
}

fn bare_config(grid_width: usize, grid_height: usize) -> SimConfig {
    SimConfig {
        grid_width,
        grid_height,
        moon_len: 20,
        num_food: 0,
        chance_regrow: u32::MAX,
        species: Vec::new(),
    }
}

#[test]
fn new_world_has_configured_shape() {
    let config = SimConfig {
        grid_width: 30,
        grid_height: 20,
        moon_len: 20,
        num_food: 20,
        chance_regrow: 2147483648,
        species: vec![
            SpeciesConfig { color: HEPT32::RED, num_creatures: 4, num_packs: 2 },
            SpeciesConfig { color: HEPT32::BLUE, num_creatures: 1, num_packs: 8 },
        ],
    };
    let w = World::new(config);
    assert!(w.check_wf());
    assert_eq!(w.time_left, 20);
    assert_eq!(w.grid.width, 30);
    assert_eq!(w.grid.height, 20);
    assert_eq!(w.species.len(), 2);
    assert_eq!(w.species[0].id, 0);
    assert_eq!(w.species[0].color, HEPT32::RED);
    assert!(w.species[0].members.len() <= 8);
    assert_eq!(w.species[1].id, 1);
    assert_eq!(w.species[1].color, HEPT32::BLUE);
    assert!(w.species[1].members.len() <= 8);
    let mut bushes: usize = 0;
    let mut creatures: usize = 0;
    for y in 0..20usize {
        for x in 0..30usize {
            match w.grid.index(Pos(x, y)) {
                Tile::Bush(true) => bushes += 1,
                Tile::Creature { food, .. } => {
                    creatures += 1;
                    assert_eq!(food, 0);
                }
                Tile::Empty => {}
                t => panic!("unexpected tile in a fresh world: {:?}", t),
            }
        }
    }
    assert_eq!(bushes, 20);
    assert_eq!(creatures, w.species[0].members.len() + w.species[1].members.len());
}

#[test]
fn new_world_fills_rosters_when_spacious() {
    // no bushes and seven creatures: no spawn box can fill up, so the
    // engine guarantees every configured creature is placed
    let config = SimConfig {
        grid_width: 12,
        grid_height: 12,
        moon_len: 5,
        num_food: 0,
        chance_regrow: 0,
        species: vec![
            SpeciesConfig { color: HEPT32::GREEN, num_creatures: 2, num_packs: 2 },
            SpeciesConfig { color: HEPT32::YELLOW, num_creatures: 3, num_packs: 1 },
        ],
    };
    let w = World::new(config);
    assert!(w.check_wf());
    assert_eq!(w.species[0].members.len(), 4);
    assert_eq!(w.species[1].members.len(), 3);
    for (s, sp) in w.species.iter().enumerate() {
        for p in &sp.members {
            assert_eq!(w.grid.index(*p), Tile::Creature { species: s, color: sp.color, food: 0 });
        }
    }
}

#[test]
fn step_action_move_scenario() {
    let mut grid = Grid::empty(10, 10);
    grid.index_mut(Pos(5, 5), creature(0, HEPT32::RED, 1));
    let sp = Species { id: 0, color: HEPT32::RED, members: vec![Pos(5, 5)] };
    let mut world = World { grid, species: vec![sp], time_left: 20, config: bare_config(10, 10) };
    assert!(world.check_wf());
    world.step_action(0, 0, CreatureAction::Move(1, 0));
    assert_eq!(world.grid.index(Pos(6, 5)), creature(0, HEPT32::RED, 1));
    assert_eq!(world.grid.index(Pos(5, 5)), Tile::Empty);
    assert_eq!(world.species[0].members, vec![Pos(6, 5)]);
    assert!(world.check_wf());
}

#[test]
fn attack_kills_and_cleanup_buries() {
    let mut grid = Grid::empty(10, 10);
    grid.index_mut(Pos(4, 5), creature(0, HEPT32::RED, 2));
    grid.index_mut(Pos(5, 5), creature(1, HEPT32::BLUE, 0));
    let s0 = Species { id: 0, color: HEPT32::RED, members: vec![Pos(4, 5)] };
    let s1 = Species { id: 1, color: HEPT32::BLUE, members: vec![Pos(5, 5)] };
    let mut world =
        World { grid, species: vec![s0, s1], time_left: 20, config: bare_config(10, 10) };
    assert!(world.check_wf());
    world.step_action(0, 0, CreatureAction::Attack(1, 0));
    assert_eq!(world.grid.index(Pos(5, 5)), creature(1, HEPT32::BLUE, -1));
    assert_eq!(world.grid.index(Pos(4, 5)), creature(0, HEPT32::RED, 3));
    world.finish_step();
    assert!(world.species[1].members.is_empty());
    assert_eq!(world.grid.index(Pos(5, 5)), Tile::Empty);
    assert_eq!(world.species[0].members, vec![Pos(4, 5)]);
    assert_eq!(world.grid.index(Pos(4, 5)), creature(0, HEPT32::RED, 3));
    assert!(world.check_wf());
}

#[test]
fn finish_step_keeps_the_living() {
    let mut grid = Grid::empty(10, 10);
    grid.index_mut(Pos(1, 1), creature(0, HEPT32::RED, 0));
    let sp = Species { id: 0, color: HEPT32::RED, members: vec![Pos(1, 1)] };
    let mut world = World { grid, species: vec![sp], time_left: 20, config: bare_config(10, 10) };
    world.finish_step();
    assert_eq!(world.species[0].members, vec![Pos(1, 1)]);
    assert_eq!(world.grid.index(Pos(1, 1)), creature(0, HEPT32::RED, 0));
}

#[test]
fn finish_moon_applies_decay_and_starvation() {
    let mut grid = Grid::empty(10, 10);
    grid.index_mut(Pos(2, 2), creature(0, HEPT32::RED, 5));
    grid.index_mut(Pos(7, 7), creature(0, HEPT32::RED, 1));
    let sp = Species { id: 0, color: HEPT32::RED, members: vec![Pos(2, 2), Pos(7, 7)] };
    let mut world = World { grid, species: vec![sp], time_left: 20, config: bare_config(10, 10) };
    world.finish_moon();
    assert_eq!(world.grid.index(Pos(2, 2)), creature(0, HEPT32::RED, 3));
    assert_eq!(world.grid.index(Pos(7, 7)), Tile::Empty);
    assert_eq!(world.species[0].members, vec![Pos(2, 2)]);
    assert!(world.check_wf());
}

#[test]
fn finish_moon_never_regrows_at_full_chance() {
    // chance_regrow is the probability an eaten bush stays eaten; at the
    // maximum no draw can exceed it, so every bush stays eaten
    let mut grid = Grid::empty(10, 10);
    for x in 0..10usize {
        grid.index_mut(Pos(x, 0), Tile::Bush(false));
    }
    let mut world =
        World { grid, species: Vec::new(), time_left: 20, config: bare_config(10, 10) };
    world.finish_moon();
    for x in 0..10usize {
        assert_eq!(world.grid.index(Pos(x, 0)), Tile::Bush(false));
    }
}

#[test]
fn finish_moon_regrowth_rate_converges() {
    // 600 eaten bushes, each staying eaten with probability about one
    // half: the regrown fraction lands near one half, far inside these
    // generous statistical bounds
    let mut grid = Grid::empty(30, 20);
    for y in 0..20usize {
        for x in 0..30usize {
            grid.index_mut(Pos(x, y), Tile::Bush(false));
        }
    }
    let mut config = bare_config(30, 20);
    config.chance_regrow = 2147483648;
    let mut world = World { grid, species: Vec::new(), time_left: 20, config };
    world.finish_moon();
    let mut regrown: usize = 0;
    for y in 0..20usize {
        for x in 0..30usize {
            match world.grid.index(Pos(x, y)) {
                Tile::Bush(true) => regrown += 1,
                Tile::Bush(false) => {}
                t => panic!("bushes cannot change kind over a moon: {:?}", t),
            }
        }
    }
    assert!(regrown >= 180 && regrown <= 420, "regrown {} of 600", regrown);
}

#[test]
fn extinction_is_detected() {
    let world = World {
        grid: Grid::empty(10, 10),
        species: vec![Species { id: 0, color: HEPT32::RED, members: Vec::new() }],
        time_left: 20,
        config: bare_config(10, 10),
    };
    assert!(world.all_extinct());
}

#[test]
fn a_living_member_prevents_extinction() {
    let mut grid = Grid::empty(10, 10);
    grid.index_mut(Pos(1, 1), creature(0, HEPT32::RED, 0));
    let world = World {
        grid,
        species: vec![Species { id: 0, color: HEPT32::RED, members: vec![Pos(1, 1)] }],
        time_left: 20,
        config: bare_config(10, 10),
    };
    assert!(!world.all_extinct());
}

#[test]
fn check_wf_rejects_a_desynced_roster() {
    let grid = Grid::empty(10, 10);
    let sp = Species { id: 0, color: HEPT32::RED, members: vec![Pos(5, 5)] };
    let world = World { grid, species: vec![sp], time_left: 20, config: bare_config(10, 10) };
    assert!(!world.check_wf());
}
