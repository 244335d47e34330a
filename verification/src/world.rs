//! The world: owns the grid and the species list, drives population
//! spawning, per-step cleanup and the per-epoch ("moon") update.

pub mod grid;
pub mod species;

use vstd::prelude::*;
use vstd::pervasive::VecAdditionalExecFns;

use crate::train::CreatureAction;
use crate::util::MAX_DIM;
use crate::world::grid::Grid;
use crate::world::grid::Pos;
use crate::world::grid::Tile;
use crate::world::grid::count_in;
use crate::world::grid::grid_updated;
use crate::world::grid::is_creature_of;
use crate::world::grid::lemma_cells_to_flat;
use crate::world::grid::lemma_count_all;
use crate::world::grid::lemma_count_none;
use crate::world::grid::lemma_count_update;
use crate::world::grid::lemma_rm_bound;
use crate::world::grid::tile_count;
use crate::world::grid::tile_food;
use crate::world::grid::tile_species;
use crate::world::species::Species;
use crate::world::species::SpeciesConfig;
use crate::world::species::action_effect;
use crate::world::species::attacked_tile;
use crate::world::species::dead_member_cell;
use crate::world::species::lemma_surviving_congruent;
use crate::world::species::member_alive;
use crate::world::species::pos_ok;
use crate::world::species::step_x;
use crate::world::species::step_y;
use crate::world::species::surviving_members;

verus! {

/// Configuration the world is built from.
#[derive(Clone, Debug)]
pub struct SimConfig {
    /// Grid width in tiles.
    pub grid_width: usize,
    /// Grid height in tiles.
    pub grid_height: usize,
    /// Number of steps per moon.
    pub moon_len: usize,
    /// Number of bushes to spawn.
    pub num_food: usize,
    /// Chance that a given eaten bush stays eaten between moons, scaled
    /// linearly so that `u32::MAX` means it always stays eaten.
    pub chance_regrow: u32,
    /// List of species to include in the simulation.
    pub species: Vec<SpeciesConfig>,
}

/// The simulation world: the grid, the species list, the configuration
/// and the countdown of steps left in the current moon.
pub struct World {
    pub grid: Grid,
    pub species: Vec<Species>,
    pub time_left: usize,
    pub config: SimConfig,
}

/// Relies on `rand::random`: one draw from the thread-local generator.
/// Nothing is promised of the outcome.
#[verifier::external_body]
fn random_u32() -> u32 {
    rand::random::<u32>()
}

/// A draw below `n` from the thread-local generator.
fn random_below(n: usize) -> (r: usize)
    requires
        n > 0,
    ensures
        r < n,
{
    (random_u32() as usize) % n
}

/// `t2` is `t1`, except that seeding may have placed `placed` on an
/// empty cell.
pub open spec fn seeded_cell(t1: Tile, t2: Tile, placed: Tile) -> bool {
    t2 == t1 || (t1 == Tile::Empty && t2 == placed)
}

/// Seeding on empty cells with something other than `t` leaves the
/// count of `t` alone.
proof fn lemma_count_seeded(s1: Seq<Tile>, s2: Seq<Tile>, placed: Tile, t: Tile)
    requires
        s1.len() == s2.len(),
        forall|k: int|
            0 <= k < s1.len() ==> #[trigger] s2[k] == s1[k] || (s1[k] == Tile::Empty && s2[k]
                == placed),
        placed != t,
        t != Tile::Empty,
    ensures
        count_in(s2, t) == count_in(s1, t),
    decreases s1.len(),
{
    if s1.len() > 0 {
        assert(s2[s1.len() - 1] == s1[s1.len() - 1] || (s1[s1.len() - 1] == Tile::Empty && s2[s1.len()
            - 1] == placed));
        assert forall|k: int|
            0 <= k < s1.drop_last().len() implies #[trigger] s2.drop_last()[k]
            == s1.drop_last()[k] || (s1.drop_last()[k] == Tile::Empty && s2.drop_last()[k]
            == placed) by {
            assert(s2.drop_last()[k] == s2[k]);
            assert(s1.drop_last()[k] == s1[k]);
        }
        lemma_count_seeded(s1.drop_last(), s2.drop_last(), placed, t);
    }
}

/// `(ox, oy)` can seat a pack origin: in bounds, with the margin that
/// lets a 4-by-4 spawn footprint fit.
pub open spec fn pack_origin_ok(g: Grid, ox: int, oy: int) -> bool {
    0 <= ox && 0 <= oy && ox + 4 <= g.width && oy + 4 <= g.height
}

/// No cell of the 5-by-5 spawn box cornered at `(ox, oy)` is empty;
/// cells past the grid edge count as taken.
pub open spec fn spawn_box_full(g: Grid, ox: int, oy: int) -> bool {
    forall|x: int, y: int|
        ox <= x < ox + 5 && oy <= y < oy + 5 ==> #[trigger] g.spec_at(x, y) != Tile::Empty
}

/// Every cell that could seat a pack origin is already taken.
pub open spec fn origins_exhausted(g: Grid) -> bool {
    forall|ox: int, oy: int| pack_origin_ok(g, ox, oy) ==> #[trigger] g.spec_at(ox, oy) != Tile::Empty
}

/// The grid shows why spawning fell short: some reached spawn box filled
/// up, or no margin cell is free.
pub open spec fn spawn_failed(g: Grid) -> bool {
    ||| (exists|ox: int, oy: int|
        pack_origin_ok(g, ox, oy) && #[trigger] spawn_box_full(g, ox, oy))
    ||| origins_exhausted(g)
}

/// The spawn outcome for one species: the full configured roster, or the
/// grid itself witnesses that space ran out.
pub open spec fn spawn_outcome(g: Grid, placed_members: nat, sc: SpeciesConfig) -> bool {
    placed_members == sc.num_packs * sc.num_creatures || spawn_failed(g)
}

/// The cell `(x, y)` is listed in `sp`'s roster.
pub open spec fn rostered(sp: Species, x: int, y: int) -> bool {
    exists|k: int|
        0 <= k < sp.members@.len() && (#[trigger] sp.members@[k]).0 == x && sp.members@[k].1 == y
}

/// Occupied cells stay occupied under seeding, so a spawn-failure
/// witness persists.
proof fn lemma_spawn_failed_monotone(g1: Grid, g2: Grid)
    requires
        g1.width == g2.width,
        g1.height == g2.height,
        forall|x: int, y: int|
            g1.spec_at(x, y) != Tile::Empty ==> #[trigger] g2.spec_at(x, y) != Tile::Empty,
        spawn_failed(g1),
    ensures
        spawn_failed(g2),
{
    if exists|ox: int, oy: int| pack_origin_ok(g1, ox, oy) && #[trigger] spawn_box_full(g1, ox, oy) {
        let (ox, oy) = choose|ox: int, oy: int|
            pack_origin_ok(g1, ox, oy) && #[trigger] spawn_box_full(g1, ox, oy);
        assert forall|x: int, y: int|
            ox <= x < ox + 5 && oy <= y < oy + 5 implies #[trigger] g2.spec_at(x, y)
            != Tile::Empty by {
            assert(g1.spec_at(x, y) != Tile::Empty);
        }
        assert(spawn_box_full(g2, ox, oy));
        assert(pack_origin_ok(g2, ox, oy));
    } else {
        assert(origins_exhausted(g1));
        assert forall|ox: int, oy: int|
            pack_origin_ok(g2, ox, oy) implies #[trigger] g2.spec_at(ox, oy) != Tile::Empty by {
            assert(pack_origin_ok(g1, ox, oy));
            assert(g1.spec_at(ox, oy) != Tile::Empty);
        }
    }
}

/// Finds a pack origin — an empty cell with the 4-by-4 spawn margin — by
/// bounded random probing, then by scanning; fails only when every
/// margin cell is taken.
fn find_pack_origin(grid: &Grid) -> (r: Option<Pos>)
    requires
        grid.wf(),
        4 <= grid.width,
        4 <= grid.height,
    ensures
        match r {
            Some(o) => o.0 + 4 <= grid.width && o.1 + 4 <= grid.height && grid.spec_at(
                o.0 as int,
                o.1 as int,
            ) == Tile::Empty,
            None => origins_exhausted(*grid),
        },
{
    let mut attempts: usize = 0;
    while attempts < 64
        invariant
            grid.wf(),
            4 <= grid.width,
            4 <= grid.height,
        decreases 64 - attempts,
    {
        let cand = Pos(random_below(grid.width - 3), random_below(grid.height - 3));
        match grid.index(cand) {
            Tile::Empty => {
                return Some(cand);
            },
            _ => {},
        }
        attempts += 1;
    }
    let mut oy: usize = 0;
    while oy + 4 <= grid.height
        invariant
            grid.wf(),
            4 <= grid.width,
            4 <= grid.height,
            oy <= grid.height,
            forall|a: int, b: int|
                0 <= a && a + 4 <= grid.width && 0 <= b < oy ==> #[trigger] grid.spec_at(a, b)
                    != Tile::Empty,
        decreases grid.height - oy,
    {
        let mut ox: usize = 0;
        while ox + 4 <= grid.width
            invariant
                grid.wf(),
                4 <= grid.width,
                4 <= grid.height,
                ox <= grid.width,
                oy + 4 <= grid.height,
                forall|a: int, b: int|
                    0 <= a && a + 4 <= grid.width && 0 <= b < oy ==> #[trigger] grid.spec_at(a, b)
                        != Tile::Empty,
                forall|a: int|
                    0 <= a < ox ==> #[trigger] grid.spec_at(a, oy as int) != Tile::Empty,
            decreases grid.width - ox,
        {
            match grid.index(Pos(ox, oy)) {
                Tile::Empty => {
                    return Some(Pos(ox, oy));
                },
                _ => {},
            }
            ox += 1;
        }
        oy += 1;
    }
    None
}

/// Places one creature of species `id` on a free cell of the 5-by-5
/// spawn box cornered at `origin`: bounded random probes, then a scan of
/// the box; fails only when the box is full.
fn place_creature(grid: &mut Grid, origin: Pos, id: usize, color: u32) -> (r: Option<Pos>)
    requires
        old(grid).wf(),
        origin.0 + 4 <= old(grid).width,
        origin.1 + 4 <= old(grid).height,
    ensures
        final(grid).wf(),
        final(grid).width == old(grid).width,
        final(grid).height == old(grid).height,
        match r {
            Some(p) => {
                &&& origin.0 <= p.0 <= origin.0 + 4
                &&& origin.1 <= p.1 <= origin.1 + 4
                &&& p.0 < old(grid).width
                &&& p.1 < old(grid).height
                &&& old(grid).spec_at(p.0 as int, p.1 as int) == Tile::Empty
                &&& grid_updated(
                    *old(grid),
                    *final(grid),
                    p.0 as int,
                    p.1 as int,
                    (Tile::Creature { species: id, color, food: 0 }),
                )
                &&& final(grid).tiles@ == old(grid).tiles@.update(
                    p.1 * old(grid).width + p.0,
                    (Tile::Creature { species: id, color, food: 0 }),
                )
            },
            None => {
                &&& *final(grid) == *old(grid)
                &&& spawn_box_full(*old(grid), origin.0 as int, origin.1 as int)
            },
        },
{
    let ghost g0 = *grid;
    let creature = Tile::Creature { species: id, color, food: 0 };
    let mut tries: usize = 0;
    while tries < 64
        invariant
            grid.wf(),
            *grid == g0,
            g0 == *old(grid),
            creature == (Tile::Creature { species: id, color, food: 0 }),
            origin.0 + 4 <= grid.width,
            origin.1 + 4 <= grid.height,
        decreases 64 - tries,
    {
        let target = Pos(origin.0 + random_below(5), origin.1 + random_below(5));
        match grid.index(target) {
            Tile::Empty => {
                proof {
                    lemma_rm_bound(
                        target.0 as int,
                        target.1 as int,
                        grid.width as int,
                        grid.height as int,
                    );
                }
                grid.index_mut(target, creature);
                return Some(target);
            },
            _ => {},
        }
        tries += 1;
    }
    let mut dy: usize = 0;
    while dy < 5
        invariant
            grid.wf(),
            *grid == g0,
            g0 == *old(grid),
            creature == (Tile::Creature { species: id, color, food: 0 }),
            origin.0 + 4 <= grid.width,
            origin.1 + 4 <= grid.height,
            dy <= 5,
            forall|a: int, b: int|
                origin.0 <= a < origin.0 + 5 && origin.1 <= b < origin.1 + dy ==> #[trigger]
                grid.spec_at(a, b) != Tile::Empty,
        decreases 5 - dy,
    {
        let mut dx: usize = 0;
        while dx < 5
            invariant
                grid.wf(),
                *grid == g0,
                g0 == *old(grid),
                creature == (Tile::Creature { species: id, color, food: 0 }),
                origin.0 + 4 <= grid.width,
                origin.1 + 4 <= grid.height,
                dy < 5,
                dx <= 5,
                forall|a: int, b: int|
                    origin.0 <= a < origin.0 + 5 && origin.1 <= b < origin.1 + dy ==> #[trigger]
                    grid.spec_at(a, b) != Tile::Empty,
                forall|a: int|
                    origin.0 <= a < origin.0 + dx ==> #[trigger] grid.spec_at(a, origin.1 + dy)
                        != Tile::Empty,
            decreases 5 - dx,
        {
            let target = Pos(origin.0 + dx, origin.1 + dy);
            match grid.index(target) {
                Tile::Empty => {
                    proof {
                        lemma_rm_bound(
                            target.0 as int,
                            target.1 as int,
                            grid.width as int,
                            grid.height as int,
                        );
                    }
                    grid.index_mut(target, creature);
                    return Some(target);
                },
                _ => {},
            }
            dx += 1;
        }
        dy += 1;
    }
    None
}

/// Scatters one bush onto an empty cell: a bounded number of random
/// probes, then the first empty cell in scan order; a full grid is left
/// unchanged.
fn place_bush(grid: &mut Grid)
    requires
        old(grid).wf(),
        old(grid).width >= 1,
        old(grid).height >= 1,
    ensures
        final(grid).wf(),
        final(grid).width == old(grid).width,
        final(grid).height == old(grid).height,
        forall|x: int, y: int|
            seeded_cell(
                old(grid).spec_at(x, y),
                #[trigger] final(grid).spec_at(x, y),
                Tile::Bush(true),
            ),
        ({
            ||| (exists|k: int|
                0 <= k < old(grid).tiles@.len() && old(grid).tiles@[k] == Tile::Empty
                    && final(grid).tiles@ == old(grid).tiles@.update(k, Tile::Bush(true)))
            ||| (final(grid).tiles@ == old(grid).tiles@ && count_in(
                old(grid).tiles@,
                Tile::Empty,
            ) == 0)
        }),
{
    let ghost g0 = *grid;
    let mut attempts: usize = 0;
    while attempts < 64
        invariant
            grid.wf(),
            grid.width >= 1,
            grid.height >= 1,
            *grid == g0,
            g0 == *old(grid),
        decreases 64 - attempts,
    {
        let p = Pos(random_below(grid.width), random_below(grid.height));
        match grid.index(p) {
            Tile::Empty => {
                grid.index_mut(p, Tile::Bush(true));
                proof {
                    let kk = p.1 as int * g0.width as int + p.0 as int;
                    lemma_rm_bound(p.0 as int, p.1 as int, g0.width as int, g0.height as int);
                    assert(g0.tiles@[kk] == Tile::Empty);
                    assert(grid.tiles@ == g0.tiles@.update(kk, Tile::Bush(true)));
                }
                return ;
            },
            _ => {},
        }
        attempts += 1;
    }
    let mut y: usize = 0;
    while y < grid.height
        invariant
            grid.wf(),
            *grid == g0,
            g0 == *old(grid),
            y <= grid.height,
            forall|a: int, b: int|
                0 <= a < grid.width && 0 <= b < y ==> #[trigger] grid.spec_at(a, b)
                    != Tile::Empty,
        decreases grid.height - y,
    {
        let mut x: usize = 0;
        while x < grid.width
            invariant
                grid.wf(),
                *grid == g0,
                g0 == *old(grid),
                y < grid.height,
                x <= grid.width,
                forall|a: int, b: int|
                    0 <= a < grid.width && 0 <= b < y ==> #[trigger] grid.spec_at(a, b)
                        != Tile::Empty,
                forall|a: int|
                    0 <= a < x ==> #[trigger] grid.spec_at(a, y as int) != Tile::Empty,
            decreases grid.width - x,
        {
            match grid.index(Pos(x, y)) {
                Tile::Empty => {
                    grid.index_mut(Pos(x, y), Tile::Bush(true));
                    proof {
                        let kk = y as int * g0.width as int + x as int;
                        lemma_rm_bound(x as int, y as int, g0.width as int, g0.height as int);
                        assert(g0.tiles@[kk] == Tile::Empty);
                        assert(grid.tiles@ == g0.tiles@.update(kk, Tile::Bush(true)));
                    }
                    return ;
                },
                _ => {},
            }
            x += 1;
        }
        y += 1;
    }
    proof {
        lemma_cells_to_flat(*grid, Tile::Empty);
    }
}

impl World {
    /// Well-formedness: the grid is sound, and every species sits at its
    /// own index with a roster consistent against the grid.
    pub open spec fn wf(self) -> bool {
        &&& self.grid.wf()
        &&& forall|s: int|
            0 <= s < self.species@.len() ==> (#[trigger] self.species@[s]).id == s
                && self.species@[s].wf(self.grid)
    }

    /// Builds a world from `config`: an empty grid seeded with bushes,
    /// then each configured species spawned in packs of creatures.
    pub fn new(config: SimConfig) -> (r: World)
        requires
            4 <= config.grid_width <= MAX_DIM,
            4 <= config.grid_height <= MAX_DIM,
            config.num_food <= config.grid_width * config.grid_height,
        ensures
            r.wf(),
            tile_count(r.grid, Tile::Bush(true)) == config.num_food,
            r.config == config,
            r.time_left == config.moon_len,
            r.grid.width == config.grid_width,
            r.grid.height == config.grid_height,
            r.species@.len() == config.species@.len(),
            forall|s: int|
                0 <= s < config.species@.len() ==> (#[trigger] r.species@[s]).id == s
                    && r.species@[s].color == config.species@[s].color
                    && r.species@[s].members@.len() <= config.species@[s].num_packs
                    * config.species@[s].num_creatures,
            forall|x: int, y: int|
                0 <= x < config.grid_width && 0 <= y < config.grid_height ==> ((
                #[trigger] r.grid.spec_at(x, y)) == Tile::Empty || r.grid.spec_at(x, y)
                    == Tile::Bush(true) || (r.grid.spec_at(x, y) is Creature && tile_food(
                    r.grid.spec_at(x, y),
                ) == 0)),
            forall|s: int|
                0 <= s < config.species@.len() ==> spawn_outcome(
                    r.grid,
                    (#[trigger] r.species@[s]).members@.len(),
                    config.species@[s],
                ),
            forall|s: int, k: int|
                0 <= s < r.species@.len() && 0 <= k < r.species@[s].members@.len()
                    ==> r.grid.spec_at(
                    (#[trigger] r.species@[s].members@[k]).0 as int,
                    r.species@[s].members@[k].1 as int,
                ) == (Tile::Creature {
                    species: s as usize,
                    color: config.species@[s].color,
                    food: 0,
                }),
            forall|x: int, y: int|
                (#[trigger] r.grid.spec_at(x, y)) is Creature ==> tile_species(
                    r.grid.spec_at(x, y),
                ) < r.species@.len() && rostered(
                    r.species@[tile_species(r.grid.spec_at(x, y)) as int],
                    x,
                    y,
                ),
    {
        let mut grid = Grid::empty(config.grid_width, config.grid_height);
        proof {
            lemma_count_all(grid.tiles@, Tile::Empty);
            lemma_count_none(grid.tiles@, Tile::Bush(true));
        }
        let mut i: usize = 0;
        while i < config.num_food
            invariant
                grid.wf(),
                4 <= grid.width <= MAX_DIM,
                4 <= grid.height <= MAX_DIM,
                grid.width == config.grid_width,
                grid.height == config.grid_height,
                i <= config.num_food,
                config.num_food <= grid.width * grid.height,
                tile_count(grid, Tile::Bush(true)) == i,
                count_in(grid.tiles@, Tile::Empty) == grid.width * grid.height - i,
                forall|x: int, y: int|
                    0 <= x < grid.width && 0 <= y < grid.height ==> ((#[trigger] grid.spec_at(x, y))
                        == Tile::Empty || grid.spec_at(x, y) == Tile::Bush(true)),
            decreases config.num_food - i,
        {
            let ghost gprev = grid;
            place_bush(&mut grid);
            proof {
                if grid.tiles@ == gprev.tiles@ && count_in(gprev.tiles@, Tile::Empty) == 0 {
                    assert(false);
                } else {
                    let k = choose|k: int|
                        0 <= k < gprev.tiles@.len() && gprev.tiles@[k] == Tile::Empty
                            && grid.tiles@ == gprev.tiles@.update(k, Tile::Bush(true));
                    lemma_count_update(gprev.tiles@, k, Tile::Bush(true), Tile::Bush(true));
                    lemma_count_update(gprev.tiles@, k, Tile::Bush(true), Tile::Empty);
                }
            }
            i += 1;
        }
        let num_species = config.species.len();
        let mut w = World { grid, species: Vec::new(), time_left: config.moon_len, config };
        let mut s: usize = 0;
        while s < num_species
            invariant
                w.wf(),
                w.config == config,
                w.time_left == config.moon_len,
                num_species == w.config.species@.len(),
                s <= num_species,
                4 <= w.grid.width <= MAX_DIM,
                4 <= w.grid.height <= MAX_DIM,
                w.grid.width == w.config.grid_width,
                w.grid.height == w.config.grid_height,
                w.species@.len() == s,
                tile_count(w.grid, Tile::Bush(true)) == config.num_food,
                forall|t: int|
                    0 <= t < s ==> (#[trigger] w.species@[t]).id == t && w.species@[t].color
                        == w.config.species@[t].color && w.species@[t].members@.len()
                        <= w.config.species@[t].num_packs * w.config.species@[t].num_creatures,
                forall|t: int|
                    0 <= t < s ==> spawn_outcome(
                        w.grid,
                        (#[trigger] w.species@[t]).members@.len(),
                        w.config.species@[t],
                    ),
                forall|t: int, k: int|
                    0 <= t < s && 0 <= k < w.species@[t].members@.len() ==> w.grid.spec_at(
                        (#[trigger] w.species@[t].members@[k]).0 as int,
                        w.species@[t].members@[k].1 as int,
                    ) == (Tile::Creature {
                        species: t as usize,
                        color: w.config.species@[t].color,
                        food: 0,
                    }),
                forall|x: int, y: int|
                    (#[trigger] w.grid.spec_at(x, y)) is Creature ==> tile_species(
                        w.grid.spec_at(x, y),
                    ) < s && rostered(
                        w.species@[tile_species(w.grid.spec_at(x, y)) as int],
                        x,
                        y,
                    ),
                forall|x: int, y: int|
                    0 <= x < w.grid.width && 0 <= y < w.grid.height ==> ((#[trigger] w.grid.spec_at(
                        x,
                        y,
                    )) == Tile::Empty || w.grid.spec_at(x, y) == Tile::Bush(true) || (w.grid.spec_at(
                        x,
                        y,
                    ) is Creature && tile_food(w.grid.spec_at(x, y)) == 0)),
            decreases num_species - s,
        {
            let sc = w.config.species[s];
            let ghost gprev = w.grid;
            let ghost spprev = w.species@;
            w.add_species(sc);
            proof {
                let placed = Tile::Creature { species: s, color: sc.color, food: 0 };
                lemma_count_seeded(gprev.tiles@, w.grid.tiles@, placed, Tile::Bush(true));
                assert(w.species@.last() == w.species@[s as int]);
                // seeding never frees a cell
                assert forall|x: int, y: int|
                    gprev.spec_at(x, y) != Tile::Empty implies #[trigger] w.grid.spec_at(x, y)
                    != Tile::Empty by {
                    assert(seeded_cell(gprev.spec_at(x, y), w.grid.spec_at(x, y), placed));
                }
                // earlier spawn outcomes persist on the fuller grid
                assert forall|t: int|
                    0 <= t < s + 1 implies spawn_outcome(
                    w.grid,
                    (#[trigger] w.species@[t]).members@.len(),
                    w.config.species@[t],
                ) by {
                    if t < s {
                        assert(w.species@[t] == spprev[t]);
                        if spprev[t].members@.len() != w.config.species@[t].num_packs
                            * w.config.species@[t].num_creatures {
                            assert(spawn_failed(gprev));
                            lemma_spawn_failed_monotone(gprev, w.grid);
                        }
                    }
                }
                // member cells keep their species tile; the new roster's
                // cells carry it by construction
                assert forall|t: int, k: int|
                    0 <= t < s + 1 && 0 <= k < w.species@[t].members@.len() implies w.grid.spec_at(
                    (#[trigger] w.species@[t].members@[k]).0 as int,
                    w.species@[t].members@[k].1 as int,
                ) == (Tile::Creature {
                    species: t as usize,
                    color: w.config.species@[t].color,
                    food: 0,
                }) by {
                    let p = w.species@[t].members@[k];
                    if t < s {
                        assert(w.species@[t] == spprev[t]);
                        assert(gprev.spec_at(p.0 as int, p.1 as int) == (Tile::Creature {
                            species: t as usize,
                            color: w.config.species@[t].color,
                            food: 0,
                        }));
                        assert(seeded_cell(
                            gprev.spec_at(p.0 as int, p.1 as int),
                            w.grid.spec_at(p.0 as int, p.1 as int),
                            placed,
                        ));
                    }
                }
                // every creature cell is rostered by its species
                assert forall|x: int, y: int|
                    (#[trigger] w.grid.spec_at(x, y)) is Creature implies tile_species(
                    w.grid.spec_at(x, y),
                ) < s + 1 && rostered(
                    w.species@[tile_species(w.grid.spec_at(x, y)) as int],
                    x,
                    y,
                ) by {
                    if w.grid.spec_at(x, y) == gprev.spec_at(x, y) {
                        let t = tile_species(gprev.spec_at(x, y)) as int;
                        assert(w.species@[t] == spprev[t]);
                    } else {
                        assert(w.grid.spec_at(x, y) == placed);
                        assert(rostered(w.species@[s as int], x, y));
                    }
                }
            }
            s += 1;
        }
        w
    }

    /// Spawns one species: `num_packs` pack origins placed with a margin
    /// so the spawn footprint fits, each populated with `num_creatures`
    /// creatures on free cells of the 5-by-5 box at its origin, every
    /// creature registered in the new species' roster. The roster comes
    /// up short only when the grid itself ran out of room: some reached
    /// spawn box filled up, or no margin cell was free.
    fn add_species(&mut self, sc: SpeciesConfig)
        requires
            old(self).wf(),
            4 <= old(self).grid.width <= MAX_DIM,
            4 <= old(self).grid.height <= MAX_DIM,
        ensures
            final(self).wf(),
            final(self).config == old(self).config,
            final(self).time_left == old(self).time_left,
            final(self).grid.width == old(self).grid.width,
            final(self).grid.height == old(self).grid.height,
            final(self).species@.len() == old(self).species@.len() + 1,
            forall|t: int|
                0 <= t < old(self).species@.len() ==> #[trigger] final(self).species@[t] == old(
                    self,
                ).species@[t],
            final(self).species@.last().id == old(self).species@.len(),
            final(self).species@.last().color == sc.color,
            final(self).species@.last().members@.len() <= sc.num_packs * sc.num_creatures,
            spawn_outcome(final(self).grid, final(self).species@.last().members@.len(), sc),
            forall|k: int|
                0 <= k < final(self).species@.last().members@.len() ==> final(self).grid.spec_at(
                    (#[trigger] final(self).species@.last().members@[k]).0 as int,
                    final(self).species@.last().members@[k].1 as int,
                ) == (Tile::Creature {
                    species: old(self).species@.len() as usize,
                    color: sc.color,
                    food: 0,
                }),
            forall|x: int, y: int|
                #![trigger final(self).grid.spec_at(x, y)]
                final(self).grid.spec_at(x, y) != old(self).grid.spec_at(x, y)
                    ==> final(self).grid.spec_at(x, y) == (Tile::Creature {
                    species: old(self).species@.len() as usize,
                    color: sc.color,
                    food: 0,
                }) && rostered(final(self).species@.last(), x, y),
            forall|x: int, y: int|
                seeded_cell(
                    old(self).grid.spec_at(x, y),
                    #[trigger] final(self).grid.spec_at(x, y),
                    Tile::Creature {
                        species: old(self).species@.len() as usize,
                        color: sc.color,
                        food: 0,
                    },
                ),
            final(self).grid.tiles@.len() == old(self).grid.tiles@.len(),
            forall|k: int|
                0 <= k < old(self).grid.tiles@.len() ==> #[trigger] final(self).grid.tiles@[k]
                    == old(self).grid.tiles@[k] || (old(self).grid.tiles@[k] == Tile::Empty
                    && final(self).grid.tiles@[k] == (Tile::Creature {
                    species: old(self).species@.len() as usize,
                    color: sc.color,
                    food: 0,
                })),
    {
        let ghost g0 = self.grid;
        let ghost sp0 = self.species@;
        let ghost cfg0 = self.config;
        let ghost tl0 = self.time_left;
        let id = self.species.len();
        let ghost placed = Tile::Creature { species: id, color: sc.color, food: 0 };
        let mut sp = Species::new(id, sc.color);
        let ghost mut short = false;
        let mut p_i: usize = 0;
        while p_i < sc.num_packs
            invariant
                self.grid.wf(),
                4 <= self.grid.width <= MAX_DIM,
                4 <= self.grid.height <= MAX_DIM,
                self.grid.width == g0.width,
                self.grid.height == g0.height,
                self.species@ == sp0,
                self.config == cfg0,
                self.time_left == tl0,
                id == sp0.len(),
                placed == (Tile::Creature { species: id, color: sc.color, food: 0 }),
                sp.id == id,
                sp.color == sc.color,
                sp.wf(self.grid),
                p_i <= sc.num_packs,
                sp.members@.len() <= p_i * sc.num_creatures,
                !short ==> sp.members@.len() == p_i * sc.num_creatures,
                short ==> spawn_failed(self.grid),
                forall|k: int|
                    0 <= k < sp.members@.len() ==> self.grid.spec_at(
                        (#[trigger] sp.members@[k]).0 as int,
                        sp.members@[k].1 as int,
                    ) == placed,
                forall|x: int, y: int|
                    #![trigger self.grid.spec_at(x, y)]
                    self.grid.spec_at(x, y) != g0.spec_at(x, y) ==> self.grid.spec_at(x, y)
                        == placed && rostered(sp, x, y),
                forall|x: int, y: int|
                    seeded_cell(g0.spec_at(x, y), #[trigger] self.grid.spec_at(x, y), placed),
                self.grid.tiles@.len() == g0.tiles@.len(),
                forall|k: int|
                    0 <= k < g0.tiles@.len() ==> #[trigger] self.grid.tiles@[k] == g0.tiles@[k]
                        || (g0.tiles@[k] == Tile::Empty && self.grid.tiles@[k] == placed),
            decreases sc.num_packs - p_i,
        {
            let ghost members_at_pack = sp.members@.len();
            match find_pack_origin(&self.grid) {
                None => {
                    proof {
                        short = true;
                        assert((p_i + 1) * sc.num_creatures >= p_i * sc.num_creatures)
                            by (nonlinear_arith);
                    }
                },
                Some(origin) => {
                    let mut pack_ok = true;
                    let mut c_i: usize = 0;
                    while c_i < sc.num_creatures
                        invariant
                            self.grid.wf(),
                            4 <= self.grid.width <= MAX_DIM,
                            4 <= self.grid.height <= MAX_DIM,
                            self.grid.width == g0.width,
                            self.grid.height == g0.height,
                            self.species@ == sp0,
                            self.config == cfg0,
                            self.time_left == tl0,
                            origin.0 + 4 <= self.grid.width,
                            origin.1 + 4 <= self.grid.height,
                            id == sp0.len(),
                            placed == (Tile::Creature { species: id, color: sc.color, food: 0 }),
                            sp.id == id,
                            sp.color == sc.color,
                            sp.wf(self.grid),
                            c_i <= sc.num_creatures,
                            members_at_pack <= p_i * sc.num_creatures,
                            !short ==> members_at_pack == p_i * sc.num_creatures,
                            sp.members@.len() <= members_at_pack + c_i,
                            pack_ok ==> sp.members@.len() == members_at_pack + c_i,
                            !pack_ok ==> short,
                            short ==> spawn_failed(self.grid),
                            forall|k: int|
                                0 <= k < sp.members@.len() ==> self.grid.spec_at(
                                    (#[trigger] sp.members@[k]).0 as int,
                                    sp.members@[k].1 as int,
                                ) == placed,
                            forall|x: int, y: int|
                                #![trigger self.grid.spec_at(x, y)]
                                self.grid.spec_at(x, y) != g0.spec_at(x, y) ==> self.grid.spec_at(
                                    x,
                                    y,
                                ) == placed && rostered(sp, x, y),
                            forall|x: int, y: int|
                                seeded_cell(
                                    g0.spec_at(x, y),
                                    #[trigger] self.grid.spec_at(x, y),
                                    placed,
                                ),
                            self.grid.tiles@.len() == g0.tiles@.len(),
                            forall|k: int|
                                0 <= k < g0.tiles@.len() ==> #[trigger] self.grid.tiles@[k]
                                    == g0.tiles@[k] || (g0.tiles@[k] == Tile::Empty
                                    && self.grid.tiles@[k] == placed),
                        decreases sc.num_creatures - c_i,
                    {
                        if pack_ok {
                            let ghost gp = self.grid;
                            let ghost m_pre = sp.members@;
                            match place_creature(&mut self.grid, origin, id, sc.color) {
                                None => {
                                    pack_ok = false;
                                    proof {
                                        short = true;
                                        assert(pack_origin_ok(
                                            self.grid,
                                            origin.0 as int,
                                            origin.1 as int,
                                        ));
                                        assert(spawn_failed(self.grid));
                                    }
                                },
                                Some(target) => {
                                    proof {
                                        let kk = target.1 as int * gp.width as int
                                            + target.0 as int;
                                        lemma_rm_bound(
                                            target.0 as int,
                                            target.1 as int,
                                            gp.width as int,
                                            gp.height as int,
                                        );
                                        assert(gp.tiles@[kk] == Tile::Empty);
                                        assert(self.grid.tiles@ == gp.tiles@.update(kk, placed));
                                        // a short-spawn witness survives one more placement
                                        if short {
                                            assert forall|x: int, y: int|
                                                gp.spec_at(x, y) != Tile::Empty implies #[trigger]
                                            self.grid.spec_at(x, y) != Tile::Empty by {
                                                if !(x == target.0 as int && y
                                                    == target.1 as int) {
                                                    assert(self.grid.spec_at(x, y) == gp.spec_at(
                                                        x,
                                                        y,
                                                    ));
                                                }
                                            }
                                            lemma_spawn_failed_monotone(gp, self.grid);
                                        }
                                        // existing members sit on untouched cells
                                        assert forall|k: int|
                                            0 <= k < sp.members@.len() implies self.grid.spec_at(
                                            (#[trigger] sp.members@[k]).0 as int,
                                            sp.members@[k].1 as int,
                                        ) == placed by {
                                            let p = sp.members@[k];
                                            assert(gp.spec_at(p.0 as int, p.1 as int) == placed);
                                            assert(!(p.0 == target.0 && p.1 == target.1));
                                        }
                                    }
                                    sp.members.push(target);
                                    proof {
                                        assert forall|k: int|
                                            0 <= k < sp.members@.len() implies pos_ok(
                                            self.grid,
                                            id,
                                            #[trigger] sp.members@[k],
                                        ) by {
                                            assert(self.grid.spec_at(
                                                sp.members@[k].0 as int,
                                                sp.members@[k].1 as int,
                                            ) == placed);
                                        }
                                        assert forall|a: int, b: int|
                                            0 <= a < b < sp.members@.len() implies sp.members@[a]
                                            != sp.members@[b] by {
                                            if b == sp.members@.len() - 1 {
                                                assert(gp.spec_at(
                                                    (sp.members@[a]).0 as int,
                                                    sp.members@[a].1 as int,
                                                ) == placed);
                                            }
                                        }
                                        assert forall|x: int, y: int|
                                            #![trigger self.grid.spec_at(x, y)]
                                            self.grid.spec_at(x, y) != g0.spec_at(x, y) implies
                                        self.grid.spec_at(x, y) == placed && rostered(
                                            sp,
                                            x,
                                            y,
                                        ) by {
                                            if x == target.0 as int && y == target.1 as int {
                                                assert(sp.members@[sp.members@.len() - 1]
                                                    == target);
                                            } else {
                                                assert(self.grid.spec_at(x, y) == gp.spec_at(
                                                    x,
                                                    y,
                                                ));
                                                if gp.spec_at(x, y) != g0.spec_at(x, y) {
                                                    let k = choose|k: int|
                                                        0 <= k < m_pre.len() && (
                                                        #[trigger] m_pre[k]).0 == x && m_pre[k].1
                                                            == y;
                                                    assert(sp.members@[k] == m_pre[k]);
                                                }
                                            }
                                        }
                                    }
                                },
                            }
                        }
                        c_i += 1;
                    }
                    proof {
                        assert((p_i + 1) * sc.num_creatures == p_i * sc.num_creatures
                            + sc.num_creatures) by (nonlinear_arith);
                    }
                },
            }
            p_i += 1;
        }
        self.species.push(sp);
        proof {
            assert(self.species@.last() == sp);
            assert forall|t: int|
                0 <= t < sp0.len() implies (#[trigger] self.species@[t]).id == t
                    && self.species@[t].wf(self.grid) by {
                assert(self.species@[t] == sp0[t]);
                assert(sp0[t].wf(g0));
                assert forall|k: int|
                    0 <= k < sp0[t].members@.len() implies pos_ok(
                    self.grid,
                    sp0[t].id,
                    #[trigger] sp0[t].members@[k],
                ) by {
                    let p = sp0[t].members@[k];
                    assert(pos_ok(g0, sp0[t].id, p));
                    assert(seeded_cell(
                        g0.spec_at(p.0 as int, p.1 as int),
                        self.grid.spec_at(p.0 as int, p.1 as int),
                        placed,
                    ));
                }
            }
            assert(sp.members@.len() <= sc.num_packs * sc.num_creatures);
            assert(spawn_outcome(self.grid, sp.members@.len(), sc));
        }
    }
}

/// `(x, y)` is a dead member cell (food below `min_food`, or desynced) of
/// one of the first `upto` species.
pub open spec fn dead_cell_among(
    sps: Seq<Species>,
    upto: int,
    g: Grid,
    min_food: int,
    x: int,
    y: int,
) -> bool {
    exists|s: int|
        0 <= s < upto && dead_member_cell((#[trigger] sps[s]).members@, g, sps[s].id, min_food, x, y)
}

/// `(x, y)` is the cell of some member of some species of `w` that is
/// not alive at food threshold `min_food`.
pub open spec fn world_dead_cell(w: World, min_food: int, x: int, y: int) -> bool {
    dead_cell_among(w.species@, w.species@.len() as int, w.grid, min_food, x, y)
}

/// One cell after the epoch's environmental update: an eaten bush may
/// have regrown, a creature pays two food, anything else is unchanged.
pub open spec fn moon_cell(t1: Tile, t2: Tile) -> bool {
    match t1 {
        Tile::Bush(has_food) => if has_food {
            t2 == t1
        } else {
            t2 == Tile::Bush(false) || t2 == Tile::Bush(true)
        },
        Tile::Creature { species, color, food } => t2 == (Tile::Creature {
            species,
            color,
            food: (food - 2) as isize,
        }),
        _ => t2 == t1,
    }
}

/// Every creature's food counter can absorb the epoch decay without
/// wrapping.
pub open spec fn decay_safe(g: Grid) -> bool {
    forall|x: int, y: int|
        (#[trigger] g.spec_at(x, y)) is Creature ==> tile_food(g.spec_at(x, y)) >= isize::MIN + 2
}

/// Pointwise effect of a full moon update on world `w0` yielding grid
/// `g2`: members dead after decay have their cells cleared; every other
/// cell evolves by `moon_cell`.
pub open spec fn moon_grid_ok(w0: World, g2: Grid) -> bool {
    forall|x: int, y: int|
        #![trigger g2.spec_at(x, y)]
        if world_dead_cell(w0, 2, x, y) {
            g2.spec_at(x, y) == Tile::Empty
        } else {
            moon_cell(w0.grid.spec_at(x, y), g2.spec_at(x, y))
        }
}

impl World {
    /// Per-step cleanup: every species removes, in one reverse-index
    /// pass, the members whose creature died (food below zero) or
    /// desynced this step, clearing their cells.
    pub fn finish_step(&mut self)
        requires
            old(self).wf(),
        ensures
            final(self).wf(),
            final(self).config == old(self).config,
            final(self).time_left == old(self).time_left,
            final(self).grid.width == old(self).grid.width,
            final(self).grid.height == old(self).grid.height,
            final(self).species@.len() == old(self).species@.len(),
            forall|s: int|
                0 <= s < old(self).species@.len() ==> {
                    &&& (#[trigger] final(self).species@[s]).id == old(self).species@[s].id
                    &&& final(self).species@[s].color == old(self).species@[s].color
                    &&& final(self).species@[s].members@ == surviving_members(
                        old(self).species@[s].members@,
                        old(self).grid,
                        old(self).species@[s].id,
                        0,
                    )
                },
            forall|x: int, y: int| #[trigger]
                final(self).grid.spec_at(x, y) == (if world_dead_cell(*old(self), 0, x, y) {
                    Tile::Empty
                } else {
                    old(self).grid.spec_at(x, y)
                }),
    {
        let ghost g0 = self.grid;
        let ghost sp0 = self.species@;
        let ghost cfg0 = self.config;
        let ghost tl0 = self.time_left;
        let n = self.species.len();
        let mut s: usize = 0;
        while s < n
            invariant
                self.grid.wf(),
                self.grid.width == g0.width,
                self.grid.height == g0.height,
                self.config == cfg0,
                self.time_left == tl0,
                s <= n,
                n == sp0.len(),
                self.species@.len() == n,
                g0.wf(),
                forall|t: int| 0 <= t < n ==> (#[trigger] sp0[t]).id == t && sp0[t].wf(g0),
                forall|t: int| s <= t < n ==> #[trigger] self.species@[t] == sp0[t],
                forall|t: int|
                    0 <= t < s ==> (#[trigger] self.species@[t]).id == sp0[t].id
                        && self.species@[t].color == sp0[t].color && self.species@[t].members@
                        == surviving_members(sp0[t].members@, g0, sp0[t].id, 0),
                forall|t: int| 0 <= t < n ==> (#[trigger] self.species@[t]).wf(self.grid),
                forall|x: int, y: int| #[trigger]
                    self.grid.spec_at(x, y) == (if dead_cell_among(sp0, s as int, g0, 0, x, y) {
                        Tile::Empty
                    } else {
                        g0.spec_at(x, y)
                    }),
            decreases n - s,
        {
            let ghost gs = self.grid;
            let ghost sps_pre = self.species@;
            let ghost m_s = sp0[s as int].members@;
            let ghost sid = sp0[s as int].id;
            let mut sp = Species { id: 0, color: 0, members: Vec::new() };
            self.species.set_and_swap(s, &mut sp);
            proof {
                assert(sp == sp0[s as int]);
                assert(sp.wf(gs));
                assert(sid == s as int);
                // this species' member cells are untouched so far: earlier
                // dead cells held creatures of earlier species
                assert forall|k: int|
                    0 <= k < m_s.len() implies member_alive(gs, sid, #[trigger] m_s[k], 0)
                    == member_alive(g0, sid, m_s[k], 0) by {
                    let p = m_s[k];
                    assert(pos_ok(g0, sid, p));
                    assert(gs.spec_at(p.0 as int, p.1 as int) == g0.spec_at(
                        p.0 as int,
                        p.1 as int,
                    )) by {
                        if dead_cell_among(sp0, s as int, g0, 0, p.0 as int, p.1 as int) {
                            let t = choose|t: int|
                                0 <= t < s as int && dead_member_cell(
                                    (#[trigger] sp0[t]).members@,
                                    g0,
                                    sp0[t].id,
                                    0,
                                    p.0 as int,
                                    p.1 as int,
                                );
                            let k2 = choose|k2: int|
                                0 <= k2 < sp0[t].members@.len() && (#[trigger] sp0[t].members@[k2]).0
                                    == p.0 as int && sp0[t].members@[k2].1 == p.1 as int
                                    && !member_alive(g0, sp0[t].id, sp0[t].members@[k2], 0);
                            assert(pos_ok(g0, sp0[t].id, sp0[t].members@[k2]));
                            assert(is_creature_of(g0.spec_at(p.0 as int, p.1 as int), sp0[t].id));
                            assert(is_creature_of(g0.spec_at(p.0 as int, p.1 as int), sid));
                            assert(false);
                        }
                    }
                }
            }
            sp.cleanup(&mut self.grid);
            let ghost spc = sp;
            self.species.set_and_swap(s, &mut sp);
            proof {
                let g2 = self.grid;
                assert(self.species@ =~= sps_pre.update(s as int, spc));
                lemma_surviving_congruent(m_s, gs, sid, 0, g0, sid, 0);
                assert(spc.members@ == surviving_members(m_s, g0, sid, 0));
                // compose the dead-cell clearings of the species so far
                assert forall|x: int, y: int| #[trigger]
                    g2.spec_at(x, y) == (if dead_cell_among(sp0, s as int + 1, g0, 0, x, y) {
                        Tile::Empty
                    } else {
                        g0.spec_at(x, y)
                    }) by {
                    if dead_member_cell(m_s, gs, sid, 0, x, y) {
                        assert(g2.spec_at(x, y) == Tile::Empty);
                        let k2 = choose|k2: int|
                            0 <= k2 < m_s.len() && (#[trigger] m_s[k2]).0 == x && m_s[k2].1 == y
                                && !member_alive(gs, sid, m_s[k2], 0);
                        assert(!member_alive(g0, sid, m_s[k2], 0));
                        assert(dead_member_cell(m_s, g0, sid, 0, x, y));
                        assert(dead_cell_among(sp0, s as int + 1, g0, 0, x, y));
                    } else {
                        assert(g2.spec_at(x, y) == gs.spec_at(x, y));
                        if dead_cell_among(sp0, s as int, g0, 0, x, y) {
                            assert(gs.spec_at(x, y) == Tile::Empty);
                            let t = choose|t: int|
                                0 <= t < s as int && dead_member_cell(
                                    (#[trigger] sp0[t]).members@,
                                    g0,
                                    sp0[t].id,
                                    0,
                                    x,
                                    y,
                                );
                            assert(dead_cell_among(sp0, s as int + 1, g0, 0, x, y));
                        } else {
                            assert(gs.spec_at(x, y) == g0.spec_at(x, y));
                            if dead_cell_among(sp0, s as int + 1, g0, 0, x, y) {
                                let t = choose|t: int|
                                    0 <= t < s as int + 1 && dead_member_cell(
                                        (#[trigger] sp0[t]).members@,
                                        g0,
                                        sp0[t].id,
                                        0,
                                        x,
                                        y,
                                    );
                                assert(t == s as int);
                                let k2 = choose|k2: int|
                                    0 <= k2 < m_s.len() && (#[trigger] m_s[k2]).0 == x && m_s[k2].1
                                        == y && !member_alive(g0, sid, m_s[k2], 0);
                                assert(!member_alive(gs, sid, m_s[k2], 0));
                                assert(dead_member_cell(m_s, gs, sid, 0, x, y));
                                assert(false);
                            }
                        }
                    }
                }
                // every roster stays consistent with the partly cleaned grid
                assert forall|t: int|
                    0 <= t < n implies (#[trigger] self.species@[t]).wf(self.grid) by {
                    if t == s as int {
                        assert(self.species@[t] == spc);
                    } else {
                        let spt = self.species@[t];
                        assert(spt == sps_pre[t]);
                        assert(spt.wf(gs));
                        assert(spt.id == t);
                        assert forall|k: int|
                            0 <= k < spt.members@.len() implies pos_ok(
                            self.grid,
                            spt.id,
                            #[trigger] spt.members@[k],
                        ) by {
                            let p = spt.members@[k];
                            assert(pos_ok(gs, spt.id, p));
                            assert(g2.spec_at(p.0 as int, p.1 as int) == gs.spec_at(
                                p.0 as int,
                                p.1 as int,
                            )) by {
                                if dead_member_cell(m_s, gs, sid, 0, p.0 as int, p.1 as int) {
                                    let k2 = choose|k2: int|
                                        0 <= k2 < m_s.len() && (#[trigger] m_s[k2]).0 == p.0 as int
                                            && m_s[k2].1 == p.1 as int && !member_alive(
                                            gs,
                                            sid,
                                            m_s[k2],
                                            0,
                                        );
                                    assert(pos_ok(gs, sid, m_s[k2]));
                                    assert(is_creature_of(
                                        gs.spec_at(p.0 as int, p.1 as int),
                                        sid,
                                    ));
                                    assert(is_creature_of(
                                        gs.spec_at(p.0 as int, p.1 as int),
                                        spt.id,
                                    ));
                                    assert(false);
                                }
                            }
                        }
                    }
                }
            }
            s += 1;
        }
    }

    /// Epoch-end ("moon") update: every creature pays a metabolic decay
    /// of two food, every eaten bush independently regrows with
    /// probability `1 - chance_regrow`, then cleanup removes the starved.
    pub fn finish_moon(&mut self)
        requires
            old(self).wf(),
            decay_safe(old(self).grid),
        ensures
            final(self).wf(),
            final(self).config == old(self).config,
            final(self).time_left == old(self).time_left,
            final(self).grid.width == old(self).grid.width,
            final(self).grid.height == old(self).grid.height,
            final(self).species@.len() == old(self).species@.len(),
            forall|s: int|
                0 <= s < old(self).species@.len() ==> {
                    &&& (#[trigger] final(self).species@[s]).id == old(self).species@[s].id
                    &&& final(self).species@[s].color == old(self).species@[s].color
                    &&& final(self).species@[s].members@ == surviving_members(
                        old(self).species@[s].members@,
                        old(self).grid,
                        old(self).species@[s].id,
                        2,
                    )
                },
            moon_grid_ok(*old(self), final(self).grid),
    {
        let ghost g0 = self.grid;
        let ghost sp0 = self.species@;
        let ghost cfg0 = self.config;
        let ghost tl0 = self.time_left;
        let chance = self.config.chance_regrow;
        let w = self.grid.width;
        let h = self.grid.height;
        let mut y: usize = 0;
        while y < h
            invariant
                self.grid.wf(),
                self.grid.width == w,
                self.grid.height == h,
                w == g0.width,
                h == g0.height,
                self.species@ == sp0,
                self.config == cfg0,
                self.time_left == tl0,
                g0.wf(),
                decay_safe(g0),
                y <= h,
                forall|t: int| 0 <= t < sp0.len() ==> (#[trigger] sp0[t]).id == t && sp0[t].wf(g0),
                forall|a: int, b: int|
                    #![trigger self.grid.spec_at(a, b)]
                    0 <= a < w && 0 <= b < h ==> (if b < y {
                        moon_cell(g0.spec_at(a, b), self.grid.spec_at(a, b))
                    } else {
                        self.grid.spec_at(a, b) == g0.spec_at(a, b)
                    }),
            decreases h - y,
        {
            let mut x: usize = 0;
            while x < w
                invariant
                    self.grid.wf(),
                    self.grid.width == w,
                    self.grid.height == h,
                    w == g0.width,
                    h == g0.height,
                    self.species@ == sp0,
                    self.config == cfg0,
                    self.time_left == tl0,
                    g0.wf(),
                    decay_safe(g0),
                    y < h,
                    x <= w,
                    forall|a: int, b: int|
                        #![trigger self.grid.spec_at(a, b)]
                        0 <= a < w && 0 <= b < h ==> (if b < y || (b == y && a < x) {
                            moon_cell(g0.spec_at(a, b), self.grid.spec_at(a, b))
                        } else {
                            self.grid.spec_at(a, b) == g0.spec_at(a, b)
                        }),
                decreases w - x,
            {
                let p = Pos(x, y);
                let ghost gp = self.grid;
                match self.grid.index(p) {
                    Tile::Bush(has_food) => {
                        if !has_food {
                            if random_u32() > chance {
                                self.grid.index_mut(p, Tile::Bush(true));
                            }
                        }
                    },
                    Tile::Creature { species, color, food } => {
                        proof {
                            assert(g0.spec_at(x as int, y as int) is Creature);
                            assert(food >= isize::MIN + 2);
                        }
                        self.grid.index_mut(p, Tile::Creature { species, color, food: food - 2 });
                    },
                    _ => {},
                }
                proof {
                    assert(moon_cell(
                        g0.spec_at(x as int, y as int),
                        self.grid.spec_at(x as int, y as int),
                    ));
                    assert forall|a: int, b: int|
                        #![trigger self.grid.spec_at(a, b)]
                        0 <= a < w && 0 <= b < h implies (if b < y || (b == y && a < x + 1) {
                        moon_cell(g0.spec_at(a, b), self.grid.spec_at(a, b))
                    } else {
                        self.grid.spec_at(a, b) == g0.spec_at(a, b)
                    }) by {
                        if !(a == x && b == y) {
                            assert(self.grid.spec_at(a, b) == gp.spec_at(a, b));
                        }
                    }
                }
                x += 1;
            }
            y += 1;
        }
        let ghost g1 = self.grid;
        proof {
            // decay keeps every roster consistent: creatures stay creatures
            assert forall|t: int|
                0 <= t < sp0.len() implies (#[trigger] self.species@[t]).wf(self.grid) by {
                let spt = sp0[t];
                assert(spt.wf(g0));
                assert forall|k: int|
                    0 <= k < spt.members@.len() implies pos_ok(
                    g1,
                    spt.id,
                    #[trigger] spt.members@[k],
                ) by {
                    let p = spt.members@[k];
                    assert(pos_ok(g0, spt.id, p));
                    assert(moon_cell(
                        g0.spec_at(p.0 as int, p.1 as int),
                        g1.spec_at(p.0 as int, p.1 as int),
                    ));
                }
            }
        }
        let ghost w1 = *self;
        self.finish_step();
        proof {
            let g2 = self.grid;
            // life after decay at threshold zero is life before at two
            assert forall|s: int|
                0 <= s < sp0.len() implies #[trigger] self.species@[s].members@
                == surviving_members(sp0[s].members@, g0, sp0[s].id, 2) by {
                let m_t = sp0[s].members@;
                let sid = sp0[s].id;
                assert(self.species@[s].members@ == surviving_members(m_t, g1, sid, 0));
                assert forall|k: int|
                    0 <= k < m_t.len() implies member_alive(g1, sid, #[trigger] m_t[k], 0)
                    == member_alive(g0, sid, m_t[k], 2) by {
                    let p = m_t[k];
                    assert(pos_ok(g0, sid, p));
                    assert(moon_cell(
                        g0.spec_at(p.0 as int, p.1 as int),
                        g1.spec_at(p.0 as int, p.1 as int),
                    ));
                    assert(tile_food(g0.spec_at(p.0 as int, p.1 as int)) >= isize::MIN + 2);
                }
                lemma_surviving_congruent(m_t, g1, sid, 0, g0, sid, 2);
            }
            // the final grid realizes the moon update on the old world
            assert forall|x: int, y: int|
                #![trigger g2.spec_at(x, y)]
                if world_dead_cell(*old(self), 2, x, y) {
                    g2.spec_at(x, y) == Tile::Empty
                } else {
                    moon_cell(old(self).grid.spec_at(x, y), g2.spec_at(x, y))
                } by {
                if world_dead_cell(*old(self), 2, x, y) {
                    let t = choose|t: int|
                        0 <= t < sp0.len() && dead_member_cell(
                            (#[trigger] sp0[t]).members@,
                            g0,
                            sp0[t].id,
                            2,
                            x,
                            y,
                        );
                    let k2 = choose|k2: int|
                        0 <= k2 < sp0[t].members@.len() && (#[trigger] sp0[t].members@[k2]).0 == x
                            && sp0[t].members@[k2].1 == y && !member_alive(
                            g0,
                            sp0[t].id,
                            sp0[t].members@[k2],
                            2,
                        );
                    let p = sp0[t].members@[k2];
                    assert(pos_ok(g0, sp0[t].id, p));
                    assert(moon_cell(
                        g0.spec_at(p.0 as int, p.1 as int),
                        g1.spec_at(p.0 as int, p.1 as int),
                    ));
                    assert(tile_food(g0.spec_at(p.0 as int, p.1 as int)) >= isize::MIN + 2);
                    assert(!member_alive(g1, sp0[t].id, p, 0));
                    assert(dead_member_cell(sp0[t].members@, g1, sp0[t].id, 0, x, y));
                    assert(world_dead_cell(w1, 0, x, y));
                } else {
                    assert(!world_dead_cell(w1, 0, x, y)) by {
                        if world_dead_cell(w1, 0, x, y) {
                            let t = choose|t: int|
                                0 <= t < sp0.len() && dead_member_cell(
                                    (#[trigger] sp0[t]).members@,
                                    g1,
                                    sp0[t].id,
                                    0,
                                    x,
                                    y,
                                );
                            let k2 = choose|k2: int|
                                0 <= k2 < sp0[t].members@.len() && (#[trigger] sp0[t].members@[k2]).0
                                    == x && sp0[t].members@[k2].1 == y && !member_alive(
                                    g1,
                                    sp0[t].id,
                                    sp0[t].members@[k2],
                                    0,
                                );
                            let p = sp0[t].members@[k2];
                            assert(pos_ok(g0, sp0[t].id, p));
                            assert(moon_cell(
                                g0.spec_at(p.0 as int, p.1 as int),
                                g1.spec_at(p.0 as int, p.1 as int),
                            ));
                            assert(tile_food(g0.spec_at(p.0 as int, p.1 as int)) >= isize::MIN
                                + 2);
                            assert(!member_alive(g0, sp0[t].id, p, 2));
                            assert(dead_member_cell(sp0[t].members@, g0, sp0[t].id, 2, x, y));
                            assert(false);
                        }
                    }
                    assert(g2.spec_at(x, y) == g1.spec_at(x, y));
                    if 0 <= x < w && 0 <= y < h {
                        assert(moon_cell(g0.spec_at(x, y), g1.spec_at(x, y)));
                    } else {
                        assert(g0.spec_at(x, y) == Tile::OutOfBounds);
                        assert(g1.spec_at(x, y) == Tile::OutOfBounds);
                    }
                }
            }
        }
    }

    /// Applies one creature's action through its species: the single
    /// exclusive grid-mutation scope of this tick.
    pub fn step_action(&mut self, si: usize, ci: usize, action: CreatureAction)
        requires
            old(self).wf(),
            si < old(self).species@.len(),
            old(self).species@[si as int].action_applicable(old(self).grid, action, ci as int),
        ensures
            final(self).wf(),
            final(self).config == old(self).config,
            final(self).time_left == old(self).time_left,
            final(self).grid.width == old(self).grid.width,
            final(self).grid.height == old(self).grid.height,
            final(self).species@.len() == old(self).species@.len(),
            forall|t: int|
                0 <= t < old(self).species@.len() && t != si ==> #[trigger] final(self).species@[t]
                    == old(self).species@[t],
            action_effect(
                old(self).species@[si as int],
                old(self).grid,
                final(self).species@[si as int],
                final(self).grid,
                action,
                ci as int,
            ),
    {
        let ghost g0 = self.grid;
        let ghost sp0 = self.species@;
        let mut sp = Species { id: 0, color: 0, members: Vec::new() };
        self.species.set_and_swap(si, &mut sp);
        proof {
            assert(sp == sp0[si as int]);
            assert(sp.wf(g0));
        }
        sp.handle_action(&mut self.grid, action, ci);
        let ghost spc = sp;
        self.species.set_and_swap(si, &mut sp);
        proof {
            let g2 = self.grid;
            assert(self.species@ =~= sp0.update(si as int, spc));
            let pre = sp0[si as int];
            let src = pre.members@[ci as int];
            let sx = src.0 as int;
            let sy = src.1 as int;
            assert(pos_ok(g0, pre.id, src));
            // every other species' roster is untouched by this action
            assert forall|t: int|
                0 <= t < sp0.len() implies ((#[trigger] self.species@[t]).id == t
                && self.species@[t].wf(g2)) by {
                if t == si as int {
                    assert(self.species@[t] == spc);
                } else {
                    let spt = self.species@[t];
                    assert(spt == sp0[t]);
                    assert(spt.wf(g0));
                    assert forall|k: int|
                        0 <= k < spt.members@.len() implies pos_ok(
                        g2,
                        spt.id,
                        #[trigger] spt.members@[k],
                    ) by {
                        let p = spt.members@[k];
                        assert(pos_ok(g0, spt.id, p));
                        let px = p.0 as int;
                        let py = p.1 as int;
                        assert(!(px == sx && py == sy));
                        match action {
                            CreatureAction::DoNothing => {},
                            CreatureAction::Move(dx, dy) => {
                                assert(g0.spec_at(step_x(src, dx), step_y(src, dy))
                                    == Tile::Empty);
                                assert(!(px == step_x(src, dx) && py == step_y(src, dy)));
                                assert(g2.spec_at(px, py) == g0.spec_at(px, py));
                            },
                            CreatureAction::Attack(dx, dy) => {
                                let tx = step_x(src, dx);
                                let ty = step_y(src, dy);
                                let t0 = g0.spec_at(tx, ty);
                                if t0 == Tile::OutOfBounds {
                                } else if px == tx && py == ty {
                                    assert(g2.spec_at(px, py) == attacked_tile(t0));
                                } else {
                                    assert(g2.spec_at(px, py) == g0.spec_at(px, py));
                                }
                            },
                            CreatureAction::BuildWall(dx, dy) => {
                                assert(g0.spec_at(step_x(src, dx), step_y(src, dy))
                                    == Tile::Empty);
                                assert(!(px == step_x(src, dx) && py == step_y(src, dy)));
                                assert(g2.spec_at(px, py) == g0.spec_at(px, py));
                            },
                        }
                    }
                }
            }
        }
    }

    /// Runtime check of `wf`, for unverified drivers.
    pub fn check_wf(&self) -> (r: bool)
        ensures
            r == self.wf(),
    {
        if !self.grid.check_wf() {
            return false;
        }
        let n = self.species.len();
        let mut s: usize = 0;
        while s < n
            invariant
                self.grid.wf(),
                n == self.species@.len(),
                s <= n,
                forall|t: int|
                    0 <= t < s ==> (#[trigger] self.species@[t]).id == t && self.species@[t].wf(
                        self.grid,
                    ),
            decreases n - s,
        {
            if self.species[s].id != s {
                return false;
            }
            if !self.species[s].check_wf(&self.grid) {
                return false;
            }
            s += 1;
        }
        true
    }

    /// Whether every species' roster is empty: the terminal, stable
    /// condition on which the driving process may stop the simulation.
    pub fn all_extinct(&self) -> (r: bool)
        ensures
            r == (forall|s: int|
                0 <= s < self.species@.len() ==> (#[trigger] self.species@[s]).members@.len()
                    == 0),
    {
        let mut s: usize = 0;
        while s < self.species.len()
            invariant
                s <= self.species@.len(),
                forall|t: int|
                    0 <= t < s ==> (#[trigger] self.species@[t]).members@.len() == 0,
            decreases self.species@.len() - s,
        {
            if self.species[s].members.len() > 0 {
                proof {
                    assert(self.species@[s as int].members@.len() != 0);
                }
                return false;
            }
            s += 1;
        }
        true
    }
}

} // verus!
