//! A species: a roster of creature positions sharing identity, and the
//! sole mutator of grid cells on behalf of its members.

use vstd::prelude::*;
use vstd::pervasive::VecAdditionalExecFns;

use crate::train::CreatureAction;
use crate::train::dir_ok;
use crate::train::dir_ok_exec;
use crate::util::MAX_DIM;
use crate::world::grid::Grid;
use crate::world::grid::IPos;
use crate::world::grid::Pos;
use crate::world::grid::Tile;
use crate::world::grid::grid_updated2;
use crate::world::grid::is_creature_of;
use crate::world::grid::tile_color;
use crate::world::grid::tile_food;
use crate::world::grid::tile_species;

verus! {

/// Seed description of one species: its tint and initial population shape.
#[derive(Clone, Copy, PartialEq, Eq, Structural, Debug)]
pub struct SpeciesConfig {
    /// Color of creatures.
    pub color: u32,
    /// Number of creatures in a pack.
    pub num_creatures: usize,
    /// Number of packs.
    pub num_packs: usize,
}

/// A roster of creature positions sharing one identity. `members` is
/// index-aligned with external per-creature decision state and its order
/// is stable within a step.
pub struct Species {
    /// Stable index into the world's species list.
    pub id: usize,
    /// Display color of this species' creatures.
    pub color: u32,
    /// Grid positions of the living members, in registration order.
    pub members: Vec<Pos>,
}

/// The cell at `p` is in bounds and holds a creature of species `id`.
pub open spec fn pos_ok(grid: Grid, id: usize, p: Pos) -> bool {
    &&& p.0 < grid.width
    &&& p.1 < grid.height
    &&& is_creature_of(grid.spec_at(p.0 as int, p.1 as int), id)
}

/// Signed x-coordinate one step from `p` in direction `dx`.
pub open spec fn step_x(p: Pos, dx: i8) -> int {
    p.0 + dx
}

/// Signed y-coordinate one step from `p` in direction `dy`.
pub open spec fn step_y(p: Pos, dy: i8) -> int {
    p.1 + dy
}

/// What an attacked tile becomes: a full bush is eaten, an eaten bush or
/// an empty cell floors to `Empty`, a wall is destroyed, a creature loses
/// one food, and the out-of-bounds sentinel is untouched.
pub open spec fn attacked_tile(t: Tile) -> Tile {
    match t {
        Tile::Empty => Tile::Empty,
        Tile::OutOfBounds => Tile::OutOfBounds,
        Tile::Bush(has_food) => if has_food {
            Tile::Bush(false)
        } else {
            Tile::Empty
        },
        Tile::Wall { .. } => Tile::Empty,
        Tile::Creature { species, color, food } => Tile::Creature {
            species,
            color,
            food: (food - 1) as isize,
        },
    }
}

/// Whether attacking `t` is a successful attack on a harvestable or
/// defeatable target, which pays the attacker one food.
pub open spec fn attack_gains(t: Tile) -> bool {
    t == Tile::Bush(true) || t is Wall || t is Creature
}

/// The cell at `p` holds a creature of species `id` with at least
/// `min_food` food.
pub open spec fn member_alive(grid: Grid, id: usize, p: Pos, min_food: int) -> bool {
    let t = grid.spec_at(p.0 as int, p.1 as int);
    is_creature_of(t, id) && tile_food(t) >= min_food
}

/// The roster that survives a cleanup pass against `grid` with food
/// threshold `min_food`: exactly the members whose cells still hold a
/// creature of the species with enough food, in their original order.
pub open spec fn surviving_members(m: Seq<Pos>, grid: Grid, id: usize, min_food: int) -> Seq<Pos>
    decreases m.len(),
{
    if m.len() == 0 {
        Seq::empty()
    } else {
        let rest = surviving_members(m.skip(1), grid, id, min_food);
        if member_alive(grid, id, m[0], min_food) {
            seq![m[0]] + rest
        } else {
            rest
        }
    }
}

/// `(x, y)` is the cell of a member of `m` (from index `from` on) that is
/// not alive at food threshold `min_food`.
pub open spec fn dead_member_cell_from(
    m: Seq<Pos>,
    from: int,
    grid: Grid,
    id: usize,
    min_food: int,
    x: int,
    y: int,
) -> bool {
    exists|k: int|
        from <= k < m.len() && (#[trigger] m[k]).0 == x && m[k].1 == y && !member_alive(
            grid,
            id,
            m[k],
            min_food,
        )
}

/// `(x, y)` is the cell of a member of `m` that is not alive at food
/// threshold `min_food`.
pub open spec fn dead_member_cell(
    m: Seq<Pos>,
    grid: Grid,
    id: usize,
    min_food: int,
    x: int,
    y: int,
) -> bool {
    dead_member_cell_from(m, 0, grid, id, min_food, x, y)
}

/// Peels the first remaining member off `surviving_members` of a suffix.
proof fn lemma_surviving_unfold(m: Seq<Pos>, i: int, grid: Grid, id: usize, min_food: int)
    requires
        0 <= i < m.len(),
    ensures
        surviving_members(m.skip(i), grid, id, min_food) == (if member_alive(
            grid,
            id,
            m[i],
            min_food,
        ) {
            seq![m[i]] + surviving_members(m.skip(i + 1), grid, id, min_food)
        } else {
            surviving_members(m.skip(i + 1), grid, id, min_food)
        }),
{
    let s = m.skip(i);
    assert(s.len() == m.len() - i);
    assert(s[0] == m[i]);
    assert(s.skip(1) =~= m.skip(i + 1));
}

/// Every survivor is one of the original members, and is alive.
proof fn lemma_surviving_elements(m: Seq<Pos>, grid: Grid, id: usize, min_food: int)
    ensures
        forall|j: int|
            0 <= j < surviving_members(m, grid, id, min_food).len() ==> m.contains(
                #[trigger] surviving_members(m, grid, id, min_food)[j],
            ) && member_alive(grid, id, surviving_members(m, grid, id, min_food)[j], min_food),
    decreases m.len(),
{
    if m.len() == 0 {
    } else {
        lemma_surviving_elements(m.skip(1), grid, id, min_food);
        let rest = surviving_members(m.skip(1), grid, id, min_food);
        let all = surviving_members(m, grid, id, min_food);
        assert forall|j: int| 0 <= j < all.len() implies m.contains(#[trigger] all[j])
            && member_alive(grid, id, all[j], min_food) by {
            if member_alive(grid, id, m[0], min_food) && j == 0 {
                assert(all[j] == m[0]);
                assert(m.contains(m[0]));
            } else {
                let jr = if member_alive(grid, id, m[0], min_food) {
                    j - 1
                } else {
                    j
                };
                assert(all[j] == rest[jr]);
                assert(m.skip(1).contains(rest[jr]));
                let w = choose|w: int| 0 <= w < m.skip(1).len() && m.skip(1)[w] == rest[jr];
                assert(m[w + 1] == rest[jr]);
                assert(m.contains(m[w + 1]));
            }
        }
    }
}

/// A member whose cell does not hold a live creature of the species —
/// in particular one whose food went negative — is absent from the
/// roster that cleanup leaves behind.
pub proof fn lemma_dead_member_removed(m: Seq<Pos>, grid: Grid, id: usize, min_food: int, p: Pos)
    requires
        !member_alive(grid, id, p, min_food),
    ensures
        !surviving_members(m, grid, id, min_food).contains(p),
{
    lemma_surviving_elements(m, grid, id, min_food);
    if surviving_members(m, grid, id, min_food).contains(p) {
        let k = choose|k: int|
            0 <= k < surviving_members(m, grid, id, min_food).len() && surviving_members(
                m,
                grid,
                id,
                min_food,
            )[k] == p;
        assert(member_alive(grid, id, p, min_food));
        assert(false);
    }
}

/// Two cleanup passes agree when every member's cell gives the same
/// life-or-death verdict under the two grids and food thresholds.
pub proof fn lemma_surviving_congruent(
    m: Seq<Pos>,
    g1: Grid,
    id1: usize,
    f1: int,
    g2: Grid,
    id2: usize,
    f2: int,
)
    requires
        forall|k: int|
            0 <= k < m.len() ==> member_alive(g1, id1, #[trigger] m[k], f1) == member_alive(
                g2,
                id2,
                m[k],
                f2,
            ),
    ensures
        surviving_members(m, g1, id1, f1) == surviving_members(m, g2, id2, f2),
    decreases m.len(),
{
    if m.len() > 0 {
        assert forall|k: int|
            0 <= k < m.skip(1).len() implies member_alive(g1, id1, #[trigger] m.skip(1)[k], f1)
            == member_alive(g2, id2, m.skip(1)[k], f2) by {
            assert(m.skip(1)[k] == m[k + 1]);
        }
        lemma_surviving_congruent(m.skip(1), g1, id1, f1, g2, id2, f2);
    }
}

/// The signed position one step from `p` in direction `(dx, dy)`.
pub fn step_pos(p: Pos, dx: i8, dy: i8) -> (r: IPos)
    requires
        p.0 <= MAX_DIM,
        p.1 <= MAX_DIM,
    ensures
        r.0 == step_x(p, dx),
        r.1 == step_y(p, dy),
{
    IPos(p.0 as isize + dx as isize, p.1 as isize + dy as isize)
}

/// The grid and roster change of one handled action, relating the state
/// before (`pre`, `pre_grid`) to the state after (`post`, `post_grid`).
pub open spec fn action_effect(
    pre: Species,
    pre_grid: Grid,
    post: Species,
    post_grid: Grid,
    action: CreatureAction,
    index: int,
) -> bool {
    &&& post.id == pre.id
    &&& post.color == pre.color
    &&& match action {
        CreatureAction::DoNothing => post_grid == pre_grid && post.members@ == pre.members@,
        CreatureAction::Move(dx, dy) => {
            let src = pre.members@[index];
            let tx = step_x(src, dx);
            let ty = step_y(src, dy);
            &&& grid_updated2(
                pre_grid,
                post_grid,
                tx,
                ty,
                pre_grid.spec_at(src.0 as int, src.1 as int),
                src.0 as int,
                src.1 as int,
                Tile::Empty,
            )
            &&& post.members@ == pre.members@.update(index, Pos(tx as usize, ty as usize))
        },
        CreatureAction::Attack(dx, dy) => {
            let src = pre.members@[index];
            let tx = step_x(src, dx);
            let ty = step_y(src, dy);
            let t = pre_grid.spec_at(tx, ty);
            let a = pre_grid.spec_at(src.0 as int, src.1 as int);
            &&& post.members@ == pre.members@
            &&& if t == Tile::OutOfBounds {
                post_grid == pre_grid
            } else {
                grid_updated2(
                    pre_grid,
                    post_grid,
                    tx,
                    ty,
                    attacked_tile(t),
                    src.0 as int,
                    src.1 as int,
                    if attack_gains(t) {
                        Tile::Creature {
                            species: tile_species(a),
                            color: tile_color(a),
                            food: (tile_food(a) + 1) as isize,
                        }
                    } else {
                        a
                    },
                )
            }
        },
        CreatureAction::BuildWall(dx, dy) => {
            let src = pre.members@[index];
            let tx = step_x(src, dx);
            let ty = step_y(src, dy);
            let a = pre_grid.spec_at(src.0 as int, src.1 as int);
            &&& post.members@ == pre.members@
            &&& grid_updated2(
                pre_grid,
                post_grid,
                tx,
                ty,
                Tile::Wall { species: pre.id, color: pre.color },
                src.0 as int,
                src.1 as int,
                Tile::Creature {
                    species: tile_species(a),
                    color: tile_color(a),
                    food: (tile_food(a) - 1) as isize,
                },
            )
        },
    }
}

impl Species {
    /// Roster consistency against the grid: every member cell holds a
    /// creature of this species, and no two members share a cell.
    pub open spec fn wf(self, grid: Grid) -> bool {
        &&& forall|i: int|
            0 <= i < self.members@.len() ==> pos_ok(grid, self.id, #[trigger] self.members@[i])
        &&& forall|i: int, j: int|
            0 <= i < j < self.members@.len() ==> self.members@[i] != self.members@[j]
    }

    /// Whether `action` by member `index` may be applied against `grid`.
    /// The decision loop must only offer actions for which this holds; the
    /// food bounds rule out counter overflow.
    pub open spec fn action_applicable(
        self,
        grid: Grid,
        action: CreatureAction,
        index: int,
    ) -> bool {
        &&& 0 <= index < self.members@.len()
        &&& {
            let src = self.members@[index];
            match action {
                CreatureAction::DoNothing => true,
                CreatureAction::Move(dx, dy) => {
                    &&& dir_ok(dx, dy)
                    &&& grid.spec_at(step_x(src, dx), step_y(src, dy)) == Tile::Empty
                },
                CreatureAction::Attack(dx, dy) => {
                    let t = grid.spec_at(step_x(src, dx), step_y(src, dy));
                    &&& dir_ok(dx, dy)
                    &&& (attack_gains(t) ==> tile_food(grid.spec_at(src.0 as int, src.1 as int))
                        < isize::MAX)
                    &&& (t is Creature ==> tile_food(t) > isize::MIN)
                },
                CreatureAction::BuildWall(dx, dy) => {
                    &&& dir_ok(dx, dy)
                    &&& grid.spec_at(step_x(src, dx), step_y(src, dy)) == Tile::Empty
                    &&& tile_food(grid.spec_at(src.0 as int, src.1 as int)) > 0
                },
            }
        }
    }

    /// Fresh species with an empty roster.
    pub fn new(id: usize, color: u32) -> (r: Species)
        ensures
            r.id == id,
            r.color == color,
            r.members@.len() == 0,
    {
        Species { id, color, members: Vec::new() }
    }

    /// The 7-by-7 view window centered on member `index`: the entire
    /// sensorium that member's policy receives.
    pub fn get_view_slice(&self, grid: &Grid, index: usize) -> (r: Vec<Vec<Tile>>)
        requires
            grid.wf(),
            self.wf(*grid),
            index < self.members@.len(),
        ensures
            r@.len() == 7,
            forall|i: int| 0 <= i < 7 ==> #[trigger] r@[i]@.len() == 7,
            forall|i: int, j: int|
                0 <= i < 7 && 0 <= j < 7 ==> #[trigger] r@[i]@[j] == grid.spec_at(
                    self.members@[index as int].0 - 3 + j,
                    self.members@[index as int].1 - 3 + i,
                ),
    {
        let p = self.members[index];
        proof {
            assert(pos_ok(*grid, self.id, self.members@[index as int]));
        }
        grid.windowed_view(IPos(p.0 as isize, p.1 as isize), 3)
    }

    /// Food counter of member `index`. The roster position must hold a
    /// creature of this species: a desynced roster is an invariant
    /// violation (a bug), not a recoverable condition.
    pub fn get_food(&self, grid: &Grid, index: usize) -> (r: isize)
        requires
            grid.wf(),
            self.wf(*grid),
            index < self.members@.len(),
        ensures
            r == tile_food(
                grid.spec_at(
                    self.members@[index as int].0 as int,
                    self.members@[index as int].1 as int,
                ),
            ),
    {
        let p = self.members[index];
        proof {
            assert(pos_ok(*grid, self.id, self.members@[index as int]));
        }
        match grid.index(p) {
            Tile::Creature { food, .. } => food,
            _ => {
                assert(false);
                0
            },
        }
    }

    /// Runtime test of `action_applicable`, for unverified drivers.
    pub fn check_action(&self, grid: &Grid, action: CreatureAction, index: usize) -> (r: bool)
        requires
            grid.wf(),
            self.wf(*grid),
        ensures
            r == self.action_applicable(*grid, action, index as int),
    {
        if index >= self.members.len() {
            return false;
        }
        let src = self.members[index];
        proof {
            assert(pos_ok(*grid, self.id, self.members@[index as int]));
        }
        match action {
            CreatureAction::DoNothing => true,
            CreatureAction::Move(dx, dy) => {
                dir_ok_exec(dx, dy) && grid.index_i(step_pos(src, dx, dy)) == Tile::Empty
            },
            CreatureAction::Attack(dx, dy) => {
                let t = grid.index_i(step_pos(src, dx, dy));
                let own_food = match grid.index(src) {
                    Tile::Creature { food, .. } => food,
                    _ => 0,
                };
                let gains = match t {
                    Tile::Bush(has_food) => has_food,
                    Tile::Wall { .. } => true,
                    Tile::Creature { .. } => true,
                    _ => false,
                };
                let target_ok = match t {
                    Tile::Creature { food, .. } => food > isize::MIN,
                    _ => true,
                };
                dir_ok_exec(dx, dy) && (!gains || own_food < isize::MAX) && target_ok
            },
            CreatureAction::BuildWall(dx, dy) => {
                let own_food = match grid.index(src) {
                    Tile::Creature { food, .. } => food,
                    _ => 0,
                };
                dir_ok_exec(dx, dy) && grid.index_i(step_pos(src, dx, dy)) == Tile::Empty
                    && own_food > 0
            },
        }
    }

    /// Runtime check of `wf`, for unverified drivers.
    pub fn check_wf(&self, grid: &Grid) -> (r: bool)
        requires
            grid.wf(),
        ensures
            r == self.wf(*grid),
    {
        let n = self.members.len();
        let mut i: usize = 0;
        while i < n
            invariant
                grid.wf(),
                n == self.members@.len(),
                i <= n,
                forall|a: int| 0 <= a < i ==> pos_ok(*grid, self.id, #[trigger] self.members@[a]),
                forall|a: int, b: int| 0 <= a < b < i ==> self.members@[a] != self.members@[b],
            decreases n - i,
        {
            let p = self.members[i];
            if p.0 >= grid.width || p.1 >= grid.height {
                return false;
            }
            match grid.index(p) {
                Tile::Creature { species, .. } => {
                    if species != self.id {
                        return false;
                    }
                },
                _ => {
                    return false;
                },
            }
            let mut j: usize = 0;
            while j < i
                invariant
                    n == self.members@.len(),
                    i < n,
                    j <= i,
                    forall|b: int| 0 <= b < j ==> self.members@[b] != self.members@[i as int],
                decreases i - j,
            {
                if self.members[j] == self.members[i] {
                    return false;
                }
                j += 1;
            }
            proof {
                assert forall|a: int, b: int|
                    0 <= a < b < i + 1 implies self.members@[a] != self.members@[b] by {
                    if b == i as int {
                        assert(self.members@[a] != self.members@[i as int]);
                    }
                }
            }
            i += 1;
        }
        true
    }

    /// Mutates the grid on behalf of member `index` according to `action`,
    /// restoring roster/grid consistency before returning.
    pub fn handle_action(&mut self, grid: &mut Grid, action: CreatureAction, index: usize)
        requires
            old(grid).wf(),
            old(self).wf(*old(grid)),
            old(self).action_applicable(*old(grid), action, index as int),
        ensures
            final(grid).wf(),
            final(self).wf(*final(grid)),
            action_effect(*old(self), *old(grid), *final(self), *final(grid), action, index as int),
    {
        let ghost g0 = *grid;
        let ghost m0 = self.members@;
        match action {
            CreatureAction::DoNothing => {},
            CreatureAction::Move(dx, dy) => {
                let src = self.members[index];
                proof {
                    assert(pos_ok(g0, self.id, m0[index as int]));
                }
                let tgt_i = step_pos(src, dx, dy);
                proof {
                    assert(g0.spec_at(tgt_i.0 as int, tgt_i.1 as int) == Tile::Empty);
                    assert(tgt_i.0 >= 0 && tgt_i.1 >= 0);
                }
                let tgt = Pos(tgt_i.0 as usize, tgt_i.1 as usize);
                let mover = grid.index(src);
                grid.index_mut(tgt, mover);
                grid.index_mut(src, Tile::Empty);
                self.members.set(index, tgt);
                proof {
                    let g2 = *grid;
                    let sx = src.0 as int;
                    let sy = src.1 as int;
                    let tx = tgt.0 as int;
                    let ty = tgt.1 as int;
                    assert(tx != sx || ty != sy);
                    assert(grid_updated2(g0, g2, tx, ty, mover, sx, sy, Tile::Empty));
                    assert forall|i: int|
                        0 <= i < self.members@.len() implies pos_ok(
                        g2,
                        self.id,
                        #[trigger] self.members@[i],
                    ) by {
                        if i == index as int {
                            assert(g2.spec_at(tx, ty) == mover);
                        } else {
                            let p = m0[i];
                            assert(pos_ok(g0, self.id, p));
                            assert(p != src);
                            assert(!(p.0 == tgt.0 && p.1 == tgt.1));
                            assert(g2.spec_at(p.0 as int, p.1 as int) == g0.spec_at(
                                p.0 as int,
                                p.1 as int,
                            ));
                        }
                    }
                    assert forall|i: int, j: int|
                        0 <= i < j < self.members@.len() implies self.members@[i]
                        != self.members@[j] by {
                        if i != index as int && j != index as int {
                            assert(m0[i] != m0[j]);
                        } else {
                            let k = if i == index as int {
                                j
                            } else {
                                i
                            };
                            assert(pos_ok(g0, self.id, m0[k]));
                            assert(m0[k] != tgt);
                        }
                    }
                }
            },
            CreatureAction::Attack(dx, dy) => {
                let src = self.members[index];
                proof {
                    assert(pos_ok(g0, self.id, m0[index as int]));
                }
                let a = grid.index(src);
                let tgt_i = step_pos(src, dx, dy);
                let t = grid.index_i(tgt_i);
                if t == Tile::OutOfBounds {
                    // attacking past the edge is a legal no-op
                } else {
                    proof {
                        assert(tgt_i.0 >= 0 && tgt_i.1 >= 0);
                    }
                    let tgt = Pos(tgt_i.0 as usize, tgt_i.1 as usize);
                    let newt = match t {
                        Tile::Empty => Tile::Empty,
                        Tile::OutOfBounds => Tile::Empty,
                        Tile::Bush(has_food) => if has_food {
                            Tile::Bush(false)
                        } else {
                            Tile::Empty
                        },
                        Tile::Wall { .. } => Tile::Empty,
                        Tile::Creature { species, color, food } => Tile::Creature {
                            species,
                            color,
                            food: food - 1,
                        },
                    };
                    let gains = match t {
                        Tile::Bush(has_food) => has_food,
                        Tile::Wall { .. } => true,
                        Tile::Creature { .. } => true,
                        _ => false,
                    };
                    proof {
                        assert(newt == attacked_tile(t));
                        assert(gains == attack_gains(t));
                        assert(newt != Tile::OutOfBounds);
                    }
                    grid.index_mut(tgt, newt);
                    if gains {
                        match a {
                            Tile::Creature { species, color, food } => {
                                grid.index_mut(
                                    src,
                                    Tile::Creature { species, color, food: food + 1 },
                                );
                            },
                            _ => {
                                assert(false);
                            },
                        }
                    }
                    proof {
                        let g2 = *grid;
                        let sx = src.0 as int;
                        let sy = src.1 as int;
                        let tx = tgt.0 as int;
                        let ty = tgt.1 as int;
                        assert(tx != sx || ty != sy);
                        let after_src = if attack_gains(t) {
                            Tile::Creature {
                                species: tile_species(a),
                                color: tile_color(a),
                                food: (tile_food(a) + 1) as isize,
                            }
                        } else {
                            a
                        };
                        assert(grid_updated2(g0, g2, tx, ty, attacked_tile(t), sx, sy, after_src));
                        assert forall|i: int|
                            0 <= i < self.members@.len() implies pos_ok(
                            g2,
                            self.id,
                            #[trigger] self.members@[i],
                        ) by {
                            let p = self.members@[i];
                            assert(pos_ok(g0, self.id, p));
                            if p.0 == tgt.0 && p.1 == tgt.1 {
                                assert(g2.spec_at(p.0 as int, p.1 as int) == attacked_tile(t));
                            } else if p.0 == src.0 && p.1 == src.1 {
                                assert(g2.spec_at(p.0 as int, p.1 as int) == after_src);
                            } else {
                                assert(g2.spec_at(p.0 as int, p.1 as int) == g0.spec_at(
                                    p.0 as int,
                                    p.1 as int,
                                ));
                            }
                        }
                    }
                }
            },
            CreatureAction::BuildWall(dx, dy) => {
                let src = self.members[index];
                proof {
                    assert(pos_ok(g0, self.id, m0[index as int]));
                }
                let tgt_i = step_pos(src, dx, dy);
                proof {
                    assert(g0.spec_at(tgt_i.0 as int, tgt_i.1 as int) == Tile::Empty);
                    assert(tgt_i.0 >= 0 && tgt_i.1 >= 0);
                }
                let tgt = Pos(tgt_i.0 as usize, tgt_i.1 as usize);
                let wall = Tile::Wall { species: self.id, color: self.color };
                grid.index_mut(tgt, wall);
                let a = grid.index(src);
                match a {
                    Tile::Creature { species, color, food } => {
                        grid.index_mut(src, Tile::Creature { species, color, food: food - 1 });
                    },
                    _ => {
                        assert(false);
                    },
                }
                proof {
                    let g2 = *grid;
                    let sx = src.0 as int;
                    let sy = src.1 as int;
                    let tx = tgt.0 as int;
                    let ty = tgt.1 as int;
                    assert(tx != sx || ty != sy);
                    let a0 = g0.spec_at(sx, sy);
                    assert(a == a0);
                    assert(grid_updated2(
                        g0,
                        g2,
                        tx,
                        ty,
                        wall,
                        sx,
                        sy,
                        Tile::Creature {
                            species: tile_species(a0),
                            color: tile_color(a0),
                            food: (tile_food(a0) - 1) as isize,
                        },
                    ));
                    assert forall|i: int|
                        0 <= i < self.members@.len() implies pos_ok(
                        g2,
                        self.id,
                        #[trigger] self.members@[i],
                    ) by {
                        let p = self.members@[i];
                        assert(pos_ok(g0, self.id, p));
                        assert(!(p.0 == tgt.0 && p.1 == tgt.1));
                        if p.0 == src.0 && p.1 == src.1 {
                        } else {
                            assert(g2.spec_at(p.0 as int, p.1 as int) == g0.spec_at(
                                p.0 as int,
                                p.1 as int,
                            ));
                        }
                    }
                }
            },
        }
    }

    /// Removes, in one reverse-index pass (so pending removals never shift
    /// a not-yet-processed index), every member whose cell no longer holds
    /// a live creature of this species — food gone negative, or the cell
    /// desynced — and clears each removed member's cell. Survivors keep
    /// their order.
    pub fn cleanup(&mut self, grid: &mut Grid)
        requires
            old(grid).wf(),
            old(self).wf(*old(grid)),
        ensures
            final(grid).wf(),
            final(self).wf(*final(grid)),
            final(self).id == old(self).id,
            final(self).color == old(self).color,
            final(grid).width == old(grid).width,
            final(grid).height == old(grid).height,
            final(self).members@ == surviving_members(
                old(self).members@,
                *old(grid),
                old(self).id,
                0,
            ),
            forall|x: int, y: int| #[trigger]
                final(grid).spec_at(x, y) == (if dead_member_cell(
                    old(self).members@,
                    *old(grid),
                    old(self).id,
                    0,
                    x,
                    y,
                ) {
                    Tile::Empty
                } else {
                    old(grid).spec_at(x, y)
                }),
    {
        let ghost g0 = *grid;
        let ghost m0 = self.members@;
        let ghost id = self.id;
        let ghost c0 = self.color;
        let mut i: usize = self.members.len();
        proof {
            assert(self.members@ =~= m0.take(i as int) + surviving_members(
                m0.skip(i as int),
                g0,
                id,
                0,
            ));
        }
        while i > 0
            invariant
                grid.wf(),
                self.wf(*grid),
                self.id == id,
                self.color == c0,
                grid.width == g0.width,
                grid.height == g0.height,
                i <= m0.len(),
                forall|k: int| 0 <= k < m0.len() ==> pos_ok(g0, id, #[trigger] m0[k]),
                forall|a: int, b: int| 0 <= a < b < m0.len() ==> m0[a] != m0[b],
                self.members@ == m0.take(i as int) + surviving_members(
                    m0.skip(i as int),
                    g0,
                    id,
                    0,
                ),
                forall|x: int, y: int| #[trigger]
                    grid.spec_at(x, y) == (if dead_member_cell_from(
                        m0,
                        i as int,
                        g0,
                        id,
                        0,
                        x,
                        y,
                    ) {
                        Tile::Empty
                    } else {
                        g0.spec_at(x, y)
                    }),
            decreases i,
        {
            i -= 1;
            let ghost members_pre = self.members@;
            proof {
                assert(members_pre[i as int] == m0.take(i as int + 1)[i as int]);
            }
            let p = self.members[i];
            proof {
                assert(p == m0[i as int]);
                assert(pos_ok(g0, id, m0[i as int]));
                // this member's cell is untouched so far: any dead cell
                // processed earlier belongs to a distinct later member
                assert(grid.spec_at(p.0 as int, p.1 as int) == g0.spec_at(
                    p.0 as int,
                    p.1 as int,
                )) by {
                    if dead_member_cell_from(m0, i as int + 1, g0, id, 0, p.0 as int, p.1 as int) {
                        let k = choose|k: int|
                            i as int + 1 <= k < m0.len() && (#[trigger] m0[k]).0 == p.0 as int
                                && m0[k].1 == p.1 as int && !member_alive(g0, id, m0[k], 0);
                        assert(m0[k] == m0[i as int]);
                        assert(false);
                    }
                }
            }
            let t = grid.index(p);
            let alive = match t {
                Tile::Creature { species, food, .. } => species == self.id && food >= 0,
                _ => false,
            };
            proof {
                assert(alive == member_alive(g0, id, m0[i as int], 0));
                lemma_surviving_unfold(m0, i as int, g0, id, 0);
            }
            if !alive {
                grid.index_mut(p, Tile::Empty);
                self.members.remove(i);
                proof {
                    let s_next = surviving_members(m0.skip(i as int + 1), g0, id, 0);
                    assert(surviving_members(m0.skip(i as int), g0, id, 0) == s_next);
                    assert(self.members@ =~= m0.take(i as int) + s_next);
                    // grid now matches the dead-cell map extended to index i
                    assert forall|x: int, y: int| #[trigger]
                        grid.spec_at(x, y) == (if dead_member_cell_from(
                            m0,
                            i as int,
                            g0,
                            id,
                            0,
                            x,
                            y,
                        ) {
                            Tile::Empty
                        } else {
                            g0.spec_at(x, y)
                        }) by {
                        if x == p.0 as int && y == p.1 as int {
                            assert(dead_member_cell_from(m0, i as int, g0, id, 0, x, y));
                        } else {
                            if dead_member_cell_from(m0, i as int, g0, id, 0, x, y) {
                                let k = choose|k: int|
                                    i as int <= k < m0.len() && (#[trigger] m0[k]).0 == x
                                        && m0[k].1 == y && !member_alive(g0, id, m0[k], 0);
                                assert(k != i as int);
                                assert(dead_member_cell_from(m0, i as int + 1, g0, id, 0, x, y));
                            } else {
                                assert(!dead_member_cell_from(m0, i as int + 1, g0, id, 0, x, y));
                            }
                        }
                    }
                    // roster consistency survives the removal
                    lemma_surviving_elements(m0.skip(i as int), g0, id, 0);
                    assert forall|a: int|
                        0 <= a < self.members@.len() implies pos_ok(
                        *grid,
                        id,
                        #[trigger] self.members@[a],
                    ) by {
                        let e = self.members@[a];
                        if a < i as int {
                            assert(e == m0[a]);
                            assert(pos_ok(g0, id, e));
                            assert(member_alive(g0, id, e, 0) || !member_alive(g0, id, e, 0));
                        } else {
                            assert(e == s_next[a - i as int]);
                            assert(m0.skip(i as int).contains(e));
                            assert(member_alive(g0, id, e, 0));
                        }
                        // a live or prefix member's cell is not a dead cell
                        assert(grid.spec_at(e.0 as int, e.1 as int) == g0.spec_at(
                            e.0 as int,
                            e.1 as int,
                        )) by {
                            if dead_member_cell_from(m0, i as int, g0, id, 0, e.0 as int, e.1 as int) {
                                let k = choose|k: int|
                                    i as int <= k < m0.len() && (#[trigger] m0[k]).0 == e.0 as int
                                        && m0[k].1 == e.1 as int && !member_alive(g0, id, m0[k], 0);
                                assert(m0[k] == e);
                                if a < i as int {
                                    assert(m0[a] != m0[k]);
                                } else {
                                    assert(member_alive(g0, id, e, 0));
                                }
                                assert(false);
                            }
                        }
                    }
                    assert forall|a: int, b: int|
                        0 <= a < b < self.members@.len() implies self.members@[a]
                        != self.members@[b] by {
                        assert(self.members@[a] == members_pre.remove(i as int)[a]);
                        assert(self.members@[b] == members_pre.remove(i as int)[b]);
                        if a < i as int {
                            assert(members_pre.remove(i as int)[a] == members_pre[a]);
                        } else {
                            assert(members_pre.remove(i as int)[a] == members_pre[a + 1]);
                        }
                        if b < i as int {
                            assert(members_pre.remove(i as int)[b] == members_pre[b]);
                        } else {
                            assert(members_pre.remove(i as int)[b] == members_pre[b + 1]);
                        }
                    }
                }
            } else {
                proof {
                    assert(m0.take(i as int + 1) =~= m0.take(i as int) + seq![m0[i as int]]);
                    assert(self.members@ =~= m0.take(i as int) + surviving_members(
                        m0.skip(i as int),
                        g0,
                        id,
                        0,
                    ));
                    assert forall|x: int, y: int| #[trigger]
                        grid.spec_at(x, y) == (if dead_member_cell_from(
                            m0,
                            i as int,
                            g0,
                            id,
                            0,
                            x,
                            y,
                        ) {
                            Tile::Empty
                        } else {
                            g0.spec_at(x, y)
                        }) by {
                        if dead_member_cell_from(m0, i as int, g0, id, 0, x, y) {
                            let k = choose|k: int|
                                i as int <= k < m0.len() && (#[trigger] m0[k]).0 == x && m0[k].1
                                    == y && !member_alive(g0, id, m0[k], 0);
                            assert(k != i as int);
                            assert(dead_member_cell_from(m0, i as int + 1, g0, id, 0, x, y));
                        } else {
                            assert(!dead_member_cell_from(m0, i as int + 1, g0, id, 0, x, y));
                        }
                    }
                }
            }
        }
        proof {
            assert(self.members@ =~= surviving_members(m0, g0, id, 0));
            assert(m0.skip(0) =~= m0);
        }
    }
}

} // verus!
