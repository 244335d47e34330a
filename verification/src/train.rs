//! The state/action contract the decision policy operates against: the
//! action vocabulary, the per-creature state snapshot, and the enumerator
//! of currently legal actions.

use vstd::prelude::*;

use crate::world::grid::Grid;
use crate::world::grid::Tile;
use crate::world::grid::spec_feature_pair;
use crate::world::grid::tile_food;
use crate::world::species::Species;
use crate::world::species::attack_gains;

verus! {

/// One creature's choice for a tick; directions are `(dx, dy)` unit steps.
#[derive(PartialEq, Eq, Hash, Clone, Copy, Debug, Structural)]
pub enum CreatureAction {
    Move(i8, i8),
    Attack(i8, i8),
    BuildWall(i8, i8),
    DoNothing,
}

/// The four orthogonal unit directions, in the fixed enumeration order.
pub open spec fn spec_directions() -> Seq<(i8, i8)> {
    seq![(1i8, 0i8), ((-1) as i8, 0i8), (0i8, 1i8), (0i8, (-1) as i8)]
}

/// Whether `(dx, dy)` is one of the four orthogonal unit directions.
pub open spec fn dir_ok(dx: i8, dy: i8) -> bool {
    ||| (dx == 1 && dy == 0)
    ||| (dx == -1 && dy == 0)
    ||| (dx == 0 && dy == 1)
    ||| (dx == 0 && dy == -1)
}

/// The four orthogonal unit directions as a vector, in enumeration order.
pub fn directions() -> (r: Vec<(i8, i8)>)
    ensures
        r@ == spec_directions(),
        forall|k: int| 0 <= k < r@.len() ==> dir_ok(#[trigger] r@[k].0, r@[k].1),
{
    let mut r: Vec<(i8, i8)> = Vec::new();
    r.push((1, 0));
    r.push((-1, 0));
    r.push((0, 1));
    r.push((0, -1));
    proof {
        assert(r@ =~= spec_directions());
    }
    r
}

/// Runtime test for `dir_ok`.
pub fn dir_ok_exec(dx: i8, dy: i8) -> (r: bool)
    ensures
        r == dir_ok(dx, dy),
{
    (dx == 1 && dy == 0) || (dx == -1 && dy == 0) || (dx == 0 && dy == 1) || (dx == 0 && dy == -1)
}

/// One creature's policy-facing state snapshot.
#[derive(PartialEq, Eq, Hash, Clone, Debug)]
pub struct CreatureState {
    /// 7x7 window of tiles centered on the creature.
    pub slice: Vec<Vec<Tile>>,
    /// Amount of food that the creature has.
    pub food: isize,
    /// How much time is left until the moon ends (and it has to eat).
    pub time: usize,
}

/// Whether `a` is among the currently legal actions for state `s`: Move
/// into an empty neighbor cell (BuildWall too, given a positive food
/// balance), Attack into a full bush, a wall or a creature; DoNothing
/// exactly when no direction yields anything else.
pub open spec fn action_legal(s: CreatureState, a: CreatureAction) -> bool {
    match a {
        CreatureAction::Move(dx, dy) => dir_ok(dx, dy) && s.tile_toward(dx, dy) == Tile::Empty,
        CreatureAction::BuildWall(dx, dy) => dir_ok(dx, dy) && s.tile_toward(dx, dy) == Tile::Empty
            && s.food > 0,
        CreatureAction::Attack(dx, dy) => dir_ok(dx, dy) && attack_gains(s.tile_toward(dx, dy)),
        CreatureAction::DoNothing => forall|dx: i8, dy: i8|
            !(#[trigger] dir_ok(dx, dy)) || (s.tile_toward(dx, dy) != Tile::Empty && !attack_gains(
                s.tile_toward(dx, dy),
            )),
    }
}

/// The actions offered for one direction: Move (and BuildWall, given
/// food) into an empty cell, Attack into an attackable one.
pub open spec fn dir_actions(s: CreatureState, dx: i8, dy: i8) -> Seq<CreatureAction> {
    let t = s.tile_toward(dx, dy);
    if t == Tile::Empty {
        if s.food > 0 {
            seq![CreatureAction::Move(dx, dy), CreatureAction::BuildWall(dx, dy)]
        } else {
            seq![CreatureAction::Move(dx, dy)]
        }
    } else if attack_gains(t) {
        seq![CreatureAction::Attack(dx, dy)]
    } else {
        Seq::empty()
    }
}

/// The full enumeration of legal actions, in direction order, with
/// DoNothing as the sole fallback.
pub open spec fn spec_actions(s: CreatureState) -> Seq<CreatureAction> {
    let base = dir_actions(s, 1i8, 0i8) + dir_actions(s, -1i8, 0i8) + dir_actions(s, 0i8, 1i8)
        + dir_actions(s, 0i8, -1i8);
    if base.len() == 0 {
        seq![CreatureAction::DoNothing]
    } else {
        base
    }
}

proof fn lemma_concat_contains<A>(a: Seq<A>, b: Seq<A>, x: A)
    requires
        a.contains(x) || b.contains(x),
    ensures
        (a + b).contains(x),
{
    if a.contains(x) {
        let i = choose|i: int| 0 <= i < a.len() && a[i] == x;
        assert((a + b)[i] == x);
    } else {
        let i = choose|i: int| 0 <= i < b.len() && b[i] == x;
        assert((a + b)[a.len() + i] == x);
    }
}

/// The enumerator is exact: everything it offers is legal, and
/// everything legal is offered.
pub proof fn lemma_actions_exactly_legal(s: CreatureState)
    ensures
        forall|k: int|
            0 <= k < spec_actions(s).len() ==> action_legal(s, #[trigger] spec_actions(s)[k]),
        forall|a: CreatureAction| action_legal(s, a) ==> spec_actions(s).contains(a),
{
    let d1 = dir_actions(s, 1i8, 0i8);
    let d2 = dir_actions(s, -1i8, 0i8);
    let d3 = dir_actions(s, 0i8, 1i8);
    let d4 = dir_actions(s, 0i8, -1i8);
    let base = d1 + d2 + d3 + d4;
    assert forall|k: int|
        0 <= k < spec_actions(s).len() implies action_legal(s, #[trigger] spec_actions(s)[k]) by {
        if base.len() == 0 {
            assert(spec_actions(s)[k] == CreatureAction::DoNothing);
            assert forall|dx: i8, dy: i8| #[trigger]
                dir_ok(dx, dy) implies s.tile_toward(dx, dy) != Tile::Empty && !attack_gains(
                s.tile_toward(dx, dy),
            ) by {
                if dx == 1 && dy == 0 {
                    assert(d1.len() == 0);
                } else if dx == -1 && dy == 0 {
                    assert(d2.len() == 0);
                } else if dy == 1 {
                    assert(d3.len() == 0);
                } else {
                    assert(d4.len() == 0);
                }
            }
        } else {
            let a = spec_actions(s)[k];
            if k < d1.len() {
                assert(a == d1[k]);
            } else if k < d1.len() + d2.len() {
                assert(a == d2[k - d1.len()]);
            } else if k < d1.len() + d2.len() + d3.len() {
                assert(a == d3[k - d1.len() - d2.len()]);
            } else {
                assert(a == d4[k - d1.len() - d2.len() - d3.len()]);
            }
        }
    }
    assert forall|a: CreatureAction| action_legal(s, a) implies spec_actions(s).contains(a) by {
        match a {
            CreatureAction::DoNothing => {
                assert(d1.len() == 0);
                assert(d2.len() == 0);
                assert(d3.len() == 0);
                assert(d4.len() == 0);
                assert(spec_actions(s)[0] == CreatureAction::DoNothing);
            },
            CreatureAction::Move(dx, dy) => {
                lemma_dir_contains(s, dx, dy, a);
            },
            CreatureAction::Attack(dx, dy) => {
                lemma_dir_contains(s, dx, dy, a);
            },
            CreatureAction::BuildWall(dx, dy) => {
                lemma_dir_contains(s, dx, dy, a);
            },
        }
    }
}

/// A legal directed action is offered within its direction's slot.
proof fn lemma_dir_contains(s: CreatureState, dx: i8, dy: i8, a: CreatureAction)
    requires
        action_legal(s, a),
        a == CreatureAction::Move(dx, dy) || a == CreatureAction::Attack(dx, dy) || a
            == CreatureAction::BuildWall(dx, dy),
    ensures
        spec_actions(s).contains(a),
{
    let d1 = dir_actions(s, 1i8, 0i8);
    let d2 = dir_actions(s, -1i8, 0i8);
    let d3 = dir_actions(s, 0i8, 1i8);
    let d4 = dir_actions(s, 0i8, -1i8);
    assert(dir_ok(dx, dy));
    assert(dir_actions(s, dx, dy).contains(a)) by {
        let d = dir_actions(s, dx, dy);
        if s.tile_toward(dx, dy) == Tile::Empty {
            if a == CreatureAction::Move(dx, dy) {
                assert(d[0] == a);
            } else {
                assert(d[1] == a);
            }
        } else {
            assert(d[0] == a);
        }
    }
    if (dx == 1 || dx == -1) && dy == 0 {
        lemma_concat_contains(d1, d2, a);
        lemma_concat_contains(d1 + d2, d3, a);
    } else if dy == 1 {
        lemma_concat_contains(d1 + d2, d3, a);
    }
    lemma_concat_contains(d1 + d2 + d3, d4, a);
    assert((d1 + d2 + d3 + d4).len() > 0);
    assert((d1 + d2) + d3 =~= d1 + d2 + d3);
    assert(((d1 + d2) + d3) + d4 =~= d1 + d2 + d3 + d4);
}

/// Building a wall consumes food, so a creature with an empty balance is
/// never offered BuildWall among its legal actions.
pub proof fn lemma_build_wall_needs_food(s: CreatureState, dx: i8, dy: i8)
    requires
        s.food <= 0,
    ensures
        !action_legal(s, CreatureAction::BuildWall(dx, dy)),
        !spec_actions(s).contains(CreatureAction::BuildWall(dx, dy)),
{
    lemma_actions_exactly_legal(s);
    if spec_actions(s).contains(CreatureAction::BuildWall(dx, dy)) {
        let k = choose|k: int|
            0 <= k < spec_actions(s).len() && spec_actions(s)[k] == CreatureAction::BuildWall(
                dx,
                dy,
            );
        assert(action_legal(s, spec_actions(s)[k]));
        assert(false);
    }
}

impl CreatureState {
    /// The view window has its full fixed extent.
    pub open spec fn wf(self) -> bool {
        &&& self.slice@.len() == 7
        &&& forall|i: int| 0 <= i < 7 ==> (#[trigger] self.slice@[i])@.len() == 7
    }

    /// The view tile one step from the center in direction `(dx, dy)`.
    pub open spec fn tile_toward(self, dx: i8, dy: i8) -> Tile {
        self.slice@[3 + dy]@[3 + dx]
    }

    /// Snapshot of member `index`'s decision state at `time`.
    pub fn new(species: &Species, grid: &Grid, time: usize, index: usize) -> (r: CreatureState)
        requires
            grid.wf(),
            species.wf(*grid),
            index < species.members@.len(),
        ensures
            r.wf(),
            r.time == time,
            r.food == tile_food(
                grid.spec_at(
                    species.members@[index as int].0 as int,
                    species.members@[index as int].1 as int,
                ),
            ),
            forall|i: int, j: int|
                0 <= i < 7 && 0 <= j < 7 ==> #[trigger] r.slice@[i]@[j] == grid.spec_at(
                    species.members@[index as int].0 - 3 + j,
                    species.members@[index as int].1 - 3 + i,
                ),
    {
        CreatureState {
            slice: species.get_view_slice(grid, index),
            food: species.get_food(grid, index),
            time,
        }
    }

    /// The view tile one step from the center in direction `(dx, dy)`.
    pub fn tile_toward_exec(&self, dx: i8, dy: i8) -> (t: Tile)
        requires
            self.wf(),
            dir_ok(dx, dy),
        ensures
            t == self.tile_toward(dx, dy),
    {
        let row = (3 + dy as isize) as usize;
        let col = (3 + dx as isize) as usize;
        self.slice[row][col]
    }

    fn push_dir_actions(&self, r: &mut Vec<CreatureAction>, dx: i8, dy: i8)
        requires
            self.wf(),
            dir_ok(dx, dy),
        ensures
            final(r)@ == old(r)@ + dir_actions(*self, dx, dy),
    {
        let t = self.tile_toward_exec(dx, dy);
        match t {
            Tile::Empty => {
                r.push(CreatureAction::Move(dx, dy));
                if self.food > 0 {
                    r.push(CreatureAction::BuildWall(dx, dy));
                }
            },
            Tile::Bush(has_food) => {
                if has_food {
                    r.push(CreatureAction::Attack(dx, dy));
                }
            },
            Tile::Wall { .. } => {
                r.push(CreatureAction::Attack(dx, dy));
            },
            Tile::Creature { .. } => {
                r.push(CreatureAction::Attack(dx, dy));
            },
            Tile::OutOfBounds => {},
        }
        proof {
            assert(final(r)@ =~= old(r)@ + dir_actions(*self, dx, dy));
        }
    }

    /// Enumerates the currently legal actions: for each direction, Move
    /// into an empty cell (and BuildWall, given food), Attack into a full
    /// bush, wall or creature; `DoNothing` exactly when nothing else is
    /// legal.
    pub fn actions(&self) -> (r: Vec<CreatureAction>)
        requires
            self.wf(),
        ensures
            r@ == spec_actions(*self),
            r@.len() > 0,
            forall|k: int| 0 <= k < r@.len() ==> action_legal(*self, #[trigger] r@[k]),
            forall|a: CreatureAction| action_legal(*self, a) ==> r@.contains(a),
    {
        let mut r: Vec<CreatureAction> = Vec::new();
        self.push_dir_actions(&mut r, 1, 0);
        self.push_dir_actions(&mut r, -1, 0);
        self.push_dir_actions(&mut r, 0, 1);
        self.push_dir_actions(&mut r, 0, -1);
        proof {
            assert(r@ =~= dir_actions(*self, 1i8, 0i8) + dir_actions(*self, -1i8, 0i8)
                + dir_actions(*self, 0i8, 1i8) + dir_actions(*self, 0i8, -1i8));
        }
        if r.len() == 0 {
            r.push(CreatureAction::DoNothing);
            proof {
                assert(r@ =~= spec_actions(*self));
            }
        }
        proof {
            lemma_actions_exactly_legal(*self);
        }
        r
    }

    /// Resolves an externally chosen direction against the view: step
    /// into an empty cell, attack anything tangible, and give up on the
    /// void past the edge.
    pub fn direction_action(&self, dx: i8, dy: i8) -> (a: CreatureAction)
        requires
            self.wf(),
            dir_ok(dx, dy),
        ensures
            a == (match self.tile_toward(dx, dy) {
                Tile::Empty => CreatureAction::Move(dx, dy),
                Tile::OutOfBounds => CreatureAction::DoNothing,
                _ => CreatureAction::Attack(dx, dy),
            }),
    {
        match self.tile_toward_exec(dx, dy) {
            Tile::Empty => CreatureAction::Move(dx, dy),
            Tile::OutOfBounds => CreatureAction::DoNothing,
            _ => CreatureAction::Attack(dx, dy),
        }
    }

    /// The undiscounted reward integer `(2 - food) * -time_left`; the
    /// driver scales it to the trainer's numeric range.
    pub fn reward_base(&self) -> (r: i64)
        requires
            -1000000 <= self.food <= 1000000,
            self.time <= 1000000,
        ensures
            r == (2 - self.food) * (-(self.time as int)),
    {
        proof {
            lemma_reward_range(self.food as int, self.time as int);
        }
        let f = self.food as i64;
        let t = self.time as i64;
        (2 - f) * (-t)
    }

    /// The 49 feature pairs of the view tiles, row-major; the driver
    /// appends the food and time scalars and scales everything to the
    /// trainer's number format.
    pub fn feature_pairs(&self) -> (r: Vec<(usize, usize)>)
        requires
            self.wf(),
        ensures
            r@.len() == 49,
            forall|i: int, j: int|
                0 <= i < 7 && 0 <= j < 7 ==> #[trigger] r@[7 * i + j] == spec_feature_pair(
                    self.slice@[i]@[j],
                ),
    {
        let mut r: Vec<(usize, usize)> = Vec::new();
        let mut i: usize = 0;
        while i < 7
            invariant
                self.wf(),
                i <= 7,
                r@.len() == 7 * i,
                forall|a: int, b: int|
                    0 <= a < i && 0 <= b < 7 ==> #[trigger] r@[7 * a + b] == spec_feature_pair(
                        self.slice@[a]@[b],
                    ),
            decreases 7 - i,
        {
            let mut j: usize = 0;
            while j < 7
                invariant
                    self.wf(),
                    i < 7,
                    j <= 7,
                    r@.len() == 7 * i + j,
                    forall|a: int, b: int|
                        0 <= a < i && 0 <= b < 7 ==> #[trigger] r@[7 * a + b] == spec_feature_pair(
                            self.slice@[a]@[b],
                        ),
                    forall|b: int|
                        0 <= b < j ==> #[trigger] r@[7 * i + b] == spec_feature_pair(
                            self.slice@[i as int]@[b],
                        ),
                decreases 7 - j,
            {
                let row = &self.slice[i];
                let pair = row[j].feature_pair();
                r.push(pair);
                j += 1;
            }
            i += 1;
        }
        r
    }
}

proof fn lemma_reward_range(f: int, t: int)
    by (nonlinear_arith)
    requires
        -1000000 <= f <= 1000000,
        0 <= t <= 1000000,
    ensures
        -2000000000000 <= (2 - f) * (-t) <= 2000000000000,
{
}

} // verus!
