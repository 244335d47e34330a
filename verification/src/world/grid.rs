//! The fixed-size 2D tile store: bounds-safe addressing and windowed-view
//! extraction, plus the two position representations and the tile model.

use vstd::prelude::*;
use vstd::pervasive::VecAdditionalExecFns;

use crate::util::MAX_COORD;
use crate::util::MAX_DIM;

verus! {

/// An unsigned, grid-bound coordinate pair `(x, y)`.
#[derive(Clone, Copy, PartialEq, Eq, Structural, Debug)]
pub struct Pos(pub usize, pub usize);

/// A signed coordinate pair, used for window arithmetic that may go
/// negative or past the far edge around creatures near the border.
#[derive(Clone, Copy, PartialEq, Eq, Structural, Debug)]
pub struct IPos(pub isize, pub isize);

impl Pos {
    /// Widens to the signed representation, preserving both components.
    pub fn to_ipos(self) -> (r: IPos)
        requires
            self.0 <= MAX_COORD,
            self.1 <= MAX_COORD,
        ensures
            r.0 == self.0,
            r.1 == self.1,
    {
        IPos(self.0 as isize, self.1 as isize)
    }
}

impl IPos {
    /// Narrows back to the grid-bound representation; fails (returns
    /// `None`) rather than panics when a component is negative.
    pub fn try_to_pos(self) -> (r: Option<Pos>)
        ensures
            r == (if self.0 >= 0 && self.1 >= 0 {
                Some(Pos(self.0 as usize, self.1 as usize))
            } else {
                None::<Pos>
            }),
    {
        if self.0 >= 0 && self.1 >= 0 {
            Some(Pos(self.0 as usize, self.1 as usize))
        } else {
            None
        }
    }
}

/// A grid-bound position survives the round trip through the signed form:
/// widening (`Pos::to_ipos`) never produces a negative component, so
/// narrowing (`IPos::try_to_pos`) accepts it and returns the original value.
pub proof fn lemma_pos_signed_round_trip(p: Pos, i: IPos)
    requires
        p.0 <= MAX_COORD,
        p.1 <= MAX_COORD,
        i.0 == p.0,
        i.1 == p.1,
    ensures
        i.0 >= 0 && i.1 >= 0,
        Pos(i.0 as usize, i.1 as usize) == p,
{
}

/// The content of one grid cell.
#[derive(Clone, Copy, PartialEq, Eq, Structural, Debug, Hash)]
pub enum Tile {
    Empty,
    /// Sentinel returned when indexing past the grid edges; never stored
    /// in the grid itself.
    OutOfBounds,
    /// A harvestable food source; the flag is `true` while it holds food.
    Bush(bool),
    /// A barrier a creature erected; absorbs one attack.
    Wall { species: usize, color: u32 },
    /// A living agent; `food` is signed and going negative marks death.
    Creature { species: usize, color: u32, food: isize },
}

/// The species id carried by a `Wall` or `Creature` tile.
pub open spec fn tile_species(t: Tile) -> usize {
    match t {
        Tile::Wall { species, .. } => species,
        Tile::Creature { species, .. } => species,
        _ => 0,
    }
}

/// The color carried by a `Wall` or `Creature` tile.
pub open spec fn tile_color(t: Tile) -> u32 {
    match t {
        Tile::Wall { color, .. } => color,
        Tile::Creature { color, .. } => color,
        _ => 0,
    }
}

/// The food counter of a `Creature` tile.
pub open spec fn tile_food(t: Tile) -> isize {
    match t {
        Tile::Creature { food, .. } => food,
        _ => 0,
    }
}

/// Whether `t` is a creature belonging to species `id`.
pub open spec fn is_creature_of(t: Tile, id: usize) -> bool {
    t is Creature && tile_species(t) == id
}

impl Tile {
    /// One-character display form, for text rendering.
    pub fn symbol(&self) -> (c: char)
        ensures
            c == (match *self {
                Tile::Empty => ' ',
                Tile::OutOfBounds => 'X',
                Tile::Bush(true) => '%',
                Tile::Bush(false) => '/',
                Tile::Wall { .. } => '#',
                Tile::Creature { .. } => '@',
            }),
    {
        match self {
            Tile::Empty => ' ',
            Tile::OutOfBounds => 'X',
            Tile::Bush(true) => '%',
            Tile::Bush(false) => '/',
            Tile::Wall { .. } => '#',
            Tile::Creature { .. } => '@',
        }
    }

    /// The `(kind_code, metadata)` feature pair used to build the
    /// policy-facing feature vector for this tile.
    pub fn feature_pair(&self) -> (r: (usize, usize))
        ensures
            r == spec_feature_pair(*self),
    {
        match *self {
            Tile::Empty => (0, 0),
            Tile::OutOfBounds => (1, 0),
            Tile::Bush(has_food) => (2, if has_food { 1 } else { 0 }),
            Tile::Wall { species, .. } => (3, species),
            Tile::Creature { species, .. } => (4, species),
        }
    }
}

/// The stable numeric encoding of each tile kind: a kind code in `0..=4`
/// and a metadata word (food flag, or owning species id).
pub open spec fn spec_feature_pair(t: Tile) -> (usize, usize) {
    match t {
        Tile::Empty => (0usize, 0usize),
        Tile::OutOfBounds => (1usize, 0usize),
        Tile::Bush(has_food) => (2usize, if has_food { 1usize } else { 0usize }),
        Tile::Wall { species, .. } => (3usize, species),
        Tile::Creature { species, .. } => (4usize, species),
    }
}

/// Fixed-size 2D tile store, row-major.
#[derive(Clone)]
pub struct Grid {
    pub width: usize,
    pub height: usize,
    pub tiles: Vec<Tile>,
}

impl Grid {
    /// Well-formedness: the backing vector matches the dimensions, the
    /// dimensions keep index arithmetic in machine range, and the
    /// `OutOfBounds` sentinel is never stored.
    pub open spec fn wf(self) -> bool {
        &&& self.width <= MAX_DIM
        &&& self.height <= MAX_DIM
        &&& self.tiles@.len() == self.width * self.height
        &&& forall|k: int|
            0 <= k < self.tiles@.len() ==> #[trigger] self.tiles@[k] != Tile::OutOfBounds
    }

    /// The tile stored at `(x, y)`, or `OutOfBounds` past the edges.
    pub open spec fn spec_at(self, x: int, y: int) -> Tile {
        if 0 <= x < self.width && 0 <= y < self.height {
            self.tiles@[y * self.width + x]
        } else {
            Tile::OutOfBounds
        }
    }

    /// All-`Empty` grid of the given dimensions.
    pub fn empty(width: usize, height: usize) -> (r: Grid)
        requires
            width <= MAX_DIM,
            height <= MAX_DIM,
        ensures
            r.wf(),
            r.width == width,
            r.height == height,
            forall|x: int, y: int| #[trigger]
                r.spec_at(x, y) == (if 0 <= x < width && 0 <= y < height {
                    Tile::Empty
                } else {
                    Tile::OutOfBounds
                }),
            forall|k: int| 0 <= k < r.tiles@.len() ==> #[trigger] r.tiles@[k] == Tile::Empty,
    {
        proof {
            lemma_dims_product(width as int, height as int);
        }
        let n = width * height;
        let r = Grid { width, height, tiles: vec![Tile::Empty; n] };
        proof {
            assert forall|x: int, y: int| 0 <= x < width && 0 <= y < height implies r.spec_at(
                x,
                y,
            ) == Tile::Empty by {
                lemma_rm_bound(x, y, width as int, height as int);
            }
        }
        r
    }

    /// Bounds-safe read: never fails, returns `OutOfBounds` past the edges.
    pub fn index(&self, p: Pos) -> (r: Tile)
        requires
            self.wf(),
        ensures
            r == self.spec_at(p.0 as int, p.1 as int),
    {
        if p.0 < self.width && p.1 < self.height {
            proof {
                lemma_dims_product(self.width as int, self.height as int);
                lemma_rm_bound(p.0 as int, p.1 as int, self.width as int, self.height as int);
            }
            self.tiles[p.1 * self.width + p.0]
        } else {
            Tile::OutOfBounds
        }
    }

    /// Bounds-safe read at a signed position.
    pub fn index_i(&self, p: IPos) -> (r: Tile)
        requires
            self.wf(),
        ensures
            r == self.spec_at(p.0 as int, p.1 as int),
    {
        if p.0 >= 0 && p.1 >= 0 {
            self.index(Pos(p.0 as usize, p.1 as usize))
        } else {
            Tile::OutOfBounds
        }
    }

    /// Write: stores `t` at `p`. Callers must only mutate positions known
    /// to be in bounds, and may not store the `OutOfBounds` sentinel.
    pub fn index_mut(&mut self, p: Pos, t: Tile)
        requires
            old(self).wf(),
            p.0 < old(self).width,
            p.1 < old(self).height,
            t != Tile::OutOfBounds,
        ensures
            final(self).wf(),
            grid_updated(*old(self), *final(self), p.0 as int, p.1 as int, t),
            final(self).tiles@ == old(self).tiles@.update(
                p.1 * old(self).width + p.0,
                t,
            ),
    {
        proof {
            lemma_dims_product(self.width as int, self.height as int);
            lemma_rm_bound(p.0 as int, p.1 as int, self.width as int, self.height as int);
        }
        let idx = p.1 * self.width + p.0;
        self.tiles.set(idx, t);
        proof {
            let w = self.width as int;
            let h = self.height as int;
            assert forall|a: int, b: int| !(a == p.0 as int && b == p.1 as int) implies #[trigger]
            self.spec_at(a, b) == old(self).spec_at(a, b) by {
                if 0 <= a < w && 0 <= b < h {
                    lemma_rm_bound(a, b, w, h);
                    if b * w + a == p.1 as int * w + p.0 as int {
                        lemma_rm_inj(a, b, p.0 as int, p.1 as int, w);
                    }
                }
            }
        }
    }

    /// A `w`-by-`h` window whose top-left corner sits at the signed
    /// position `origin`; cells outside the grid read as `OutOfBounds`.
    pub fn i_slice(&self, origin: IPos, w: usize, h: usize) -> (r: Vec<Vec<Tile>>)
        requires
            self.wf(),
            -MAX_COORD - MAX_DIM <= origin.0 <= MAX_COORD + MAX_DIM,
            -MAX_COORD - MAX_DIM <= origin.1 <= MAX_COORD + MAX_DIM,
            w <= MAX_DIM,
            h <= MAX_DIM,
        ensures
            r@.len() == h,
            forall|i: int| 0 <= i < h ==> #[trigger] r@[i]@.len() == w,
            forall|i: int, j: int|
                0 <= i < h && 0 <= j < w ==> #[trigger] r@[i]@[j] == self.spec_at(
                    origin.0 + j,
                    origin.1 + i,
                ),
    {
        let mut rows: Vec<Vec<Tile>> = Vec::new();
        let mut i: usize = 0;
        while i < h
            invariant
                self.wf(),
                -MAX_COORD - MAX_DIM <= origin.0 <= MAX_COORD + MAX_DIM,
                -MAX_COORD - MAX_DIM <= origin.1 <= MAX_COORD + MAX_DIM,
                w <= MAX_DIM,
                h <= MAX_DIM,
                i <= h,
                rows@.len() == i,
                forall|a: int| 0 <= a < i ==> #[trigger] rows@[a]@.len() == w,
                forall|a: int, b: int|
                    0 <= a < i && 0 <= b < w ==> #[trigger] rows@[a]@[b] == self.spec_at(
                        origin.0 + b,
                        origin.1 + a,
                    ),
            decreases h - i,
        {
            let wy = origin.1 + i as isize;
            let mut row: Vec<Tile> = Vec::new();
            let mut j: usize = 0;
            while j < w
                invariant
                    self.wf(),
                    -MAX_COORD - MAX_DIM <= origin.0 <= MAX_COORD + MAX_DIM,
                    w <= MAX_DIM,
                    i < h,
                    h <= MAX_DIM,
                    wy == origin.1 + i,
                    j <= w,
                    row@.len() == j,
                    forall|b: int|
                        0 <= b < j ==> #[trigger] row@[b] == self.spec_at(origin.0 + b, wy as int),
                decreases w - j,
            {
                let wx = origin.0 + j as isize;
                let t = self.index_i(IPos(wx, wy));
                row.push(t);
                j += 1;
            }
            rows.push(row);
            i += 1;
        }
        rows
    }

    /// As `i_slice`, from an unsigned origin.
    pub fn slice(&self, origin: Pos, w: usize, h: usize) -> (r: Vec<Vec<Tile>>)
        requires
            self.wf(),
            origin.0 <= MAX_COORD,
            origin.1 <= MAX_COORD,
            w <= MAX_DIM,
            h <= MAX_DIM,
        ensures
            r@.len() == h,
            forall|i: int| 0 <= i < h ==> #[trigger] r@[i]@.len() == w,
            forall|i: int, j: int|
                0 <= i < h && 0 <= j < w ==> #[trigger] r@[i]@[j] == self.spec_at(
                    origin.0 + j,
                    origin.1 + i,
                ),
    {
        self.i_slice(origin.to_ipos(), w, h)
    }

    /// The square window of side `2 * radius + 1` centered on `center`.
    /// The window always has its exact fixed size, however far outside the
    /// grid the center lies; every cell past the edges is `OutOfBounds`.
    pub fn windowed_view(&self, center: IPos, radius: usize) -> (r: Vec<Vec<Tile>>)
        requires
            self.wf(),
            -MAX_COORD <= center.0 <= MAX_COORD,
            -MAX_COORD <= center.1 <= MAX_COORD,
            radius <= 10000,
        ensures
            r@.len() == 2 * radius + 1,
            forall|i: int| 0 <= i < r@.len() ==> #[trigger] r@[i]@.len() == 2 * radius + 1,
            forall|i: int, j: int|
                0 <= i < 2 * radius + 1 && 0 <= j < 2 * radius + 1 ==> #[trigger] r@[i]@[j]
                    == self.spec_at(center.0 - radius + j, center.1 - radius + i),
    {
        let side = 2 * radius + 1;
        self.i_slice(IPos(center.0 - radius as isize, center.1 - radius as isize), side, side)
    }

    /// Runtime check of `wf`, for unverified drivers.
    pub fn check_wf(&self) -> (r: bool)
        ensures
            r == self.wf(),
    {
        if self.width > MAX_DIM || self.height > MAX_DIM {
            return false;
        }
        proof {
            lemma_dims_product(self.width as int, self.height as int);
        }
        if self.tiles.len() != self.width * self.height {
            return false;
        }
        let n = self.tiles.len();
        let mut k: usize = 0;
        while k < n
            invariant
                n == self.tiles@.len(),
                k <= n,
                self.width <= MAX_DIM,
                self.height <= MAX_DIM,
                self.tiles@.len() == self.width * self.height,
                forall|a: int| 0 <= a < k ==> #[trigger] self.tiles@[a] != Tile::OutOfBounds,
            decreases n - k,
        {
            match self.tiles[k] {
                Tile::OutOfBounds => {
                    return false;
                },
                _ => {},
            }
            k += 1;
        }
        true
    }

    /// A row-major copy of the whole tile array, row by row.
    pub fn arr(&self) -> (r: Vec<Vec<Tile>>)
        requires
            self.wf(),
        ensures
            r@.len() == self.height,
            forall|y: int| 0 <= y < self.height ==> #[trigger] r@[y]@.len() == self.width,
            forall|y: int, x: int|
                0 <= y < self.height && 0 <= x < self.width ==> #[trigger] r@[y]@[x]
                    == self.spec_at(x, y),
    {
        self.slice(Pos(0, 0), self.width, self.height)
    }
}

/// `index` and `index_mut` agree on the stored tile: after a write of
/// `t` at the in-bounds position `p`, a read at `p` yields exactly `t`,
/// and a read anywhere else yields what it did before.
pub proof fn lemma_index_index_mut_agree(g1: Grid, g2: Grid, p: Pos, t: Tile)
    requires
        grid_updated(g1, g2, p.0 as int, p.1 as int, t),
    ensures
        g2.spec_at(p.0 as int, p.1 as int) == t,
        forall|x: int, y: int|
            !(x == p.0 && y == p.1) ==> #[trigger] g2.spec_at(x, y) == g1.spec_at(x, y),
{
}

/// `g2` is `g1` with the single cell `(x, y)` replaced by `t`.
pub open spec fn grid_updated(g1: Grid, g2: Grid, x: int, y: int, t: Tile) -> bool {
    &&& g2.width == g1.width
    &&& g2.height == g1.height
    &&& g2.spec_at(x, y) == t
    &&& forall|a: int, b: int|
        !(a == x && b == y) ==> #[trigger] g2.spec_at(a, b) == g1.spec_at(a, b)
}

/// `g2` is `g1` with the two distinct cells `(x1, y1)` and `(x2, y2)`
/// replaced by `t1` and `t2`.
pub open spec fn grid_updated2(
    g1: Grid,
    g2: Grid,
    x1: int,
    y1: int,
    t1: Tile,
    x2: int,
    y2: int,
    t2: Tile,
) -> bool {
    &&& g2.width == g1.width
    &&& g2.height == g1.height
    &&& g2.spec_at(x1, y1) == t1
    &&& g2.spec_at(x2, y2) == t2
    &&& forall|a: int, b: int|
        !(a == x1 && b == y1) && !(a == x2 && b == y2) ==> #[trigger] g2.spec_at(a, b)
            == g1.spec_at(a, b)
}

/// Number of entries of `s` equal to `t`.
pub open spec fn count_in(s: Seq<Tile>, t: Tile) -> nat
    decreases s.len(),
{
    if s.len() == 0 {
        0
    } else {
        count_in(s.drop_last(), t) + (if s.last() == t {
            1nat
        } else {
            0nat
        })
    }
}

/// Number of cells of `g` holding exactly `t`.
pub open spec fn tile_count(g: Grid, t: Tile) -> nat {
    count_in(g.tiles@, t)
}

/// How one overwrite moves the count: the old entry leaves, the new
/// entry arrives.
pub proof fn lemma_count_update(s: Seq<Tile>, k: int, v: Tile, t: Tile)
    requires
        0 <= k < s.len(),
    ensures
        count_in(s.update(k, v), t) + (if s[k] == t {
            1nat
        } else {
            0nat
        }) == count_in(s, t) + (if v == t {
            1nat
        } else {
            0nat
        }),
    decreases s.len(),
{
    if k == s.len() - 1 {
        assert(s.update(k, v).drop_last() =~= s.drop_last());
        assert(s.update(k, v).last() == v);
    } else {
        assert(s.update(k, v).drop_last() =~= s.drop_last().update(k, v));
        assert(s.update(k, v).last() == s.last());
        lemma_count_update(s.drop_last(), k, v, t);
    }
}

/// A sequence without `t` counts zero of it.
pub proof fn lemma_count_none(s: Seq<Tile>, t: Tile)
    requires
        forall|k: int| 0 <= k < s.len() ==> s[k] != t,
    ensures
        count_in(s, t) == 0,
    decreases s.len(),
{
    if s.len() > 0 {
        lemma_count_none(s.drop_last(), t);
    }
}

/// A sequence of nothing but `t` counts all of it.
pub proof fn lemma_count_all(s: Seq<Tile>, t: Tile)
    requires
        forall|k: int| 0 <= k < s.len() ==> s[k] == t,
    ensures
        count_in(s, t) == s.len(),
    decreases s.len(),
{
    if s.len() > 0 {
        lemma_count_all(s.drop_last(), t);
    }
}

/// When no cell reads as `t`, the backing vector holds none of it.
pub proof fn lemma_cells_to_flat(g: Grid, t: Tile)
    requires
        g.wf(),
        forall|x: int, y: int|
            0 <= x < g.width && 0 <= y < g.height ==> #[trigger] g.spec_at(x, y) != t,
    ensures
        count_in(g.tiles@, t) == 0,
{
    let w = g.width as int;
    let h = g.height as int;
    assert forall|k: int| 0 <= k < g.tiles@.len() implies g.tiles@[k] != t by {
        if w <= 0 {
            assert(w == 0);
            assert(w * h == 0) by (nonlinear_arith)
                requires
                    w == 0,
            ;
            assert(false);
        }
        let y = k / w;
        let x = k % w;
        vstd::arithmetic::div_mod::lemma_fundamental_div_mod(k, w);
        vstd::arithmetic::div_mod::lemma_mod_bound(k, w);
        vstd::arithmetic::div_mod::lemma_div_pos_is_pos(k, w);
        assert(k < w * h);
        vstd::arithmetic::div_mod::lemma_multiply_divide_lt(k, w, h);
        assert(y * w == w * y) by (nonlinear_arith);
        assert(y * w + x == k);
        assert(g.spec_at(x, y) == g.tiles@[k]);
    }
    lemma_count_none(g.tiles@, t);
}

proof fn lemma_dims_product(w: int, h: int)
    by (nonlinear_arith)
    requires
        0 <= w <= MAX_DIM,
        0 <= h <= MAX_DIM,
    ensures
        0 <= w * h <= 900000000,
{
}

/// Row-major index arithmetic stays inside the backing vector.
pub proof fn lemma_rm_bound(x: int, y: int, w: int, h: int)
    by (nonlinear_arith)
    requires
        0 <= x < w,
        0 <= y < h,
    ensures
        0 <= y * w + x < w * h,
{
}

proof fn lemma_rm_inj(x1: int, y1: int, x2: int, y2: int, w: int)
    by (nonlinear_arith)
    requires
        0 <= x1 < w,
        0 <= x2 < w,
        0 <= y1,
        0 <= y2,
        y1 * w + x1 == y2 * w + x2,
    ensures
        x1 == x2,
        y1 == y2,
{
}

} // verus!
