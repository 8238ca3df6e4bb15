use vstd::prelude::*;
use std::collections::HashMap;
use vstd::std_specs::iter::IteratorSpec;
use crate::grid::{cell, flipped, quarters, rotated, stepped, Dir, Flippable, GridWalkable, Rot, Rotable};
use crate::level_gen::DoorNumber;

verus! {

broadcast use vstd::std_specs::hash::group_hash_axioms;

/// A cell of a room.
#[derive(Clone, Copy, Debug, PartialEq, Eq, Structural)]
pub enum Tile {
    Empty,
    Ground,
    Wall,
    Door(DoorNumber),
}

/// What may lie on a cell.
#[derive(Clone, Copy, Debug, PartialEq, Eq, Structural)]
pub enum Object {
    Rock,
    Potion,
    Spikes,
}

/// A room laid out on a grid of `size.0` columns and `size.1` rows; cells
/// are listed row by row.
#[derive(Debug)]
pub struct RoomBlueprint {
    pub tiles: Vec<Tile>,
    pub objects: Option<Vec<Option<Object>>>,
    pub size: (usize, usize),
}

impl RoomBlueprint {
    /// The grid fits in `i32` coordinates and every cell has a tile (and an
    /// object slot, when there are objects).
    pub open spec fn wf(&self) -> bool {
        &&& self.size.0 <= i32::MAX
        &&& self.size.1 <= i32::MAX
        &&& self.tiles@.len() == self.size.0 * self.size.1
        &&& (self.objects matches Some(os) ==> os@.len() == self.size.0 * self.size.1)
    }

    pub open spec fn in_bounds_spec(&self, pos: (int, int)) -> bool {
        0 <= pos.0 < self.size.0 && 0 <= pos.1 < self.size.1
    }

    /// The place of a cell in the row-by-row list.
    pub open spec fn index_of(&self, pos: (int, int)) -> int {
        pos.0 + pos.1 * self.size.0
    }

    /// The tile at a cell; outside the grid, `Empty`.
    pub open spec fn tile_at_spec(&self, pos: (int, int)) -> Tile {
        if self.in_bounds_spec(pos) {
            self.tiles@[self.index_of(pos)]
        } else {
            Tile::Empty
        }
    }

    /// The object at a cell, if there are objects and the cell is on the grid.
    pub open spec fn object_at_spec(&self, pos: (int, int)) -> Option<Object> {
        match self.objects {
            Some(os) => if self.in_bounds_spec(pos) {
                os@[self.index_of(pos)]
            } else {
                None
            },
            None => None,
        }
    }

    /// A copy of the blueprint.
    pub fn copy(&self) -> (r: RoomBlueprint)
        ensures
            r.tiles@ == self.tiles@,
            r.objects.is_some() == self.objects.is_some(),
            r.objects matches Some(os) ==> os@ == self.objects->0@,
            r.size == self.size,
    {
        let mut tiles: Vec<Tile> = Vec::new();
        let mut i: usize = 0;
        while i < self.tiles.len()
            invariant
                i <= self.tiles@.len(),
                tiles@ == self.tiles@.take(i as int),
            decreases self.tiles@.len() - i,
        {
            tiles.push(self.tiles[i]);
            assert(self.tiles@.take(i + 1) =~= self.tiles@.take(i as int).push(self.tiles@[i as int]));
            i = i + 1;
        }
        assert(self.tiles@.take(self.tiles@.len() as int) =~= self.tiles@);
        let objects = match &self.objects {
            Some(os) => {
                let mut v: Vec<Option<Object>> = Vec::new();
                let mut j: usize = 0;
                while j < os.len()
                    invariant
                        j <= os@.len(),
                        v@ == os@.take(j as int),
                    decreases os@.len() - j,
                {
                    v.push(os[j]);
                    assert(os@.take(j + 1) =~= os@.take(j as int).push(os@[j as int]));
                    j = j + 1;
                }
                assert(os@.take(os@.len() as int) =~= os@);
                Some(v)
            },
            None => None,
        };
        RoomBlueprint { tiles, objects, size: self.size }
    }

    /// Whether a cell is on the grid.
    pub fn in_bounds(&self, pos: (i32, i32)) -> (r: bool)
        requires
            self.wf(),
        ensures
            r == self.in_bounds_spec(cell(pos)),
    {
        pos.0 >= 0 && pos.0 < self.size.0 as i32 && pos.1 >= 0 && pos.1 < self.size.1 as i32
    }

    fn index(&self, pos: (i32, i32)) -> (i: usize)
        requires
            self.wf(),
            self.in_bounds_spec(cell(pos)),
        ensures
            i == self.index_of(cell(pos)),
            i < self.size.0 * self.size.1,
    {
        let n = self.tiles.len();
        let x = pos.0 as usize;
        let y = pos.1 as usize;
        let w = self.size.0;
        let h = self.size.1;
        assert(y * w + x < w * h) by (nonlinear_arith)
            requires
                y < h,
                x < w,
        {
            assert(y * w <= (h - 1) * w);
            assert((h - 1) * w + w == h * w);
            assert(h * w == w * h);
        }
        x + y * w
    }

    /// The tile at a cell; outside the grid, `Empty`.
    pub fn tile_at(&self, pos: (i32, i32)) -> (t: Tile)
        requires
            self.wf(),
        ensures
            t == self.tile_at_spec(cell(pos)),
    {
        if self.in_bounds(pos) {
            self.tiles[self.index(pos)]
        } else {
            Tile::Empty
        }
    }

    /// The object at a cell, if any.
    pub fn object_at(&self, pos: (i32, i32)) -> (o: Option<Object>)
        requires
            self.wf(),
        ensures
            o == self.object_at_spec(cell(pos)),
    {
        if let Some(objects) = &self.objects {
            if self.in_bounds(pos) {
                return objects[self.index(pos)];
            }
        }
        None
    }

    /// The tiles around a cell and at it, row by row from the upper left.
    pub fn tile_neighborhood(&self, pos: (i32, i32)) -> (r: [Tile; 9])
        requires
            self.wf(),
            i32::MIN < pos.0 < i32::MAX,
            i32::MIN < pos.1 < i32::MAX,
        ensures
            r@ == neighborhood_of(self, cell(pos)),
    {
        let up = pos.step(Dir::Up);
        let down = pos.step(Dir::Down);
        let r = [
            self.tile_at(pos.step(Dir::Left).step(Dir::Up)),
            self.tile_at(up),
            self.tile_at(pos.step(Dir::Right).step(Dir::Up)),
            self.tile_at(pos.step(Dir::Left)),
            self.tile_at(pos),
            self.tile_at(pos.step(Dir::Right)),
            self.tile_at(pos.step(Dir::Left).step(Dir::Down)),
            self.tile_at(down),
            self.tile_at(pos.step(Dir::Right).step(Dir::Down)),
        ];
        assert(r@ =~= neighborhood_of(self, cell(pos)));
        r
    }

    /// Every cell of the grid, row by row.
    pub fn positions(&self) -> (r: Vec<(i32, i32)>)
        requires
            self.wf(),
        ensures
            r@.len() == self.size.0 * self.size.1,
            forall|i: int|
                0 <= i < r@.len() ==> cell(#[trigger] r@[i]) == (i % self.size.0 as int, i / self.size.0 as int),
    {
        let w = self.size.0;
        let h = self.size.1;
        let mut r: Vec<(i32, i32)> = Vec::new();
        let mut y: usize = 0;
        while y < h
            invariant
                w == self.size.0,
                h == self.size.1,
                w <= i32::MAX,
                h <= i32::MAX,
                y <= h,
                r@.len() == y * w,
                forall|i: int| 0 <= i < r@.len() ==> cell(#[trigger] r@[i]) == (i % w as int, i / w as int),
            decreases h - y,
        {
            let mut x: usize = 0;
            while x < w
                invariant
                    w == self.size.0,
                    w <= i32::MAX,
                    h <= i32::MAX,
                    y < h,
                    x <= w,
                    r@.len() == y * w + x,
                    forall|i: int| 0 <= i < r@.len() ==> cell(#[trigger] r@[i]) == (i % w as int, i / w as int),
                decreases w - x,
            {
                proof {
                    let k = y * w + x;
                    assert(k % (w as int) == x && k / (w as int) == y) by (nonlinear_arith)
                        requires
                            k == y * w + x,
                            x < w,
                            0 <= y,
                    {
                        vstd::arithmetic::div_mod::lemma_fundamental_div_mod_converse(k, w as int, y as int, x as int);
                    }
                }
                r.push((x as i32, y as i32));
                x = x + 1;
            }
            assert((y + 1) * w == y * w + w) by (nonlinear_arith);
            y = y + 1;
        }
        assert(h * w == w * h) by (nonlinear_arith);
        r
    }
}

/// The tiles around `pos` and at it, row by row from the upper left.
pub open spec fn neighborhood_of(b: &RoomBlueprint, pos: (int, int)) -> Seq<Tile> {
    seq![
        b.tile_at_spec(stepped(stepped(pos, Dir::Left), Dir::Up)),
        b.tile_at_spec(stepped(pos, Dir::Up)),
        b.tile_at_spec(stepped(stepped(pos, Dir::Right), Dir::Up)),
        b.tile_at_spec(stepped(pos, Dir::Left)),
        b.tile_at_spec(pos),
        b.tile_at_spec(stepped(pos, Dir::Right)),
        b.tile_at_spec(stepped(stepped(pos, Dir::Left), Dir::Down)),
        b.tile_at_spec(stepped(pos, Dir::Down)),
        b.tile_at_spec(stepped(stepped(pos, Dir::Right), Dir::Down)),
    ]
}

// ---------------------------------------------------------------------------
// Choosing a sprite tile by the neighbourhood of a cell
// ---------------------------------------------------------------------------

/// What a tile of a tileset asks of one cell of the neighbourhood.
#[derive(Clone, Copy, Debug, PartialEq, Eq, Structural)]
pub enum TileConstrain {
    X,
    Empty,
    Ground,
    Wall,
    Door,
    Solid,
}

pub open spec fn satisfies_spec(c: TileConstrain, t: Tile) -> bool {
    match c {
        TileConstrain::X => true,
        TileConstrain::Empty => t == Tile::Empty,
        TileConstrain::Ground => t == Tile::Ground,
        TileConstrain::Wall => t == Tile::Wall,
        TileConstrain::Door => t is Door,
        TileConstrain::Solid => t is Door || t == Tile::Wall,
    }
}

impl TileConstrain {
    /// Whether a tile meets the constraint: `X` takes anything, `Solid` a
    /// wall or a door, `Door` any door, the others that very tile.
    pub fn satisfies(&self, tile: Tile) -> (r: bool)
        ensures
            r == satisfies_spec(*self, tile),
    {
        match self {
            TileConstrain::X => true,
            TileConstrain::Empty => tile == Tile::Empty,
            TileConstrain::Ground => tile == Tile::Ground,
            TileConstrain::Wall => tile == Tile::Wall,
            TileConstrain::Door => {
                if let Tile::Door(_) = tile {
                    true
                } else {
                    false
                }
            },
            TileConstrain::Solid => match tile {
                Tile::Door(_) | Tile::Wall => true,
                _ => false,
            },
        }
    }
}

/// A tile of a tileset that is animated.
#[derive(Debug)]
pub struct AnimatedTile {
    pub name: &'static str,
    /// Any tile that matches a frame is animated.
    pub intrinsic: bool,
    pub frames: Vec<usize>,
}

/// The tiles of a sprite sheet, each with what it asks of the 3x3
/// neighbourhood of the cell it is drawn on.
#[derive(Debug)]
pub struct Tileset {
    pub pyxel_file: &'static str,
    pub tile_constrains: HashMap<usize, [TileConstrain; 9]>,
    pub animations: Vec<AnimatedTile>,
    pub tile_width: usize,
    pub tile_height: usize,
}

/// The sprite tile chosen for a cell, and how it is turned and mirrored.
#[derive(Clone, Copy, Debug, PartialEq, Eq, Structural)]
pub struct TileComponents {
    pub tile: Tile,
    pub id: usize,
    pub rotation: Rot,
    pub flipped: bool,
}

/// Every constraint is met by the tile at the same place.
pub open spec fn fits(cs: Seq<TileConstrain>, nh: Seq<Tile>) -> bool {
    forall|j: int| 0 <= j < 9 ==> #[trigger] satisfies_spec(cs[j], nh[j])
}

/// Constraints mirrored (when `flip`) and then turned by `r`.
pub open spec fn oriented(cs: Seq<TileConstrain>, flip: bool, r: Rot) -> Seq<TileConstrain> {
    rotated(if flip { flipped(cs) } else { cs }, r)
}

/// Tile `i` of the walk fits once mirrored (when `flip`) and turned by `r`.
pub open spec fn fits_at(nh: Seq<Tile>, order: Seq<(usize, [TileConstrain; 9])>, flip: bool, r: Rot, i: int) -> bool {
    fits(oriented(order[i].1@, flip, r), nh)
}

/// Candidates are tried unmirrored first, then by growing rotation, then
/// in the order of the walk.
pub open spec fn tried_before(f1: bool, r1: Rot, i1: int, f2: bool, r2: Rot, i2: int) -> bool {
    let a = if f1 { 1int } else { 0int };
    let b = if f2 { 1int } else { 0int };
    a < b || (a == b && quarters(r1) < quarters(r2)) || (a == b && r1 == r2 && i1 < i2)
}

fn fits_exec(cs: &[TileConstrain; 9], nh: &[Tile; 9]) -> (r: bool)
    ensures
        r == fits(cs@, nh@),
{
    let mut j: usize = 0;
    while j < 9
        invariant
            j <= 9,
            forall|k: int| 0 <= k < j ==> #[trigger] satisfies_spec(cs@[k], nh@[k]),
        decreases 9 - j,
    {
        if !cs[j].satisfies(nh[j]) {
            return false;
        }
        j = j + 1;
    }
    true
}

/// The tiles of a tileset, in the order in which the map is walked.
fn tiles_in_walk_order(m: &HashMap<usize, [TileConstrain; 9]>) -> (r: Vec<(usize, [TileConstrain; 9])>)
    ensures
        r@.to_set() == m@.kv_pairs(),
        r@.no_duplicates(),
{
    let mut r: Vec<(usize, [TileConstrain; 9])> = Vec::new();
    for (id, constrains) in it: m.iter()
        invariant
            r@ == it.seq().take(it.index()).unref(),
            it.seq() == vstd::std_specs::hash::spec_hash_map_iter(m).remaining(),
        ensures
            r@ == vstd::std_specs::hash::spec_hash_map_iter(m).remaining().unref(),
    {
        assert(it.seq().take(it.index() + 1).unref() =~= it.seq().take(it.index()).unref().push(
            (*id, *constrains),
        ));
        r.push((*id, *constrains));
    }
    proof {
        let v = vstd::std_specs::hash::spec_hash_map_iter(m).remaining();
        assert(v.unref().to_set() == m@.kv_pairs());
    }
    r
}

/// Tile `i` of `order`, mirrored as `f` and turned by `r`, is the first
/// candidate that fits.
pub open spec fn first_fit(nh: Seq<Tile>, order: Seq<(usize, [TileConstrain; 9])>, f: bool, r: Rot, i: int) -> bool {
    &&& 0 <= i < order.len()
    &&& fits_at(nh, order, f, r, i)
    &&& forall|f2: bool, r2: Rot, i2: int|
        0 <= i2 < order.len() && tried_before(f2, r2, i2, f, r, i) ==> !#[trigger] fits_at(nh, order, f2, r2, i2)
}

/// What choosing the sprite tile of cell `pos` may give: the walk order of
/// the map is not known, so the result is stated for some order of its
/// entries.
pub open spec fn fit_result(
    blueprint: &RoomBlueprint,
    tileset: &Tileset,
    pos: (int, int),
    r: Option<TileComponents>,
) -> bool {
    exists|order: Seq<(usize, [TileConstrain; 9])>|
        {
            &&& order.to_set() == tileset.tile_constrains@.kv_pairs()
            &&& order.no_duplicates()
            &&& match r {
                Some(c) => c.tile == blueprint.tile_at_spec(pos) && exists|i: int|
                    first_fit(neighborhood_of(blueprint, pos), order, c.flipped, c.rotation, i) && order[i].0
                        == c.id,
                None => forall|f: bool, rr: Rot, i: int|
                    0 <= i < order.len() ==> !#[trigger] fits_at(neighborhood_of(blueprint, pos), order, f, rr, i),
            }
        }
}

/// Chooses the sprite tile for a cell: the first tile of the tileset
/// (tried unmirrored, then mirrored; by growing rotation; in the order in
/// which the map is walked) whose constraints, so oriented, fit the
/// neighbourhood of the cell.
pub fn get_tile_components(pos: (i32, i32), blueprint: &RoomBlueprint, tileset: &Tileset) -> (r: Option<
    TileComponents,
>)
    requires
        blueprint.wf(),
        i32::MIN < pos.0 < i32::MAX,
        i32::MIN < pos.1 < i32::MAX,
    ensures
        fit_result(blueprint, tileset, cell(pos), r),
{
    let nh = blueprint.tile_neighborhood(pos);
    let entries = tiles_in_walk_order(&tileset.tile_constrains);
    let ghost order = entries@;
    let ghost nhs = nh@;
    let n = entries.len();
    let flips = [false, true];
    let rots = Rot::all();
    let mut fi: usize = 0;
    while fi < 2
        invariant
            fi <= 2,
            n == order.len(),
            order == entries@,
            order.to_set() == tileset.tile_constrains@.kv_pairs(),
            order.no_duplicates(),
            nhs == nh@,
            flips@ == seq![false, true],
            rots@ == seq![Rot::Deg0, Rot::Deg90, Rot::Deg180, Rot::Deg270],
            blueprint.wf(),
            nhs == neighborhood_of(blueprint, cell(pos)),
            forall|f: bool, rr: Rot, i: int|
                0 <= i < n && (if f { 1int } else { 0int }) < fi ==> !#[trigger] fits_at(nhs, order, f, rr, i),
        decreases 2 - fi,
    {
        let flip = flips[fi];
        let mut ri: usize = 0;
        while ri < 4
            invariant
                fi < 2,
                ri <= 4,
                n == order.len(),
                order == entries@,
                order.to_set() == tileset.tile_constrains@.kv_pairs(),
                order.no_duplicates(),
                nhs == nh@,
                flips@ == seq![false, true],
                flip == flips@[fi as int],
                rots@ == seq![Rot::Deg0, Rot::Deg90, Rot::Deg180, Rot::Deg270],
                blueprint.wf(),
                nhs == neighborhood_of(blueprint, cell(pos)),
                forall|f: bool, rr: Rot, i: int|
                    0 <= i < n && (if f { 1int } else { 0int }) < fi ==> !#[trigger] fits_at(nhs, order, f, rr, i),
                forall|rr: Rot, i: int| 0 <= i < n && quarters(rr) < ri ==> !#[trigger] fits_at(nhs, order, flip, rr, i),
            decreases 4 - ri,
        {
            let rot = rots[ri];
            assert(quarters(rot) == ri);
            let mut i: usize = 0;
            while i < n
                invariant
                    fi < 2,
                    ri < 4,
                    i <= n,
                    n == order.len(),
                    order == entries@,
                    order.to_set() == tileset.tile_constrains@.kv_pairs(),
                    order.no_duplicates(),
                    nhs == nh@,
                    nhs == neighborhood_of(blueprint, cell(pos)),
                    flip == flips@[fi as int],
                    flips@ == seq![false, true],
                    rots@ == seq![Rot::Deg0, Rot::Deg90, Rot::Deg180, Rot::Deg270],
                    rot == rots@[ri as int],
                    quarters(rot) == ri,
                    blueprint.wf(),
                    forall|f: bool, rr: Rot, j: int|
                        0 <= j < n && (if f { 1int } else { 0int }) < fi ==> !#[trigger] fits_at(nhs, order, f, rr, j),
                    forall|rr: Rot, j: int| 0 <= j < n && quarters(rr) < ri ==> !#[trigger] fits_at(nhs, order, flip, rr, j),
                    forall|j: int| 0 <= j < i ==> !#[trigger] fits_at(nhs, order, flip, rot, j),
                decreases n - i,
            {
                let (id, cs) = entries[i];
                let cs = if flip {
                    cs.flip_horizontally()
                } else {
                    cs
                };
                let cs = cs.rotate(&rot);
                assert(cs@ == oriented(order[i as int].1@, flip, rot));
                if fits_exec(&cs, &nh) {
                    let c = TileComponents { tile: blueprint.tile_at(pos), id, rotation: rot, flipped: flip };
                    proof {
                        assert(fits_at(nhs, order, flip, rot, i as int));
                        assert forall|f2: bool, r2: Rot, i2: int|
                            0 <= i2 < order.len() && tried_before(f2, r2, i2, flip, rot, i as int) implies !#[trigger] fits_at(
                            nhs,
                            order,
                            f2,
                            r2,
                            i2,
                        ) by {
                            if f2 != flip {
                                assert(flip == (fi == 1));
                            } else if r2 != rot {
                                assert(quarters(r2) != quarters(rot));
                            }
                        }
                        assert(first_fit(nhs, order, flip, rot, i as int));
                        assert(order[i as int] == entries@[i as int]);
                        assert(order[i as int].0 == c.id);
                        assert(c.flipped == flip && c.rotation == rot);
                        assert(first_fit(nhs, order, c.flipped, c.rotation, i as int));
                        assert(exists|k: int| first_fit(nhs, order, c.flipped, c.rotation, k) && order[k].0 == c.id);
                    }
                    return Some(c);
                }
                i = i + 1;
            }
            proof {
                assert forall|rr: Rot, j: int| 0 <= j < n && quarters(rr) < ri + 1 implies !#[trigger] fits_at(
                    nhs,
                    order,
                    flip,
                    rr,
                    j,
                ) by {
                    if quarters(rr) == ri {
                        assert(rr == rot);
                    }
                }
            }
            ri = ri + 1;
        }
        proof {
            assert forall|f: bool, rr: Rot, i: int|
                0 <= i < n && (if f { 1int } else { 0int }) < fi + 1 implies !#[trigger] fits_at(nhs, order, f, rr, i) by {
                if (if f { 1int } else { 0int }) == fi {
                    assert(f == flip);
                    assert(quarters(rr) < 4);
                }
            }
        }
        fi = fi + 1;
    }
    None
}

/// A sprite tile to place at a cell, and whether it blocks movement.
#[derive(Clone, Copy, Debug, PartialEq, Eq)]
pub struct PlacedTile {
    pub pos: (i32, i32),
    pub components: TileComponents,
    pub needs_collider: bool,
}

/// Walls and doors block movement.
pub fn needs_collider(tile: Tile) -> (b: bool)
    ensures
        b == (tile is Wall || tile is Door),
{
    match tile {
        Tile::Wall | Tile::Door(_) => true,
        _ => false,
    }
}

/// The sprite tiles of a room, cell by cell in row order: each cell gets
/// the tile chosen by `get_tile_components`, and cells where none fits get
/// nothing.
pub fn create(blueprint: &RoomBlueprint, tileset: &Tileset) -> (r: Vec<PlacedTile>)
    requires
        blueprint.wf(),
        blueprint.size.0 < i32::MAX,
        blueprint.size.1 < i32::MAX,
    ensures
        forall|k: int| #![trigger r@[k]]
            0 <= k < r@.len() ==> {
                &&& blueprint.in_bounds_spec(cell(r@[k].pos))
                &&& fit_result(blueprint, tileset, cell(r@[k].pos), Some(r@[k].components))
                &&& r@[k].needs_collider == (r@[k].components.tile is Wall || r@[k].components.tile is Door)
            },
        forall|a: int, b: int| 0 <= a < b < r@.len() ==> blueprint.index_of(cell(#[trigger] r@[a].pos))
            < blueprint.index_of(cell(#[trigger] r@[b].pos)),
        forall|p: (int, int)|
            blueprint.in_bounds_spec(p) && (forall|k: int| 0 <= k < r@.len() ==> cell(#[trigger] r@[k].pos) != p)
                ==> fit_result(blueprint, tileset, p, None),
{
    let positions = blueprint.positions();
    let w = blueprint.size.0;
    let mut r: Vec<PlacedTile> = Vec::new();
    let mut i: usize = 0;
    while i < positions.len()
        invariant
            blueprint.wf(),
            blueprint.size.0 < i32::MAX,
            blueprint.size.1 < i32::MAX,
            w == blueprint.size.0,
            i <= positions@.len(),
            positions@.len() == blueprint.size.0 * blueprint.size.1,
            forall|j: int|
                0 <= j < positions@.len() ==> cell(#[trigger] positions@[j]) == (j % w as int, j / w as int),
            forall|k: int| #![trigger r@[k]]
                0 <= k < r@.len() ==> {
                    &&& blueprint.in_bounds_spec(cell(r@[k].pos))
                    &&& fit_result(blueprint, tileset, cell(r@[k].pos), Some(r@[k].components))
                    &&& r@[k].needs_collider == (r@[k].components.tile is Wall || r@[k].components.tile is Door)
                    &&& blueprint.index_of(cell(r@[k].pos)) < i
                },
            forall|a: int, b: int| 0 <= a < b < r@.len() ==> blueprint.index_of(cell(#[trigger] r@[a].pos))
                < blueprint.index_of(cell(#[trigger] r@[b].pos)),
            forall|j: int|
                0 <= j < i && (forall|k: int| 0 <= k < r@.len() ==> cell(#[trigger] r@[k].pos) != cell(positions@[j]))
                    ==> fit_result(blueprint, tileset, cell(#[trigger] positions@[j]), None),
        decreases positions@.len() - i,
    {
        let pos = positions[i];
        proof {
            let (x, y) = (i as int % w as int, i as int / w as int);
            assert(0 <= x < w && 0 <= y < blueprint.size.1) by (nonlinear_arith)
                requires
                    0 <= i < w * blueprint.size.1,
                    x == i as int % w as int,
                    y == i as int / w as int,
                    w > 0,
            {
                vstd::arithmetic::div_mod::lemma_div_pos_is_pos(i as int, w as int);
                vstd::arithmetic::div_mod::lemma_div_by_multiple_is_strongly_ordered(i as int, (w * blueprint.size.1) as int, blueprint.size.1 as int, w as int);
            }
            assert(blueprint.index_of(cell(pos)) == i) by (nonlinear_arith)
                requires
                    cell(pos) == (i as int % w as int, i as int / w as int),
                    w > 0,
                    blueprint.index_of(cell(pos)) == cell(pos).0 + cell(pos).1 * w,
            {
                vstd::arithmetic::div_mod::lemma_fundamental_div_mod(i as int, w as int);
            }
        }
        let ghost before = r@;
        let found = get_tile_components(pos, blueprint, tileset);
        match found {
            Some(c) => {
                r.push(PlacedTile { pos, components: c, needs_collider: needs_collider(c.tile) });
            },
            None => {},
        }
        proof {
            assert forall|j: int|
                0 <= j < i + 1 && (forall|k: int| 0 <= k < r@.len() ==> cell(#[trigger] r@[k].pos) != cell(positions@[j]))
                    implies fit_result(blueprint, tileset, cell(#[trigger] positions@[j]), None) by {
                if j < i {
                    assert forall|k: int| 0 <= k < before.len() implies cell(#[trigger] before[k].pos) != cell(positions@[j]) by {
                        assert(r@[k] == before[k]);
                    }
                } else {
                    if found is Some {
                        assert(cell(r@[before.len() as int].pos) == cell(positions@[j]));
                    }
                }
            }
        }
        i = i + 1;
    }
    proof {
        assert forall|p: (int, int)|
            blueprint.in_bounds_spec(p) && (forall|k: int| 0 <= k < r@.len() ==> cell(#[trigger] r@[k].pos) != p)
                implies fit_result(blueprint, tileset, p, None) by {
            let j = blueprint.index_of(p);
            assert(0 <= j < positions@.len()) by (nonlinear_arith)
                requires
                    0 <= p.0 < w,
                    0 <= p.1 < blueprint.size.1,
                    j == p.0 + p.1 * w,
                    positions@.len() == w * blueprint.size.1,
            {
                assert(p.1 * w <= (blueprint.size.1 - 1) * w);
            }
            assert(cell(positions@[j]) == p) by (nonlinear_arith)
                requires
                    cell(positions@[j]) == (j % w as int, j / w as int),
                    j == p.0 + p.1 * w,
                    0 <= p.0 < w,
                    0 <= p.1,
            {
                vstd::arithmetic::div_mod::lemma_fundamental_div_mod_converse(j, w as int, p.1, p.0);
            }
        }
    }
    r
}

// ---------------------------------------------------------------------------
// The tileset of the dungeon
// ---------------------------------------------------------------------------

/// The constraints of each tile of the base tileset, row by row; `None`
/// for an id the tileset does not have.
pub open spec fn base_constrains(id: usize) -> Option<Seq<TileConstrain>> {
    let x = TileConstrain::X;
    let w = TileConstrain::Wall;
    let g = TileConstrain::Ground;
    let d = TileConstrain::Door;
    let s = TileConstrain::Solid;
    if id == 3 {
        Some(seq![x, x, x, x, w, w, x, w, g])
    } else if id == 4 {
        Some(seq![x, x, x, w, w, w, x, g, x])
    } else if id == 12 {
        Some(seq![x, x, x, s, w, d, x, g, x])
    } else if id == 27 {
        Some(seq![x, x, x, s, d, s, x, g, x])
    } else if id == 7 {
        Some(seq![x, x, x, x, g, x, x, x, x])
    } else if id == 2 {
        Some(seq![x, x, x, x, TileConstrain::Empty, x, x, x, x])
    } else {
        None
    }
}

/// The tileset of the dungeon, drawn from `base.pyxel` in tiles of 16 by 16,
/// with one animation, the wall with a torch.
pub fn base_tileset() -> (t: Tileset)
    ensures
        t.pyxel_file@ == "base.pyxel"@,
        t.tile_width == 16,
        t.tile_height == 16,
        forall|id: usize| #[trigger] t.tile_constrains@.contains_key(id) <==> base_constrains(id) is Some,
        forall|id: usize|
            t.tile_constrains@.contains_key(id) ==> Some(#[trigger] t.tile_constrains@[id]@) == base_constrains(id),
        t.animations@.len() == 1,
        t.animations@[0].name@ == "wall_with_torch"@,
        t.animations@[0].intrinsic,
        t.animations@[0].frames@ == seq![12usize, 13, 15],
{
    let x = TileConstrain::X;
    let w = TileConstrain::Wall;
    let g = TileConstrain::Ground;
    let d = TileConstrain::Door;
    let s = TileConstrain::Solid;
    let mut m: HashMap<usize, [TileConstrain; 9]> = HashMap::new();
    m.insert(3, [x, x, x, x, w, w, x, w, g]);
    m.insert(4, [x, x, x, w, w, w, x, g, x]);
    m.insert(4, [x, x, x, w, w, w, x, g, x]);
    m.insert(12, [x, x, x, s, w, d, x, g, x]);
    m.insert(27, [x, x, x, s, d, s, x, g, x]);
    m.insert(7, [x, x, x, x, g, x, x, x, x]);
    m.insert(2, [x, x, x, x, TileConstrain::Empty, x, x, x, x]);
    let ghost mm = m@;
    assert forall|id: usize| #[trigger] mm.contains_key(id) <==> base_constrains(id) is Some by {}
    assert forall|id: usize| mm.contains_key(id) implies Some(#[trigger] mm[id]@) == base_constrains(id) by {
        assert(mm[id]@ =~= base_constrains(id)->0);
    }
    let frames: Vec<usize> = vec![12, 13, 15];
    let animations = vec![AnimatedTile { name: "wall_with_torch", intrinsic: true, frames }];
    Tileset { pyxel_file: "base.pyxel", tile_constrains: m, animations, tile_width: 16, tile_height: 16 }
}

} // verus!
