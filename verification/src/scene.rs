use vstd::prelude::*;
use std::collections::HashMap;
use vstd::std_specs::iter::IteratorSpec;
use crate::grid::{cell, stepped, Constrain, Dir, GridWalkable, Rot};
use crate::tiles::AnimatedTile;
use crate::fw::{SceneCommand, SceneRef};

verus! {

broadcast use vstd::std_specs::hash::group_hash_axioms;

/// The four directions of the grid, under the name the scenes use.
pub type Direction = Dir;

/// The quarter turns of a sprite, under the name the scenes use.
pub type Rotation = Rot;

/// A button of the game pad.
#[derive(Clone, Copy, Debug)]
pub enum Button {
    Start,
    A,
    B,
    Left,
    Right,
    Up,
    Down,
}

/// Whether a button went down or up.
#[derive(Clone, Copy, Debug)]
pub enum ButtonState {
    Pressed,
    Released,
}

/// A font that the game ships.
#[derive(Debug, Clone, Copy, PartialEq, Eq, Hash)]
pub enum Font {
    LiberationMono,
}

impl Font {
    /// Where the font file lies among the resources.
    pub fn resource_path(&self) -> (p: &'static str)
        ensures
            p@ == "/LiberationMono-Regular.ttf"@,
    {
        match self {
            Font::LiberationMono => "/LiberationMono-Regular.ttf",
        }
    }
}

/// A text to draw, in a font and a size.
#[derive(Debug, Clone, PartialEq, Eq, Hash)]
pub struct Text {
    pub string: String,
    pub font: Font,
    pub size: usize,
}

impl Text {
    pub fn new(s: String, font: Font, size: usize) -> (t: Text)
        ensures
            t.string@ == s@,
            t.font == font,
            t.size == size,
    {
        Text { string: s, font, size }
    }
}

/// The sprite sheet a tile comes from.
#[derive(Clone, Copy, Debug)]
pub enum TilesetRef {
    PyxelFile(&'static str),
}

/// What is drawn for an entity: a tile of a sprite sheet.
#[derive(Clone, Copy, Debug)]
pub enum Sprite {
    TileRef(usize, TilesetRef),
}

/// How a sprite is turned and mirrored.
#[derive(Clone, Copy, Debug)]
pub struct SpriteTransform {
    pub rotation: Rotation,
    pub flipped: bool,
}

/// Whether a door lets the player through.
#[derive(Clone, Copy, Debug, PartialEq, Eq, Structural)]
pub enum DoorState {
    Open,
    Closed,
}

/// What the player knows of the room behind a door.
#[derive(Clone, Copy, Debug, PartialEq, Eq, Structural)]
pub enum DoorKind {
    Known,
    Unknown,
    Dark,
}

/// A cell of a room of the scene.
#[derive(Clone, Copy, Debug, PartialEq, Eq, Structural)]
pub enum Tile {
    Empty,
    Ground,
    Wall,
    Door(DoorKind, DoorState, Direction),
}

/// A grid of tiles, kept row by row: `size.0` cells wide and `size.1`
/// high.
#[derive(Debug)]
pub struct TileMap {
    tiles: Vec<Vec<Tile>>,
    size: (usize, usize),
}

/// A coordinate below `n`, with `n` taken as an `i32` as the grid does.
pub open spec fn below(p: int, n: usize) -> bool {
    0 <= p < (n as i32) as int
}

/// A coordinate that passes `below` is an index below `n`.
proof fn lemma_below(p: i32, n: usize)
    requires
        below(p as int, n),
    ensures
        (p as int) < n as int,
{
    assert(0 <= p && p < (n as i32) ==> (p as usize) < n) by (bit_vector);
}

impl TileMap {
    #[verifier::type_invariant]
    closed spec fn inv(self) -> bool {
        &&& self.tiles@.len() == self.size.1
        &&& forall|y: int| 0 <= y < self.size.1 ==> #[trigger] self.tiles@[y]@.len() == self.size.0
    }

    pub closed spec fn size(&self) -> (usize, usize) {
        self.size
    }

    /// The tiles, row by row.
    pub closed spec fn rows(&self) -> Seq<Seq<Tile>> {
        self.tiles@.map_values(|r: Vec<Tile>| r@)
    }

    pub open spec fn in_bounds_spec(&self, pos: (int, int)) -> bool {
        below(pos.0, self.size().0) && below(pos.1, self.size().1)
    }

    /// The tile at a cell; outside the grid, `Empty`.
    pub open spec fn at_spec(&self, pos: (int, int)) -> Tile {
        if self.in_bounds_spec(pos) {
            self.rows()[pos.1][pos.0]
        } else {
            Tile::Empty
        }
    }

    /// The tiles around `pos` and at it, row by row from the upper left.
    pub open spec fn neighborhood_spec(&self, pos: (int, int)) -> Seq<Tile> {
        seq![
            self.at_spec(stepped(stepped(pos, Dir::Left), Dir::Up)),
            self.at_spec(stepped(pos, Dir::Up)),
            self.at_spec(stepped(stepped(pos, Dir::Right), Dir::Up)),
            self.at_spec(stepped(pos, Dir::Left)),
            self.at_spec(pos),
            self.at_spec(stepped(pos, Dir::Right)),
            self.at_spec(stepped(stepped(pos, Dir::Left), Dir::Down)),
            self.at_spec(stepped(pos, Dir::Down)),
            self.at_spec(stepped(stepped(pos, Dir::Right), Dir::Down)),
        ]
    }

    /// A grid of the given size, every cell empty.
    pub fn new(size: (usize, usize)) -> (t: TileMap)
        ensures
            t.size() == size,
            t.rows().len() == size.1,
            forall|y: int|
                0 <= y < size.1 ==> #[trigger] t.rows()[y] == Seq::new(size.0 as nat, |x: int| Tile::Empty),
    {
        let mut tiles: Vec<Vec<Tile>> = Vec::new();
        let mut y: usize = 0;
        while y < size.1
            invariant
                y <= size.1,
                tiles@.len() == y,
                forall|k: int| 0 <= k < y ==> #[trigger] tiles@[k]@ == Seq::new(size.0 as nat, |x: int| Tile::Empty),
            decreases size.1 - y,
        {
            let mut row: Vec<Tile> = Vec::new();
            let mut x: usize = 0;
            while x < size.0
                invariant
                    x <= size.0,
                    row@ == Seq::new(x as nat, |i: int| Tile::Empty),
                decreases size.0 - x,
            {
                row.push(Tile::Empty);
                x = x + 1;
                assert(row@ =~= Seq::new(x as nat, |i: int| Tile::Empty));
            }
            tiles.push(row);
            y = y + 1;
        }
        let t = TileMap { tiles, size };
        assert(t.rows().len() == size.1);
        t
    }

    pub fn in_bounds(&self, pos: (i32, i32)) -> (r: bool)
        ensures
            r == self.in_bounds_spec(cell(pos)),
    {
        pos.0 >= 0 && pos.0 < self.size.0 as i32 && pos.1 >= 0 && pos.1 < self.size.1 as i32
    }

    /// The tile at a cell; outside the grid, `Empty`.
    pub fn at(&self, pos: (i32, i32)) -> (t: Tile)
        ensures
            t == self.at_spec(cell(pos)),
    {
        proof {
            use_type_invariant(self);
        }
        if self.in_bounds(pos) {
            proof {
                lemma_below(pos.0, self.size.0);
                lemma_below(pos.1, self.size.1);
            }
            self.tiles[pos.1 as usize][pos.0 as usize]
        } else {
            Tile::Empty
        }
    }

    /// Puts `tile` at a cell of the grid; outside it, nothing changes.
    pub fn set_at(&mut self, pos: (i32, i32), tile: Tile)
        ensures
            final(self).size() == old(self).size(),
            final(self).rows() == if old(self).in_bounds_spec(cell(pos)) {
                old(self).rows().update(pos.1 as int, old(self).rows()[pos.1 as int].update(pos.0 as int, tile))
            } else {
                old(self).rows()
            },
    {
        proof {
            use_type_invariant(&*self);
        }
        if self.in_bounds(pos) {
            proof {
                lemma_below(pos.0, self.size.0);
                lemma_below(pos.1, self.size.1);
            }
            let x = pos.0 as usize;
            let y = pos.1 as usize;
            let ghost before = self.rows();
            let mut taken = TileMap { tiles: Vec::new(), size: (0, 0) };
            std::mem::swap(self, &mut taken);
            let TileMap { mut tiles, size } = taken;
            let mut row: Vec<Tile> = Vec::new();
            std::mem::swap(&mut row, &mut tiles[y]);
            row.set(x, tile);
            tiles.set(y, row);
            *self = TileMap { tiles, size };
            assert(self.rows() =~= before.update(y as int, before[y as int].update(x as int, tile)));
        }
    }

    /// The tiles around `pos` and at it, row by row from the upper left.
    pub fn neighborhood(&self, pos: (i32, i32)) -> (r: [Tile; 9])
        requires
            i32::MIN < pos.0 < i32::MAX,
            i32::MIN < pos.1 < i32::MAX,
        ensures
            r@ == self.neighborhood_spec(cell(pos)),
    {
        let r = [
            self.at(pos.step(Dir::Left).step(Dir::Up)),
            self.at(pos.step(Dir::Up)),
            self.at(pos.step(Dir::Right).step(Dir::Up)),
            self.at(pos.step(Dir::Left)),
            self.at(pos),
            self.at(pos.step(Dir::Right)),
            self.at(pos.step(Dir::Left).step(Dir::Down)),
            self.at(pos.step(Dir::Down)),
            self.at(pos.step(Dir::Right).step(Dir::Down)),
        ];
        assert(r@ =~= self.neighborhood_spec(cell(pos)));
        r
    }
}

/// How a room opens to its neighbour in a direction.
#[derive(Clone, Copy, Debug, PartialEq, Eq, Structural)]
pub enum Connection {
    Common,
    Dark,
    NotConnected,
}

/// The source of chance of the room makers; nothing draws on it yet.
#[derive(Clone, Debug)]
pub struct Rng;

/// What a new room must offer each way. Where a direction is listed more
/// than once, the last entry counts.
#[derive(Clone, Debug)]
pub struct RoomParams {
    pub connection_constrains: Vec<(Direction, Constrain<Connection>)>,
}

/// The last constraint listed for `d`, if any.
pub open spec fn constrain_for(cs: Seq<(Direction, Constrain<Connection>)>, d: Direction) -> Option<
    Constrain<Connection>,
>
    decreases cs.len(),
{
    if cs.len() == 0 {
        None
    } else if cs.last().0 == d {
        Some(cs.last().1)
    } else {
        constrain_for(cs.drop_last(), d)
    }
}

/// The connection a new room gets towards `d`: the one asked for, or
/// `Common` where any will do or nothing is asked.
pub open spec fn connection_for(cs: Seq<(Direction, Constrain<Connection>)>, d: Direction) -> Connection {
    match constrain_for(cs, d) {
        Some(Constrain::MustBe(c)) => c,
        _ => Connection::Common,
    }
}

fn constrain_of(cs: &Vec<(Direction, Constrain<Connection>)>, d: Direction) -> (r: Option<Constrain<Connection>>)
    ensures
        r == constrain_for(cs@, d),
{
    let mut i: usize = cs.len();
    assert(cs@.take(i as int) =~= cs@);
    while i > 0
        invariant
            i <= cs@.len(),
            constrain_for(cs@.take(i as int), d) == constrain_for(cs@, d),
        decreases i,
    {
        let e = cs[i - 1];
        assert(cs@.take(i as int).drop_last() =~= cs@.take(i - 1));
        if e.0 == d {
            return Some(e.1);
        }
        i = i - 1;
    }
    None
}

/// A room before it is furnished: its size, its tiles and how it opens
/// each way.
#[derive(Debug)]
pub struct RoomBlueprint {
    pub size: (i32, i32),
    pub tile_map: TileMap,
    pub connections: Vec<(Direction, Connection)>,
}

/// What makes rooms.
pub trait RoomCreator {
    fn create_room(params: &RoomParams, rng: &mut Rng) -> RoomBlueprint;

    fn populate(&mut self, room: &mut RoomBlueprint, params: &RoomParams, rng: &mut Rng);
}

/// Makes every room 8 cells wide and 5 high.
pub struct SimpleRoomCreator;

/// The connections of a new room, in the order of `Direction::all`.
pub open spec fn connections_for(cs: Seq<(Direction, Constrain<Connection>)>) -> Seq<(Direction, Connection)> {
    seq![
        (Dir::Up, connection_for(cs, Dir::Up)),
        (Dir::Left, connection_for(cs, Dir::Left)),
        (Dir::Down, connection_for(cs, Dir::Down)),
        (Dir::Right, connection_for(cs, Dir::Right)),
    ]
}

impl RoomCreator for SimpleRoomCreator {
    /// An empty room of 8 by 5, open each way as `params` asks.
    fn create_room(params: &RoomParams, rng: &mut Rng) -> (b: RoomBlueprint)
        ensures
            b.size == (8i32, 5i32),
            b.tile_map.size() == (8usize, 5usize),
            b.tile_map.rows().len() == 5,
            forall|y: int| 0 <= y < 5 ==> #[trigger] b.tile_map.rows()[y] == Seq::new(8, |x: int| Tile::Empty),
            b.connections@ == connections_for(params.connection_constrains@),
    {
        let mut connections: Vec<(Direction, Connection)> = Vec::new();
        let dirs = Dir::all();
        let mut k: usize = 0;
        while k < 4
            invariant
                k <= 4,
                dirs@ == seq![Dir::Up, Dir::Left, Dir::Down, Dir::Right],
                connections@ == connections_for(params.connection_constrains@).take(k as int),
            decreases 4 - k,
        {
            let dir = dirs[k];
            let connection = match constrain_of(&params.connection_constrains, dir) {
                Some(constrain) => match constrain {
                    Constrain::Unrestricted => Connection::Common,
                    Constrain::MustBe(con) => con,
                },
                None => Connection::Common,
            };
            connections.push((dir, connection));
            k = k + 1;
            assert(connections@ =~= connections_for(params.connection_constrains@).take(k as int));
        }
        assert(connections@ =~= connections_for(params.connection_constrains@));
        RoomBlueprint { connections, size: (8, 5), tile_map: TileMap::new((8, 5)) }
    }

    /// Lays ground on the upper left cell.
    fn populate(&mut self, room: &mut RoomBlueprint, params: &RoomParams, rng: &mut Rng)
        ensures
            final(room).size == old(room).size,
            final(room).connections@ == old(room).connections@,
            final(room).tile_map.size() == old(room).tile_map.size(),
            final(room).tile_map.rows() == if old(room).tile_map.in_bounds_spec((0, 0)) {
                old(room).tile_map.rows().update(0, old(room).tile_map.rows()[0].update(0, Tile::Ground))
            } else {
                old(room).tile_map.rows()
            },
    {
        room.tile_map.set_at((0, 0), Tile::Ground);
    }
}

/// The cells of a grid of `size`, row by row.
pub open spec fn positions_count(size: (i32, i32)) -> int {
    if size.0 > 0 && size.1 > 0 {
        size.0 * size.1
    } else {
        0
    }
}

/// Every cell of a grid of `size`, row by row; none where a side is not
/// positive.
pub fn iter_positions(size: (i32, i32)) -> (r: Vec<(i32, i32)>)
    ensures
        r@.len() == positions_count(size),
        forall|i: int| 0 <= i < r@.len() ==> cell(#[trigger] r@[i]) == (i % size.0 as int, i / size.0 as int),
{
    let mut r: Vec<(i32, i32)> = Vec::new();
    if size.0 <= 0 || size.1 <= 0 {
        return r;
    }
    let w = size.0;
    let h = size.1;
    let mut y: i32 = 0;
    while y < h
        invariant
            w == size.0,
            h == size.1,
            w > 0,
            0 <= y <= h,
            r@.len() == y * w,
            forall|i: int| 0 <= i < r@.len() ==> cell(#[trigger] r@[i]) == (i % w as int, i / w as int),
        decreases h - y,
    {
        let mut x: i32 = 0;
        while x < w
            invariant
                w == size.0,
                w > 0,
                0 <= y < h,
                0 <= x <= w,
                r@.len() == y * w + x,
                forall|i: int| 0 <= i < r@.len() ==> cell(#[trigger] r@[i]) == (i % w as int, i / w as int),
            decreases w - x,
        {
            proof {
                let k = y * w + x;
                assert(k % (w as int) == x && k / (w as int) == y) by (nonlinear_arith)
                    requires
                        k == y * w + x,
                        0 <= x < w,
                        0 <= y,
                {
                    vstd::arithmetic::div_mod::lemma_fundamental_div_mod_converse(k, w as int, y as int, x as int);
                }
            }
            r.push((x, y));
            x = x + 1;
        }
        assert((y + 1) * w == y * w + w) by (nonlinear_arith);
        y = y + 1;
    }
    assert(h * w == w * h) by (nonlinear_arith);
    r
}

/// The tiles of a sprite sheet, each with what it asks of the 3x3
/// neighbourhood of a cell.
#[derive(Debug)]
pub struct Tileset {
    pub pyxel_file: &'static str,
    pub tiles: HashMap<usize, [Constrain<Tile>; 9]>,
    pub animations: Vec<AnimatedTile>,
}

impl Tileset {
    pub fn reference(&self) -> (r: TilesetRef)
        ensures
            r == TilesetRef::PyxelFile(self.pyxel_file),
    {
        TilesetRef::PyxelFile(self.pyxel_file)
    }
}

/// The constraints of each tile of the scene's base tileset, row by row;
/// `None` for an id it does not have.
pub open spec fn scene_base_constrains(id: usize) -> Option<Seq<Constrain<Tile>>> {
    let x = Constrain::<Tile>::Unrestricted;
    let w = Constrain::MustBe(Tile::Wall);
    let g = Constrain::MustBe(Tile::Ground);
    if id == 3 {
        Some(seq![x, x, x, x, w, w, x, w, g])
    } else if id == 4 || id == 12 {
        Some(seq![x, x, x, w, w, w, x, g, x])
    } else if id == 7 {
        Some(seq![x, x, x, x, g, x, x, x, x])
    } else {
        None
    }
}

/// The tileset of the scene, drawn from `base.pyxel`, with one animation,
/// the wall with a torch.
pub fn base_tileset() -> (t: Tileset)
    ensures
        t.pyxel_file@ == "base.pyxel"@,
        forall|id: usize| #[trigger] t.tiles@.contains_key(id) <==> scene_base_constrains(id) is Some,
        forall|id: usize| t.tiles@.contains_key(id) ==> Some(#[trigger] t.tiles@[id]@) == scene_base_constrains(id),
        t.animations@.len() == 1,
        t.animations@[0].name@ == "wall_with_torch"@,
        t.animations@[0].intrinsic,
        t.animations@[0].frames@ == seq![12usize, 13, 15],
{
    let x = Constrain::<Tile>::Unrestricted;
    let w = Constrain::MustBe(Tile::Wall);
    let g = Constrain::MustBe(Tile::Ground);
    let mut m: HashMap<usize, [Constrain<Tile>; 9]> = HashMap::new();
    m.insert(3, [x, x, x, x, w, w, x, w, g]);
    m.insert(4, [x, x, x, w, w, w, x, g, x]);
    m.insert(12, [x, x, x, w, w, w, x, g, x]);
    m.insert(7, [x, x, x, x, g, x, x, x, x]);
    let ghost mm = m@;
    assert forall|id: usize| #[trigger] mm.contains_key(id) <==> scene_base_constrains(id) is Some by {}
    assert forall|id: usize| mm.contains_key(id) implies Some(#[trigger] mm[id]@) == scene_base_constrains(id) by {
        assert(mm[id]@ =~= scene_base_constrains(id)->0);
    }
    let frames: Vec<usize> = vec![12, 13, 15];
    let animations = vec![AnimatedTile { name: "wall_with_torch", intrinsic: true, frames }];
    Tileset { pyxel_file: "base.pyxel", tiles: m, animations }
}

/// The id of the first tile met when the tiles of a tileset are walked.
pub open spec fn first_tile(m: &HashMap<usize, [Constrain<Tile>; 9]>) -> usize {
    vstd::std_specs::hash::into_iter(vstd::std_specs::hash::spec_hash_map_iter(m))[0].0
}

/// The sprite every cell gets from a tileset that has tiles: its first
/// tile in the walk, unturned and unmirrored.
pub open spec fn first_sprite(tileset: &Tileset, s: (Sprite, SpriteTransform)) -> bool {
    &&& s.0 == Sprite::TileRef(first_tile(&tileset.tiles), TilesetRef::PyxelFile(tileset.pyxel_file))
    &&& s.1.rotation == Rot::Deg0
    &&& !s.1.flipped
}

/// The sprite of the cell at `pos`. The first tile met in the walk of the
/// tileset is taken, unturned and unmirrored, whatever the neighbourhood
/// of the cell; there is none only where the tileset has no tiles.
pub fn get_tile_sprite_and_transform(pos: (i32, i32), tile_map: &TileMap, tileset: &Tileset) -> (r: Option<
    (Sprite, SpriteTransform),
>)
    requires
        i32::MIN < pos.0 < i32::MAX,
        i32::MIN < pos.1 < i32::MAX,
    ensures
        r is None <==> tileset.tiles@.dom() == Set::<usize>::empty(),
        r matches Some(s) ==> first_sprite(tileset, s) && tileset.tiles@.contains_key(first_tile(&tileset.tiles)),
{
    let _nh = tile_map.neighborhood(pos);
    for (id, _constrains) in it: tileset.tiles.iter()
        invariant
            it.index() == 0,
            it.seq() == vstd::std_specs::hash::spec_hash_map_iter(&tileset.tiles).remaining(),
            vstd::std_specs::hash::into_iter(vstd::std_specs::hash::spec_hash_map_iter(&tileset.tiles))
                == vstd::std_specs::hash::spec_hash_map_iter(&tileset.tiles).remaining().unref(),
    {
        proof {
            let v = vstd::std_specs::hash::spec_hash_map_iter(&tileset.tiles).remaining();
            assert(v.unref().to_set() == tileset.tiles@.kv_pairs());
            assert(v.unref().to_set().contains(v.unref()[0]));
        }
        return Some(
            (
                Sprite::TileRef(*id, tileset.reference()),
                SpriteTransform { rotation: Rot::Deg0, flipped: false },
            ),
        );
    }
    proof {
        let v = vstd::std_specs::hash::spec_hash_map_iter(&tileset.tiles).remaining();
        assert(v.unref().to_set() == tileset.tiles@.kv_pairs());
        assert forall|k: usize| !tileset.tiles@.dom().contains(k) by {
            if tileset.tiles@.dom().contains(k) {
                assert(tileset.tiles@.kv_pairs().contains((k, tileset.tiles@[k])));
            }
        }
        assert(tileset.tiles@.dom() =~= Set::<usize>::empty());
    }
    None
}

/// A room of the scene: the sprites of its cells, as its world holds them.
#[derive(Debug)]
pub struct Room {
    pub sprites: Vec<(Sprite, SpriteTransform)>,
}

/// The room a blueprint gives: a sprite for each cell, row by row.
pub fn room_from_blueprint(blueprint: RoomBlueprint, tileset: &Tileset) -> (room: Room)
    ensures
        tileset.tiles@.dom() == Set::<usize>::empty() ==> room.sprites@.len() == 0,
        tileset.tiles@.dom() != Set::<usize>::empty() ==> room.sprites@.len() == positions_count(blueprint.size),
        forall|i: int| 0 <= i < room.sprites@.len() ==> first_sprite(tileset, #[trigger] room.sprites@[i]),
        room.sprites@.len() > 0 ==> tileset.tiles@.contains_key(first_tile(&tileset.tiles)),
{
    let positions = iter_positions(blueprint.size);
    let mut sprites: Vec<(Sprite, SpriteTransform)> = Vec::new();
    let mut k: usize = 0;
    while k < positions.len()
        invariant
            positions@.len() == positions_count(blueprint.size),
            forall|i: int|
                0 <= i < positions@.len() ==> cell(#[trigger] positions@[i]) == (
                    i % blueprint.size.0 as int,
                    i / blueprint.size.0 as int,
                ),
            k <= positions@.len(),
            tileset.tiles@.dom() == Set::<usize>::empty() ==> sprites@.len() == 0,
            tileset.tiles@.dom() != Set::<usize>::empty() ==> sprites@.len() == k,
            forall|i: int| 0 <= i < sprites@.len() ==> first_sprite(tileset, #[trigger] sprites@[i]),
            sprites@.len() > 0 ==> tileset.tiles@.contains_key(first_tile(&tileset.tiles)),
        decreases positions@.len() - k,
    {
        let pos = positions[k];
        proof {
            let w = blueprint.size.0 as int;
            let h = blueprint.size.1 as int;
            assert(cell(positions@[k as int]) == (k as int % w, k as int / w));
            assert(w > 0 && h > 0);
            assert(0 <= k as int % w < w) by (nonlinear_arith)
                requires
                    w > 0,
            ;
            assert(0 <= k as int / w < h) by (nonlinear_arith)
                requires
                    w > 0,
                    0 <= k < w * h,
            ;
        }
        match get_tile_sprite_and_transform(pos, &blueprint.tile_map, tileset) {
            Some(s) => sprites.push(s),
            None => {},
        }
        k = k + 1;
    }
    Room { sprites }
}

/// A room of the scene, where it lies and how long ago it was visited.
#[derive(Debug)]
pub struct RoomEntry {
    pub position: (isize, isize),
    pub room: Room,
    pub age: usize,
}

/// The scene of the game: the rooms made so far and the one the player is in.
#[derive(Debug)]
pub struct GameScene {
    pub rooms: Vec<RoomEntry>,
    pub current_entry: isize,
}

/// The sprites of the first room: one for each of its 40 cells, all the
/// same tile of `base.pyxel`, unturned and unmirrored.
pub open spec fn initial_sprites(s: Seq<(Sprite, SpriteTransform)>) -> bool {
    &&& s.len() == 40
    &&& exists|id: usize|
        scene_base_constrains(id) is Some && forall|i: int|
            0 <= i < 40 ==> #[trigger] s[i].0 == Sprite::TileRef(id, s[0].0->TileRef_1) && s[i].1.rotation == Rot::Deg0
                && !s[i].1.flipped
    &&& s[0].0->TileRef_1->PyxelFile_0@ == "base.pyxel"@
}

impl GameScene {
    /// The scene at the start: one room, at the origin, where the player is.
    pub fn new() -> (g: GameScene)
        ensures
            g.current_entry == 0,
            g.rooms@.len() == 1,
            g.rooms@[0].position == (0isize, 0isize),
            g.rooms@[0].age == 0,
            initial_sprites(g.rooms@[0].room.sprites@),
    {
        let room = Self::initial_room();
        let mut rooms: Vec<RoomEntry> = Vec::new();
        rooms.push(RoomEntry { room, position: (0, 0), age: 0 });
        GameScene { rooms, current_entry: 0 }
    }

    /// The first room: open upwards, furnished from the base tileset.
    pub fn initial_room() -> (room: Room)
        ensures
            initial_sprites(room.sprites@),
    {
        let mut connection_constrains: Vec<(Direction, Constrain<Connection>)> = Vec::new();
        connection_constrains.push((Dir::Up, Constrain::MustBe(Connection::Common)));
        let mut rng = Rng;
        let bp = SimpleRoomCreator::create_room(&RoomParams { connection_constrains }, &mut rng);
        let tileset = base_tileset();
        proof {
            assert(tileset.tiles@.contains_key(3));
            assert(tileset.tiles@.dom() != Set::<usize>::empty());
        }
        let room = room_from_blueprint(bp, &tileset);
        proof {
            let id = first_tile(&tileset.tiles);
            assert(tileset.tiles@.contains_key(id));
            assert(scene_base_constrains(id) is Some);
            assert(room.sprites@.len() == 40);
            assert(first_sprite(&tileset, room.sprites@[0]));
            assert forall|i: int| 0 <= i < 40 implies #[trigger] room.sprites@[i].0 == Sprite::TileRef(
                id,
                room.sprites@[0].0->TileRef_1,
            ) && room.sprites@[i].1.rotation == Rot::Deg0 && !room.sprites@[i].1.flipped by {
                assert(first_sprite(&tileset, room.sprites@[i]));
            }
        }
        room
    }
}

/// A text of a menu and where it is drawn, the coordinates kept as the
/// bits of `f32` values.
pub open spec fn menu_line(t: (Text, (u32, u32)), s: Seq<char>, size: usize, x: u32, y: u32) -> bool {
    t.0.string@ == s && t.0.font == Font::LiberationMono && t.0.size == size && t.1 == (x, y)
}

/// The main menu: its texts, each with where it is drawn.
#[derive(Debug)]
pub struct MainMenu {
    pub texts: Vec<(Text, (u32, u32))>,
}

impl MainMenu {
    /// The menu with its title and its two hints.
    pub fn new() -> (m: MainMenu)
        ensures
            m.texts@.len() == 3,
            menu_line(m.texts@[0], "Lost and Found"@, 48, 0x4120_0000, 0x41a0_0000),
            menu_line(m.texts@[1], "Press space to start!"@, 40, 0x4120_0000, 0x42a0_0000),
            menu_line(m.texts@[2], "Or press esc to exit"@, 40, 0x4120_0000, 0x430c_0000),
    {
        let mut m = MainMenu { texts: Vec::new() };
        m.init();
        m
    }

    fn init(&mut self)
        ensures
            final(self).texts@.len() == old(self).texts@.len() + 3,
            final(self).texts@.subrange(0, old(self).texts@.len() as int) == old(self).texts@,
            menu_line(final(self).texts@[old(self).texts@.len() as int], "Lost and Found"@, 48, 0x4120_0000, 0x41a0_0000),
            menu_line(
                final(self).texts@[old(self).texts@.len() as int + 1],
                "Press space to start!"@,
                40,
                0x4120_0000,
                0x42a0_0000,
            ),
            menu_line(
                final(self).texts@[old(self).texts@.len() as int + 2],
                "Or press esc to exit"@,
                40,
                0x4120_0000,
                0x430c_0000,
            ),
    {
        let font = Font::LiberationMono;
        self.texts.push((Text::new(String::from_str("Lost and Found"), font, 48), (0x4120_0000, 0x41a0_0000)));
        self.texts.push((Text::new(String::from_str("Press space to start!"), font, 40), (0x4120_0000, 0x42a0_0000)));
        self.texts.push((Text::new(String::from_str("Or press esc to exit"), font, 40), (0x4120_0000, 0x430c_0000)));
        assert(final(self).texts@.subrange(0, old(self).texts@.len() as int) =~= old(self).texts@);
    }

    /// What the menu asks of the game when a button goes down or up: `A`
    /// goes to the game scene, `Start` leaves the game, the others ask
    /// nothing.
    pub fn on_input(&self, button: &Button, state: &ButtonState) -> (c: Option<SceneCommand>)
        ensures
            match *button {
                Button::A => c matches Some(SceneCommand::GoTo(SceneRef(n))) && n@ == "game_scene"@,
                Button::Start => c matches Some(SceneCommand::Exit),
                _ => c is None,
            },
    {
        match button {
            Button::A => Some(SceneCommand::GoTo(SceneRef("game_scene"))),
            Button::Start => Some(SceneCommand::Exit),
            _ => None,
        }
    }
}

/// The intro: how long, in nanoseconds, it still shows.
#[derive(Debug)]
pub struct Intro {
    pub remaining_nanos: u128,
}

impl Intro {
    /// An intro that shows for one second.
    pub fn new() -> (i: Intro)
        ensures
            i.remaining_nanos == 1_000_000_000,
    {
        Intro { remaining_nanos: 1_000_000_000 }
    }

    /// Lets `delta_nanos` pass: while time is left it runs down; once it
    /// has run out the intro asks to go to the main menu.
    pub fn update(&mut self, delta_nanos: u128) -> (c: Option<SceneCommand>)
        ensures
            old(self).remaining_nanos > delta_nanos ==> c is None && final(self).remaining_nanos
                == old(self).remaining_nanos - delta_nanos,
            old(self).remaining_nanos <= delta_nanos ==> final(self).remaining_nanos == old(self).remaining_nanos
                && (c matches Some(SceneCommand::GoTo(SceneRef(n))) && n@ == "main_menu"@),
    {
        if self.remaining_nanos > delta_nanos {
            self.remaining_nanos = self.remaining_nanos - delta_nanos;
            None
        } else {
            Some(SceneCommand::GoTo(SceneRef("main_menu")))
        }
    }
}

} // verus!
