use vstd::prelude::*;
use crate::level_gen::DoorNumber;
use crate::tiles::{RoomBlueprint, Tile};

verus! {

/// A rule of a dungeon: from room `at`, door `door` leads to room `to`.
#[derive(Debug)]
pub struct Rule {
    pub at: String,
    pub door: DoorNumber,
    pub to: String,
}

/// A rule being written: its starting room.
#[derive(Debug)]
pub struct RuleAt {
    pub at: String,
}

/// A rule being written: its starting room and door.
#[derive(Debug)]
pub struct RuleThrough {
    pub at: String,
    pub door: DoorNumber,
}

impl Rule {
    /// Starts a rule at room `room`.
    pub fn at(room: &str) -> (r: RuleAt)
        ensures
            r.at@ == room@,
    {
        RuleAt { at: String::from_str(room) }
    }
}

impl RuleAt {
    /// Goes on through door `door`.
    pub fn through(self, door: DoorNumber) -> (r: RuleThrough)
        ensures
            r.at@ == self.at@,
            r.door == door,
    {
        RuleThrough { at: self.at, door }
    }
}

impl RuleThrough {
    /// Ends the rule in room `room`.
    pub fn gets_to(self, room: &str) -> (r: Rule)
        ensures
            r.at@ == self.at@,
            r.door == self.door,
            r.to@ == room@,
    {
        Rule { at: self.at, door: self.door, to: String::from_str(room) }
    }
}

/// A dungeon: how many rooms are remembered, where it starts, how its rooms
/// connect, and the blueprint of each room by name.
#[derive(Debug)]
pub struct DungeonDefinition {
    pub mem_size: usize,
    pub start_room: String,
    pub lvl_gen_rules: Vec<Rule>,
    pub rooms: Vec<(String, RoomBlueprint)>,
}

/// The door numbers found among tiles, in order.
pub open spec fn doors_in(tiles: Seq<Tile>) -> Seq<DoorNumber>
    decreases tiles.len(),
{
    if tiles.len() == 0 {
        Seq::empty()
    } else {
        let rest = doors_in(tiles.drop_last());
        match tiles.last() {
            Tile::Door(d) => rest.push(d),
            _ => rest,
        }
    }
}

/// The place of the first room named `name`.
pub open spec fn room_place(rooms: Seq<(String, RoomBlueprint)>, name: Seq<char>) -> int {
    choose|i: int|
        0 <= i < rooms.len() && rooms[i].0@ == name && forall|j: int| 0 <= j < i ==> rooms[j].0@ != name
}

pub open spec fn has_room(rooms: Seq<(String, RoomBlueprint)>, name: Seq<char>) -> bool {
    exists|i: int| 0 <= i < rooms.len() && rooms[i].0@ == name
}

impl DungeonDefinition {
    fn find_room(&self, name: &String) -> (i: usize)
        requires
            has_room(self.rooms@, name@),
        ensures
            i == room_place(self.rooms@, name@),
            i < self.rooms@.len(),
    {
        let mut i: usize = 0;
        while i < self.rooms.len()
            invariant
                i <= self.rooms@.len(),
                has_room(self.rooms@, name@),
                forall|j: int| 0 <= j < i ==> self.rooms@[j].0@ != name@,
            decreases self.rooms@.len() - i,
        {
            if self.rooms[i].0 == *name {
                proof {
                    let p = room_place(self.rooms@, name@);
                    assert(0 <= p < self.rooms@.len() && self.rooms@[p].0@ == name@ && forall|j: int|
                        0 <= j < p ==> self.rooms@[j].0@ != name@) by {
                        assert(0 <= i < self.rooms@.len() && self.rooms@[i as int].0@ == name@);
                    }
                    if p < i {
                    } else if p > i {
                        assert(self.rooms@[i as int].0@ != name@);
                    }
                }
                return i;
            }
            i = i + 1;
        }
        let ghost k = choose|k: int| 0 <= k < self.rooms@.len() && self.rooms@[k].0@ == name@;
        assert(self.rooms@[k].0@ != name@);
        0
    }

    /// The door numbers of a room, in the order of its tiles.
    pub fn available_doors(&self, r: &String) -> (ds: Vec<DoorNumber>)
        requires
            has_room(self.rooms@, r@),
        ensures
            ds@ == doors_in(self.rooms@[room_place(self.rooms@, r@)].1.tiles@),
    {
        let i = self.find_room(r);
        let tiles = &self.rooms[i].1.tiles;
        let mut ds: Vec<DoorNumber> = Vec::new();
        let mut k: usize = 0;
        while k < tiles.len()
            invariant
                k <= tiles@.len(),
                ds@ == doors_in(tiles@.take(k as int)),
            decreases tiles@.len() - k,
        {
            assert(tiles@.take(k + 1).drop_last() =~= tiles@.take(k as int));
            match tiles[k] {
                Tile::Door(dn) => ds.push(dn),
                _ => {},
            }
            k = k + 1;
        }
        assert(tiles@.take(tiles@.len() as int) =~= tiles@);
        ds
    }

    /// The room where the dungeon starts.
    pub fn start_room(&self) -> (r: &String)
        ensures
            r == &self.start_room,
    {
        &self.start_room
    }

    pub fn mem_size(&self) -> (r: usize)
        ensures
            r == self.mem_size,
    {
        self.mem_size
    }

    /// A copy of the rules of the dungeon.
    pub fn get_rules(&self) -> (rs: Vec<Rule>)
        ensures
            rs@.len() == self.lvl_gen_rules@.len(),
            forall|i: int|
                0 <= i < rs@.len() ==> #[trigger] rs@[i].at@ == self.lvl_gen_rules@[i].at@ && rs@[i].door
                    == self.lvl_gen_rules@[i].door && rs@[i].to@ == self.lvl_gen_rules@[i].to@,
    {
        let mut rs: Vec<Rule> = Vec::new();
        let mut i: usize = 0;
        while i < self.lvl_gen_rules.len()
            invariant
                i <= self.lvl_gen_rules@.len(),
                rs@.len() == i,
                forall|j: int|
                    0 <= j < i ==> #[trigger] rs@[j].at@ == self.lvl_gen_rules@[j].at@ && rs@[j].door
                        == self.lvl_gen_rules@[j].door && rs@[j].to@ == self.lvl_gen_rules@[j].to@,
            decreases self.lvl_gen_rules@.len() - i,
        {
            let r = &self.lvl_gen_rules[i];
            rs.push(Rule { at: r.at.clone(), door: r.door, to: r.to.clone() });
            i = i + 1;
        }
        rs
    }

    /// Whether a room ends the dungeon: the one named `Final` or `F`.
    pub fn is_final(&self, r: &String) -> (b: bool)
        ensures
            b == (r@ == "Final"@ || r@ == "F"@),
    {
        *r == String::from_str("Final") || *r == String::from_str("F")
    }

    /// A copy of the blueprint of a room.
    pub fn create(&self, room: &String) -> (b: RoomBlueprint)
        requires
            has_room(self.rooms@, room@),
        ensures
            b.tiles@ == self.rooms@[room_place(self.rooms@, room@)].1.tiles@,
            b.objects.is_some() == self.rooms@[room_place(self.rooms@, room@)].1.objects.is_some(),
            b.objects matches Some(os) ==> os@ == self.rooms@[room_place(self.rooms@, room@)].1.objects->0@,
            b.size == self.rooms@[room_place(self.rooms@, room@)].1.size,
    {
        let i = self.find_room(room);
        self.rooms[i].1.copy()
    }
}

/// The tiles of room `S` of the first level.
pub open spec fn lvl_1_start_tiles() -> Seq<Tile> {
    seq![
        Tile::Wall, Tile::Wall, Tile::Wall, Tile::Wall, Tile::Wall,
        Tile::Wall, Tile::Ground, Tile::Ground, Tile::Ground, Tile::Wall,
        Tile::Wall, Tile::Ground, Tile::Ground, Tile::Ground, Tile::Door(1),
        Tile::Wall, Tile::Ground, Tile::Ground, Tile::Ground, Tile::Wall,
        Tile::Wall, Tile::Wall, Tile::Wall, Tile::Wall, Tile::Wall,
    ]
}

/// The tiles of room `a` of the first level.
pub open spec fn lvl_1_a_tiles() -> Seq<Tile> {
    seq![
        Tile::Wall, Tile::Wall, Tile::Door(1), Tile::Wall, Tile::Wall,
        Tile::Wall, Tile::Ground, Tile::Ground, Tile::Ground, Tile::Wall,
        Tile::Door(0), Tile::Ground, Tile::Ground, Tile::Ground, Tile::Wall,
        Tile::Wall, Tile::Ground, Tile::Ground, Tile::Ground, Tile::Wall,
        Tile::Wall, Tile::Wall, Tile::Door(2), Tile::Wall, Tile::Wall,
    ]
}

/// The tiles of room `b` of the first level.
pub open spec fn lvl_1_b_tiles() -> Seq<Tile> {
    seq![
        Tile::Wall, Tile::Wall, Tile::Wall, Tile::Wall, Tile::Wall,
        Tile::Wall, Tile::Ground, Tile::Ground, Tile::Ground, Tile::Wall,
        Tile::Wall, Tile::Ground, Tile::Ground, Tile::Ground, Tile::Door(1),
        Tile::Wall, Tile::Ground, Tile::Ground, Tile::Ground, Tile::Wall,
        Tile::Wall, Tile::Wall, Tile::Door(0), Tile::Wall, Tile::Wall,
    ]
}

/// The tiles of room `c` of the first level.
pub open spec fn lvl_1_c_tiles() -> Seq<Tile> {
    seq![
        Tile::Wall, Tile::Wall, Tile::Door(0), Tile::Wall, Tile::Wall,
        Tile::Wall, Tile::Ground, Tile::Ground, Tile::Ground, Tile::Wall,
        Tile::Wall, Tile::Ground, Tile::Ground, Tile::Ground, Tile::Door(1),
        Tile::Wall, Tile::Ground, Tile::Ground, Tile::Ground, Tile::Wall,
        Tile::Wall, Tile::Wall, Tile::Wall, Tile::Wall, Tile::Wall,
    ]
}

/// The tiles of room `d` of the first level.
pub open spec fn lvl_1_d_tiles() -> Seq<Tile> {
    seq![
        Tile::Wall, Tile::Wall, Tile::Wall, Tile::Wall, Tile::Wall,
        Tile::Wall, Tile::Ground, Tile::Ground, Tile::Ground, Tile::Wall,
        Tile::Door(0), Tile::Ground, Tile::Ground, Tile::Ground, Tile::Door(1),
        Tile::Wall, Tile::Ground, Tile::Ground, Tile::Ground, Tile::Wall,
        Tile::Wall, Tile::Wall, Tile::Wall, Tile::Wall, Tile::Wall,
    ]
}

/// The tiles of room `F` of the first level.
pub open spec fn lvl_1_last_tiles() -> Seq<Tile> {
    seq![
        Tile::Wall, Tile::Wall, Tile::Wall, Tile::Wall, Tile::Wall,
        Tile::Wall, Tile::Ground, Tile::Ground, Tile::Ground, Tile::Wall,
        Tile::Door(0), Tile::Ground, Tile::Ground, Tile::Ground, Tile::Wall,
        Tile::Wall, Tile::Ground, Tile::Ground, Tile::Ground, Tile::Wall,
        Tile::Wall, Tile::Wall, Tile::Wall, Tile::Wall, Tile::Wall,
    ]
}

fn lvl_1_start() -> (b: RoomBlueprint)
    ensures
        b.tiles@ == lvl_1_start_tiles(),
        b.objects is None,
        b.size == (5usize, 5usize),
{
    let tiles = vec![
        Tile::Wall, Tile::Wall, Tile::Wall, Tile::Wall, Tile::Wall,
        Tile::Wall, Tile::Ground, Tile::Ground, Tile::Ground, Tile::Wall,
        Tile::Wall, Tile::Ground, Tile::Ground, Tile::Ground, Tile::Door(1),
        Tile::Wall, Tile::Ground, Tile::Ground, Tile::Ground, Tile::Wall,
        Tile::Wall, Tile::Wall, Tile::Wall, Tile::Wall, Tile::Wall,
    ];
    assert(tiles@ =~= lvl_1_start_tiles());
    RoomBlueprint { tiles, objects: None, size: (5, 5) }
}

fn lvl_1_a() -> (b: RoomBlueprint)
    ensures
        b.tiles@ == lvl_1_a_tiles(),
        b.objects is None,
        b.size == (5usize, 5usize),
{
    let tiles = vec![
        Tile::Wall, Tile::Wall, Tile::Door(1), Tile::Wall, Tile::Wall,
        Tile::Wall, Tile::Ground, Tile::Ground, Tile::Ground, Tile::Wall,
        Tile::Door(0), Tile::Ground, Tile::Ground, Tile::Ground, Tile::Wall,
        Tile::Wall, Tile::Ground, Tile::Ground, Tile::Ground, Tile::Wall,
        Tile::Wall, Tile::Wall, Tile::Door(2), Tile::Wall, Tile::Wall,
    ];
    assert(tiles@ =~= lvl_1_a_tiles());
    RoomBlueprint { tiles, objects: None, size: (5, 5) }
}

fn lvl_1_b() -> (b: RoomBlueprint)
    ensures
        b.tiles@ == lvl_1_b_tiles(),
        b.objects is None,
        b.size == (5usize, 5usize),
{
    let tiles = vec![
        Tile::Wall, Tile::Wall, Tile::Wall, Tile::Wall, Tile::Wall,
        Tile::Wall, Tile::Ground, Tile::Ground, Tile::Ground, Tile::Wall,
        Tile::Wall, Tile::Ground, Tile::Ground, Tile::Ground, Tile::Door(1),
        Tile::Wall, Tile::Ground, Tile::Ground, Tile::Ground, Tile::Wall,
        Tile::Wall, Tile::Wall, Tile::Door(0), Tile::Wall, Tile::Wall,
    ];
    assert(tiles@ =~= lvl_1_b_tiles());
    RoomBlueprint { tiles, objects: None, size: (5, 5) }
}

fn lvl_1_c() -> (b: RoomBlueprint)
    ensures
        b.tiles@ == lvl_1_c_tiles(),
        b.objects is None,
        b.size == (5usize, 5usize),
{
    let tiles = vec![
        Tile::Wall, Tile::Wall, Tile::Door(0), Tile::Wall, Tile::Wall,
        Tile::Wall, Tile::Ground, Tile::Ground, Tile::Ground, Tile::Wall,
        Tile::Wall, Tile::Ground, Tile::Ground, Tile::Ground, Tile::Door(1),
        Tile::Wall, Tile::Ground, Tile::Ground, Tile::Ground, Tile::Wall,
        Tile::Wall, Tile::Wall, Tile::Wall, Tile::Wall, Tile::Wall,
    ];
    assert(tiles@ =~= lvl_1_c_tiles());
    RoomBlueprint { tiles, objects: None, size: (5, 5) }
}

fn lvl_1_d() -> (b: RoomBlueprint)
    ensures
        b.tiles@ == lvl_1_d_tiles(),
        b.objects is None,
        b.size == (5usize, 5usize),
{
    let tiles = vec![
        Tile::Wall, Tile::Wall, Tile::Wall, Tile::Wall, Tile::Wall,
        Tile::Wall, Tile::Ground, Tile::Ground, Tile::Ground, Tile::Wall,
        Tile::Door(0), Tile::Ground, Tile::Ground, Tile::Ground, Tile::Door(1),
        Tile::Wall, Tile::Ground, Tile::Ground, Tile::Ground, Tile::Wall,
        Tile::Wall, Tile::Wall, Tile::Wall, Tile::Wall, Tile::Wall,
    ];
    assert(tiles@ =~= lvl_1_d_tiles());
    RoomBlueprint { tiles, objects: None, size: (5, 5) }
}

fn lvl_1_last() -> (b: RoomBlueprint)
    ensures
        b.tiles@ == lvl_1_last_tiles(),
        b.objects is None,
        b.size == (5usize, 5usize),
{
    let tiles = vec![
        Tile::Wall, Tile::Wall, Tile::Wall, Tile::Wall, Tile::Wall,
        Tile::Wall, Tile::Ground, Tile::Ground, Tile::Ground, Tile::Wall,
        Tile::Door(0), Tile::Ground, Tile::Ground, Tile::Ground, Tile::Wall,
        Tile::Wall, Tile::Ground, Tile::Ground, Tile::Ground, Tile::Wall,
        Tile::Wall, Tile::Wall, Tile::Wall, Tile::Wall, Tile::Wall,
    ];
    assert(tiles@ =~= lvl_1_last_tiles());
    RoomBlueprint { tiles, objects: None, size: (5, 5) }
}

/// The rooms of the first level, by name, in order.
pub open spec fn lvl_1_rooms() -> Seq<(Seq<char>, Seq<Tile>)> {
    seq![
        ("S"@, lvl_1_start_tiles()),
        ("a"@, lvl_1_a_tiles()),
        ("b"@, lvl_1_b_tiles()),
        ("c"@, lvl_1_c_tiles()),
        ("d"@, lvl_1_d_tiles()),
        ("F"@, lvl_1_last_tiles()),
    ]
}

/// The rules of the first level, as (from, door, to), in order.
pub open spec fn lvl_1_rules() -> Seq<(Seq<char>, DoorNumber, Seq<char>)> {
    seq![
        ("S"@, 1usize, "a"@),
        ("a"@, 1usize, "b"@),
        ("a"@, 2usize, "c"@),
        ("b"@, 1usize, "d"@),
        ("c"@, 1usize, "d"@),
        ("d"@, 1usize, "F"@),
    ]
}

/// The first level: six rooms of 5 by 5 cells, from `S` to `F`.
pub fn lvl_1() -> (d: DungeonDefinition)
    ensures
        d.mem_size == 9,
        d.start_room@ == "S"@,
        d.lvl_gen_rules@.len() == lvl_1_rules().len(),
        forall|i: int|
            0 <= i < d.lvl_gen_rules@.len() ==> (#[trigger] d.lvl_gen_rules@[i].at@, d.lvl_gen_rules@[i].door,
                d.lvl_gen_rules@[i].to@) == lvl_1_rules()[i],
        d.rooms@.len() == lvl_1_rooms().len(),
        forall|i: int|
            0 <= i < d.rooms@.len() ==> (#[trigger] d.rooms@[i].0@, d.rooms@[i].1.tiles@) == lvl_1_rooms()[i]
                && d.rooms@[i].1.objects is None && d.rooms@[i].1.size == (5usize, 5usize),
{
    let mut rules: Vec<Rule> = Vec::new();
    rules.push(Rule::at("S").through(1).gets_to("a"));
    rules.push(Rule::at("a").through(1).gets_to("b"));
    rules.push(Rule::at("a").through(2).gets_to("c"));
    rules.push(Rule::at("b").through(1).gets_to("d"));
    rules.push(Rule::at("c").through(1).gets_to("d"));
    rules.push(Rule::at("d").through(1).gets_to("F"));
    let mut rooms: Vec<(String, RoomBlueprint)> = Vec::new();
    rooms.push((String::from_str("S"), lvl_1_start()));
    rooms.push((String::from_str("a"), lvl_1_a()));
    rooms.push((String::from_str("b"), lvl_1_b()));
    rooms.push((String::from_str("c"), lvl_1_c()));
    rooms.push((String::from_str("d"), lvl_1_d()));
    rooms.push((String::from_str("F"), lvl_1_last()));
    DungeonDefinition { mem_size: 9, start_room: String::from_str("S"), lvl_gen_rules: rules, rooms }
}

} // verus!
