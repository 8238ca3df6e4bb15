use vstd::prelude::*;

verus! {

// ---------------------------------------------------------------------------
// Rooms, doors and rules
// ---------------------------------------------------------------------------

/// The rooms of a level.
#[derive(Clone, Copy, Debug, PartialEq, Eq, Structural, Hash)]
pub enum Room {
    S,
    A,
    B,
    C,
    F,
    X,
}

pub type DoorNumber = usize;

pub type CreatedNewRoom = bool;

/// The place of a room in a memory table.
pub open spec fn room_index(r: Room) -> int {
    match r {
        Room::S => 0,
        Room::A => 1,
        Room::B => 2,
        Room::C => 3,
        Room::F => 4,
        Room::X => 5,
    }
}

/// The room kept at place `i` of a memory table.
pub open spec fn room_at(i: int) -> Room {
    if i == 0 {
        Room::S
    } else if i == 1 {
        Room::A
    } else if i == 2 {
        Room::B
    } else if i == 3 {
        Room::C
    } else if i == 4 {
        Room::F
    } else {
        Room::X
    }
}

/// The number of rooms.
pub const ROOM_COUNT: usize = 6;

proof fn lemma_room_index(r: Room)
    ensures
        0 <= room_index(r) < 6,
        room_at(room_index(r)) == r,
{
}

fn index_of(r: Room) -> (i: usize)
    ensures
        i == room_index(r),
{
    match r {
        Room::S => 0,
        Room::A => 1,
        Room::B => 2,
        Room::C => 3,
        Room::F => 4,
        Room::X => 5,
    }
}

fn room_of(i: usize) -> (r: Room)
    requires
        i < 6,
    ensures
        r == room_at(i as int),
        room_index(r) == i,
{
    if i == 0 {
        Room::S
    } else if i == 1 {
        Room::A
    } else if i == 2 {
        Room::B
    } else if i == 3 {
        Room::C
    } else if i == 4 {
        Room::F
    } else {
        Room::X
    }
}

/// The doors of each room.
pub open spec fn doors_of(r: Room) -> Seq<DoorNumber> {
    match r {
        Room::F => seq![0],
        Room::S => seq![1],
        Room::B | Room::C | Room::X => seq![0, 1],
        Room::A => seq![0, 1, 2],
    }
}

/// Whether one may go back from a room.
pub fn can_return(r: Room) -> (b: bool)
    ensures
        b == (r != Room::S),
{
    r != Room::S
}

/// Whether a room ends the level.
pub fn is_final(r: Room) -> (b: bool)
    ensures
        b == (r == Room::F),
{
    r == Room::F
}

/// The doors of a room.
pub fn available_doors(r: Room) -> (ds: Vec<DoorNumber>)
    ensures
        ds@ == doors_of(r),
{
    let ds = match r {
        Room::F => vec![0],
        Room::S => vec![1],
        Room::B | Room::C | Room::X => vec![0, 1],
        Room::A => vec![0, 1, 2],
    };
    assert(ds@ =~= doors_of(r));
    ds
}

/// A rule: after walking through the rooms of `pattern` (the last one being
/// the current room), going through `door` leads to a new room `to`.
#[derive(Debug)]
pub struct Rule {
    pub pattern: Vec<Room>,
    pub door: DoorNumber,
    pub to: Room,
}

pub struct RuleV {
    pub pattern: Seq<Room>,
    pub door: DoorNumber,
    pub to: Room,
}

impl View for Rule {
    type V = RuleV;

    open spec fn view(&self) -> RuleV {
        RuleV { pattern: self.pattern@, door: self.door, to: self.to }
    }
}

pub open spec fn rule_v(pattern: Seq<Room>, door: DoorNumber, to: Room) -> RuleV {
    RuleV { pattern, door, to }
}

/// The rules of the level, in order.
pub open spec fn rules_spec() -> Seq<RuleV> {
    seq![
        rule_v(seq![Room::S], 1, Room::A),
        rule_v(seq![Room::A], 1, Room::B),
        rule_v(seq![Room::A], 2, Room::C),
        rule_v(seq![Room::S, Room::A, Room::B], 1, Room::X),
        rule_v(seq![Room::B, Room::A, Room::B], 1, Room::X),
        rule_v(seq![Room::B, Room::X, Room::B], 1, Room::X),
        rule_v(seq![Room::X, Room::A, Room::B], 1, Room::X),
        rule_v(seq![Room::C, Room::A, Room::B], 1, Room::F),
        rule_v(seq![Room::S, Room::A, Room::C], 1, Room::X),
        rule_v(seq![Room::C, Room::A, Room::C], 1, Room::X),
        rule_v(seq![Room::C, Room::X, Room::C], 1, Room::X),
        rule_v(seq![Room::X, Room::A, Room::C], 1, Room::X),
        rule_v(seq![Room::B, Room::A, Room::C], 1, Room::F),
        rule_v(seq![Room::X], 1, Room::A),
    ]
}

pub open spec fn rules_view(rs: Seq<Rule>) -> Seq<RuleV> {
    rs.map_values(|r: Rule| r@)
}

fn rule(pattern: Vec<Room>, door: DoorNumber, to: Room) -> (r: Rule)
    ensures
        r@ == rule_v(pattern@, door, to),
{
    Rule { pattern, door, to }
}

impl Rule {
    /// A copy of the rule.
    pub fn copy(&self) -> (r: Rule)
        ensures
            r@ == self@,
    {
        Rule { pattern: copy_rooms(&self.pattern), door: self.door, to: self.to }
    }
}

fn copy_rooms(v: &Vec<Room>) -> (r: Vec<Room>)
    ensures
        r@ == v@,
{
    let mut r: Vec<Room> = Vec::new();
    let mut i: usize = 0;
    while i < v.len()
        invariant
            i <= v@.len(),
            r@ == v@.take(i as int),
        decreases v@.len() - i,
    {
        r.push(v[i]);
        assert(v@.take(i + 1) =~= v@.take(i as int).push(v@[i as int]));
        i = i + 1;
    }
    assert(v@.take(v@.len() as int) =~= v@);
    r
}

fn one(a: Room) -> (r: Vec<Room>)
    ensures
        r@ == seq![a],
{
    let mut r: Vec<Room> = Vec::new();
    r.push(a);
    assert(r@ =~= seq![a]);
    r
}

fn three(a: Room, b: Room, c: Room) -> (r: Vec<Room>)
    ensures
        r@ == seq![a, b, c],
{
    let mut r: Vec<Room> = Vec::new();
    r.push(a);
    r.push(b);
    r.push(c);
    assert(r@ =~= seq![a, b, c]);
    r
}

/// The rules of the level.
pub fn get_rules() -> (rs: Vec<Rule>)
    ensures
        rules_view(rs@) == rules_spec(),
{
    let mut rs: Vec<Rule> = Vec::new();
    rs.push(rule(one(Room::S), 1, Room::A));
    rs.push(rule(one(Room::A), 1, Room::B));
    rs.push(rule(one(Room::A), 2, Room::C));
    rs.push(rule(three(Room::S, Room::A, Room::B), 1, Room::X));
    rs.push(rule(three(Room::B, Room::A, Room::B), 1, Room::X));
    rs.push(rule(three(Room::B, Room::X, Room::B), 1, Room::X));
    rs.push(rule(three(Room::X, Room::A, Room::B), 1, Room::X));
    rs.push(rule(three(Room::C, Room::A, Room::B), 1, Room::F));
    rs.push(rule(three(Room::S, Room::A, Room::C), 1, Room::X));
    rs.push(rule(three(Room::C, Room::A, Room::C), 1, Room::X));
    rs.push(rule(three(Room::C, Room::X, Room::C), 1, Room::X));
    rs.push(rule(three(Room::X, Room::A, Room::C), 1, Room::X));
    rs.push(rule(three(Room::B, Room::A, Room::C), 1, Room::F));
    rs.push(rule(one(Room::X), 1, Room::A));
    assert(rules_view(rs@) =~= rules_spec());
    rs
}

// ---------------------------------------------------------------------------
// Memories of rooms
// ---------------------------------------------------------------------------

/// What is remembered of a room: how many steps ago it was last entered, and
/// where its doors lead (by door number, no door twice).
#[derive(Debug)]
pub struct RoomMemory {
    pub age: usize,
    pub connections: Vec<(DoorNumber, Room)>,
}

pub struct MemV {
    pub age: nat,
    pub connections: Map<DoorNumber, Room>,
}

pub open spec fn has_door(c: Seq<(DoorNumber, Room)>, d: DoorNumber) -> bool {
    exists|i: int| 0 <= i < c.len() && c[i].0 == d
}

pub open spec fn doors_unique(c: Seq<(DoorNumber, Room)>) -> bool {
    forall|i: int, j: int| 0 <= i < c.len() && 0 <= j < c.len() && c[i].0 == c[j].0 ==> i == j
}

/// The connections as a map from door to room.
pub open spec fn conn_map(c: Seq<(DoorNumber, Room)>) -> Map<DoorNumber, Room> {
    Map::new(
        |d: DoorNumber| has_door(c, d),
        |d: DoorNumber| c[choose|i: int| 0 <= i < c.len() && c[i].0 == d].1,
    )
}

impl View for RoomMemory {
    type V = MemV;

    open spec fn view(&self) -> MemV {
        MemV { age: self.age as nat, connections: conn_map(self.connections@) }
    }
}

proof fn lemma_conn_at(c: Seq<(DoorNumber, Room)>, i: int)
    requires
        doors_unique(c),
        0 <= i < c.len(),
    ensures
        conn_map(c).contains_key(c[i].0),
        conn_map(c)[c[i].0] == c[i].1,
{
    let d = c[i].0;
    assert(has_door(c, d));
    let k = choose|k: int| 0 <= k < c.len() && c[k].0 == d;
    assert(k == i);
}

fn copy_connections(v: &Vec<(DoorNumber, Room)>) -> (r: Vec<(DoorNumber, Room)>)
    ensures
        r@ == v@,
{
    let mut r: Vec<(DoorNumber, Room)> = Vec::new();
    let mut i: usize = 0;
    while i < v.len()
        invariant
            i <= v@.len(),
            r@ == v@.take(i as int),
        decreases v@.len() - i,
    {
        r.push(v[i]);
        assert(v@.take(i + 1) =~= v@.take(i as int).push(v@[i as int]));
        i = i + 1;
    }
    assert(v@.take(v@.len() as int) =~= v@);
    r
}

/// Where door `d` leads, if it is remembered.
fn find_door(c: &Vec<(DoorNumber, Room)>, d: DoorNumber) -> (r: Option<Room>)
    requires
        doors_unique(c@),
    ensures
        r == (if conn_map(c@).contains_key(d) {
            Some(conn_map(c@)[d])
        } else {
            None::<Room>
        }),
{
    let mut i: usize = 0;
    while i < c.len()
        invariant
            i <= c@.len(),
            doors_unique(c@),
            forall|j: int| 0 <= j < i ==> c@[j].0 != d,
        decreases c@.len() - i,
    {
        if c[i].0 == d {
            proof {
                lemma_conn_at(c@, i as int);
            }
            return Some(c[i].1);
        }
        i = i + 1;
    }
    None
}

/// The connections that do not lead to `o`.
pub open spec fn without_target(c: Map<DoorNumber, Room>, o: Room) -> Map<DoorNumber, Room> {
    Map::new(|d: DoorNumber| c.contains_key(d) && c[d] != o, |d: DoorNumber| c[d])
}

fn retain_not_leading_to(c: &Vec<(DoorNumber, Room)>, o: Room) -> (r: Vec<(DoorNumber, Room)>)
    requires
        doors_unique(c@),
    ensures
        doors_unique(r@),
        conn_map(r@) == without_target(conn_map(c@), o),
{
    let mut r: Vec<(DoorNumber, Room)> = Vec::new();
    let ghost mut src: Seq<int> = Seq::empty();
    let mut i: usize = 0;
    while i < c.len()
        invariant
            i <= c@.len(),
            doors_unique(c@),
            doors_unique(r@),
            src.len() == r@.len(),
            forall|k: int| #![trigger src[k]] 0 <= k < r@.len() ==> 0 <= src[k] && src[k] < i && c@[src[k]] == r@[k]
                && r@[k].1 != o,
            forall|j: int| 0 <= j < i && #[trigger] c@[j].1 != o ==> has_door(r@, c@[j].0),
        decreases c@.len() - i,
    {
        let e = c[i];
        let ghost prev = r@;
        let ghost prev_src = src;
        if e.1 != o {
            r.push(e);
            proof {
                src = src.push(i as int);
                assert forall|a: int, b: int|
                    0 <= a < r@.len() && 0 <= b < r@.len() && r@[a].0 == r@[b].0 implies a == b by {
                    if a < prev.len() && b == prev.len() {
                        assert(src[a] < i);
                        assert(c@[src[a]].0 == c@[i as int].0);
                    }
                    if b < prev.len() && a == prev.len() {
                        assert(src[b] < i);
                        assert(c@[src[b]].0 == c@[i as int].0);
                    }
                }
                assert forall|k: int| #![trigger src[k]] 0 <= k < r@.len() implies 0 <= src[k] && src[k] < i + 1
                    && c@[src[k]] == r@[k] && r@[k].1 != o by {
                    if k < prev.len() {
                        assert(src[k] == prev_src[k]);
                        assert(r@[k] == prev[k]);
                    }
                }
                assert forall|j: int| 0 <= j < i + 1 && #[trigger] c@[j].1 != o implies has_door(r@, c@[j].0) by {
                    if j < i {
                        assert(has_door(prev, c@[j].0));
                        let k = choose|k: int| 0 <= k < prev.len() && prev[k].0 == c@[j].0;
                        assert(r@[k] == prev[k]);
                    } else {
                        assert(r@[prev.len() as int] == c@[j]);
                    }
                }
            }
        } else {
            assert forall|k: int| 0 <= k < r@.len() implies r@[k].1 != o by {
                assert(src[k] >= 0);
            }
        }
        i = i + 1;
    }
    proof {
        assert forall|d: DoorNumber| #[trigger] conn_map(r@).contains_key(d) == without_target(conn_map(c@), o).contains_key(d)
            && (conn_map(r@).contains_key(d) ==> conn_map(r@)[d] == without_target(conn_map(c@), o)[d]) by {
            if has_door(r@, d) {
                let k = choose|k: int| 0 <= k < r@.len() && r@[k].0 == d;
                let j = src[k];
                lemma_conn_at(r@, k);
                lemma_conn_at(c@, j);
            }
            if conn_map(c@).contains_key(d) && conn_map(c@)[d] != o {
                let j = choose|j: int| 0 <= j < c@.len() && c@[j].0 == d;
                lemma_conn_at(c@, j);
                assert(has_door(r@, d));
                let k = choose|k: int| 0 <= k < r@.len() && r@[k].0 == d;
                lemma_conn_at(r@, k);
                lemma_conn_at(c@, src[k]);
            }
        }
        assert(conn_map(r@) =~= without_target(conn_map(c@), o));
    }
    r
}

// ---------------------------------------------------------------------------
// The table of memories, one place per room
// ---------------------------------------------------------------------------

/// The memories held in a table, by room.
pub open spec fn table_view(t: Seq<Option<RoomMemory>>) -> Map<Room, MemV> {
    Map::new(|r: Room| t[room_index(r)] is Some, |r: Room| t[room_index(r)]->0@)
}

/// A table has one place per room, and no memory in it names a door twice.
pub open spec fn table_ok(t: Seq<Option<RoomMemory>>) -> bool {
    &&& t.len() == 6
    &&& forall|j: int| 0 <= j < 6 && #[trigger] t[j] is Some ==> doors_unique(t[j]->0.connections@)
}

/// Every memory gets one step older, except `reset`, which becomes the newest.
pub open spec fn bumped(m: Map<Room, MemV>, reset: Option<Room>) -> Map<Room, MemV> {
    Map::new(
        |r: Room| m.contains_key(r),
        |r: Room|
            MemV {
                age: if reset == Some(r) {
                    0
                } else {
                    m[r].age + 1
                },
                connections: m[r].connections,
            },
    )
}

/// The memory of `o` is dropped, and so is every connection that leads to it.
pub open spec fn forget(m: Map<Room, MemV>, o: Room) -> Map<Room, MemV> {
    Map::new(
        |r: Room| m.contains_key(r) && r != o,
        |r: Room| MemV { age: m[r].age, connections: without_target(m[r].connections, o) },
    )
}

/// `r` has a memory, and none is older.
pub open spec fn is_oldest(m: Map<Room, MemV>, r: Room) -> bool {
    &&& m.contains_key(r)
    &&& forall|q: Room| #[trigger] m.contains_key(q) ==> m[q].age <= m[r].age
}

/// The room whose memory is the oldest.
pub open spec fn oldest(m: Map<Room, MemV>) -> Room {
    choose|r: Room| is_oldest(m, r)
}

/// No two memories have the same age.
pub open spec fn ages_distinct(m: Map<Room, MemV>) -> bool {
    forall|a: Room, b: Room|
        #[trigger] m.contains_key(a) && #[trigger] m.contains_key(b) && a != b ==> m[a].age != m[b].age
}

/// Every remembered connection leads to a remembered room.
pub open spec fn targets_known(m: Map<Room, MemV>) -> bool {
    forall|r: Room, d: DoorNumber|
        #[trigger] m.contains_key(r) && #[trigger] m[r].connections.contains_key(d) ==> m.contains_key(
            m[r].connections[d],
        )
}

/// Every memory is younger than the largest `usize`.
pub open spec fn ages_bounded(m: Map<Room, MemV>) -> bool {
    forall|r: Room| #[trigger] m.contains_key(r) ==> m[r].age < usize::MAX
}

fn bump_ages(t: &mut Vec<Option<RoomMemory>>, reset: Option<Room>)
    requires
        table_ok(old(t)@),
        ages_bounded(table_view(old(t)@)),
    ensures
        table_ok(final(t)@),
        table_view(final(t)@) == bumped(table_view(old(t)@), reset),
{
    let ghost t0 = t@;
    let mut j: usize = 0;
    while j < ROOM_COUNT
        invariant
            j <= 6,
            t@.len() == 6,
            table_ok(t0),
            ages_bounded(table_view(t0)),
            forall|k: int| 0 <= k < 6 ==> (#[trigger] t@[k] is Some == t0[k] is Some),
            forall|k: int| 0 <= k < 6 && #[trigger] t@[k] is Some ==> t@[k]->0.connections@ == t0[k]->0.connections@,
            forall|k: int| 0 <= k < j && #[trigger] t@[k] is Some ==> t@[k]->0.age == (if reset == Some(
                room_at(k),
            ) {
                0
            } else {
                t0[k]->0.age + 1
            }),
            forall|k: int| j <= k < 6 && #[trigger] t@[k] is Some ==> t@[k]->0.age == t0[k]->0.age,
        decreases 6 - j,
    {
        let r = room_of(j);
        let is_reset = match reset {
            Some(rr) => rr == r,
            None => false,
        };
        let slot = match &t[j] {
            Some(m) => {
                proof {
                    assert(table_view(t0).contains_key(r));
                }
                let age = if is_reset {
                    0
                } else {
                    m.age + 1
                };
                Some(RoomMemory { age, connections: copy_connections(&m.connections) })
            },
            None => None,
        };
        t.set(j, slot);
        j = j + 1;
    }
    proof {
        assert forall|k: int| 0 <= k < 6 && #[trigger] t@[k] is Some implies doors_unique(t@[k]->0.connections@) by {
            assert(t0[k] is Some);
        }
        assert forall|r: Room| #[trigger] table_view(t@).contains_key(r) == bumped(table_view(t0), reset).contains_key(r)
            && (table_view(t@).contains_key(r) ==> table_view(t@)[r] == bumped(table_view(t0), reset)[r]) by {
            lemma_room_index(r);
        }
        assert(table_view(t@) =~= bumped(table_view(t0), reset));
    }
}

fn oldest_in(t: &Vec<Option<RoomMemory>>) -> (o: Room)
    requires
        table_ok(t@),
        table_view(t@).dom() != Set::<Room>::empty(),
    ensures
        is_oldest(table_view(t@), o),
{
    let mut best: usize = ROOM_COUNT;
    let mut best_age: usize = 0;
    let mut j: usize = 0;
    while j < ROOM_COUNT
        invariant
            j <= 6,
            t@.len() == 6,
            best <= 6,
            best < 6 ==> best < j && t@[best as int] is Some && t@[best as int]->0.age == best_age,
            best == 6 ==> forall|k: int| 0 <= k < j ==> #[trigger] t@[k] is None,
            forall|k: int| 0 <= k < j && #[trigger] t@[k] is Some ==> t@[k]->0.age <= best_age,
        decreases 6 - j,
    {
        match &t[j] {
            Some(m) => {
                if best == ROOM_COUNT || m.age >= best_age {
                    best = j;
                    best_age = m.age;
                }
            },
            None => {},
        }
        j = j + 1;
    }
    proof {
        if best == 6 {
            assert forall|q: Room| !#[trigger] table_view(t@).dom().contains(q) by {
                lemma_room_index(q);
            }
            assert(table_view(t@).dom() =~= Set::<Room>::empty());
        }
    }
    let o = room_of(best);
    proof {
        assert forall|q: Room| #[trigger] table_view(t@).contains_key(q) implies table_view(t@)[q].age
            <= table_view(t@)[o].age by {
            lemma_room_index(q);
        }
    }
    o
}

/// With ages all different, the oldest memory is the one found.
proof fn lemma_oldest_unique(m: Map<Room, MemV>, r: Room)
    requires
        ages_distinct(m),
        is_oldest(m, r),
    ensures
        oldest(m) == r,
{
    let o = oldest(m);
    assert(is_oldest(m, o));
    if o != r {
        assert(m.contains_key(o) && m.contains_key(r));
        assert(m[o].age <= m[r].age);
        assert(m[r].age <= m[o].age);
    }
}

/// The rooms with a memory among the first `n` places.
spec fn present(t: Seq<Option<RoomMemory>>, n: int) -> Set<Room> {
    Set::new(|r: Room| room_index(r) < n && t[room_index(r)] is Some)
}

fn count_memories(t: &Vec<Option<RoomMemory>>) -> (n: usize)
    requires
        t@.len() == 6,
    ensures
        n == table_view(t@).len(),
        table_view(t@).dom().finite(),
{
    let mut n: usize = 0;
    let mut j: usize = 0;
    assert(present(t@, 0) =~= Set::<Room>::empty());
    while j < ROOM_COUNT
        invariant
            j <= 6,
            t@.len() == 6,
            present(t@, j as int).finite(),
            n == present(t@, j as int).len(),
            n <= j,
        decreases 6 - j,
    {
        let ghost before = present(t@, j as int);
        let r = room_of(j);
        proof {
            assert(!before.contains(r));
        }
        if t[j].is_some() {
            assert(present(t@, j + 1) =~= before.insert(r)) by {
                assert forall|q: Room| #[trigger] present(t@, j + 1).contains(q) == before.insert(r).contains(q) by {
                    lemma_room_index(q);
                }
            }
            n = n + 1;
        } else {
            assert(present(t@, j + 1) =~= before) by {
                assert forall|q: Room| #[trigger] present(t@, j + 1).contains(q) == before.contains(q) by {
                    lemma_room_index(q);
                }
            }
        }
        j = j + 1;
    }
    assert(present(t@, 6) =~= table_view(t@).dom()) by {
        assert forall|q: Room| #[trigger] present(t@, 6).contains(q) == table_view(t@).dom().contains(q) by {
            lemma_room_index(q);
        }
    }
    n
}

fn forget_room(t: &mut Vec<Option<RoomMemory>>, o: Room)
    requires
        table_ok(old(t)@),
    ensures
        table_ok(final(t)@),
        table_view(final(t)@) == forget(table_view(old(t)@), o),
{
    let ghost t0 = t@;
    let mut j: usize = 0;
    while j < ROOM_COUNT
        invariant
            j <= 6,
            t@.len() == 6,
            table_ok(t0),
            forall|k: int| 0 <= k < 6 && #[trigger] t@[k] is Some ==> doors_unique(t@[k]->0.connections@),
            forall|k: int| j <= k < 6 ==> #[trigger] t@[k] == t0[k],
            forall|k: int| 0 <= k < j ==> (#[trigger] t@[k] is Some == (t0[k] is Some && room_at(k) != o)),
            forall|k: int| 0 <= k < j && #[trigger] t@[k] is Some ==> t@[k]->0@ == (MemV {
                age: t0[k]->0@.age,
                connections: without_target(t0[k]->0@.connections, o),
            }),
        decreases 6 - j,
    {
        let r = room_of(j);
        let slot = if r == o {
            None
        } else {
            match &t[j] {
                Some(m) => Some(
                    RoomMemory { age: m.age, connections: retain_not_leading_to(&m.connections, o) },
                ),
                None => None,
            }
        };
        t.set(j, slot);
        j = j + 1;
    }
    proof {
        assert forall|r: Room| #[trigger] table_view(t@).contains_key(r) == forget(table_view(t0), o).contains_key(r)
            && (table_view(t@).contains_key(r) ==> table_view(t@)[r] == forget(table_view(t0), o)[r]) by {
            lemma_room_index(r);
        }
        assert(table_view(t@) =~= forget(table_view(t0), o));
    }
}

// ---------------------------------------------------------------------------
// Walking through the level
// ---------------------------------------------------------------------------

/// `p` is a suffix of `v`.
pub open spec fn ends_with(v: Seq<Room>, p: Seq<Room>) -> bool {
    p.len() <= v.len() && v.subrange(v.len() - p.len(), v.len() as int) == p
}

/// A rule applies to a walk and a door when it is about that door and the
/// walk ends with its pattern.
pub open spec fn applies(visited: Seq<Room>, dn: DoorNumber) -> spec_fn(RuleV) -> bool {
    |r: RuleV| r.door == dn && ends_with(visited, r.pattern)
}

/// The rules that apply, in order.
pub open spec fn matching_rules(visited: Seq<Room>, dn: DoorNumber) -> Seq<RuleV> {
    rules_spec().filter(applies(visited, dn))
}

fn ends_with_rooms(v: &Vec<Room>, p: &Vec<Room>) -> (b: bool)
    ensures
        b == ends_with(v@, p@),
{
    if p.len() > v.len() {
        return false;
    }
    let off = v.len() - p.len();
    let mut i: usize = 0;
    while i < p.len()
        invariant
            off + p@.len() == v@.len(),
            v@.len() == v.len(),
            i <= p@.len(),
            forall|k: int| 0 <= k < i ==> v@[off + k] == p@[k],
        decreases p@.len() - i,
    {
        if v[off + i] != p[i] {
            assert(v@.subrange(off as int, v@.len() as int)[i as int] != p@[i as int]);
            return false;
        }
        i = i + 1;
    }
    assert(v@.subrange(off as int, v@.len() as int) =~= p@);
    true
}

fn matching(rules: &Vec<Rule>, visited: &Vec<Room>, dn: DoorNumber) -> (ms: Vec<Rule>)
    ensures
        rules_view(ms@) == rules_view(rules@).filter(applies(visited@, dn)),
{
    let mut ms: Vec<Rule> = Vec::new();
    let mut i: usize = 0;
    while i < rules.len()
        invariant
            i <= rules@.len(),
            rules_view(ms@) == rules_view(rules@).take(i as int).filter(applies(visited@, dn)),
        decreases rules@.len() - i,
    {
        let ghost before = rules_view(rules@).take(i as int);
        assert(rules_view(rules@).take(i + 1) =~= before.push(rules@[i as int]@));
        proof {
            before.lemma_filter_push(rules@[i as int]@, applies(visited@, dn));
        }
        if rules[i].door == dn && ends_with_rooms(visited, &rules[i].pattern) {
            let ghost prev = ms@;
            ms.push(rules[i].copy());
            assert(rules_view(ms@) =~= rules_view(prev).push(rules@[i as int]@));
        }
        i = i + 1;
    }
    assert(rules_view(rules@).take(rules@.len() as int) =~= rules_view(rules@));
    ms
}

/// Why a step could not be taken.
#[derive(Debug)]
pub enum Problem {
    NoDoorInRoom(Room, DoorNumber),
    NoRuleMatchesFor(Vec<Room>, DoorNumber),
    MultipleMatchesFor(Vec<Room>, DoorNumber, Vec<Rule>),
    MultipleReachableMemoriesForRoom(Vec<Room>, usize),
}

pub enum ProblemV {
    NoDoorInRoom(Room, DoorNumber),
    NoRuleMatchesFor(Seq<Room>, DoorNumber),
    MultipleMatchesFor(Seq<Room>, DoorNumber, Seq<RuleV>),
    MultipleReachableMemoriesForRoom(Seq<Room>, usize),
}

impl View for Problem {
    type V = ProblemV;

    open spec fn view(&self) -> ProblemV {
        match self {
            Problem::NoDoorInRoom(r, d) => ProblemV::NoDoorInRoom(*r, *d),
            Problem::NoRuleMatchesFor(v, d) => ProblemV::NoRuleMatchesFor(v@, *d),
            Problem::MultipleMatchesFor(v, d, rs) => ProblemV::MultipleMatchesFor(v@, *d, rules_view(rs@)),
            Problem::MultipleReachableMemoriesForRoom(v, n) => ProblemV::MultipleReachableMemoriesForRoom(
                v@,
                *n,
            ),
        }
    }
}

pub open spec fn step_result_view(r: Result<CreatedNewRoom, Problem>) -> Result<CreatedNewRoom, ProblemV> {
    match r {
        Ok(b) => Ok(b),
        Err(p) => Err(p@),
    }
}

/// The state of a walk: where one is, what is remembered of the rooms seen,
/// the rooms walked through, and how many memories besides the current one
/// may be kept.
#[derive(Debug)]
pub struct State {
    pub current_room: Room,
    pub memoized: Vec<Option<RoomMemory>>,
    pub visited: Vec<Room>,
    pub mem_size: usize,
}

pub struct StateV {
    pub current_room: Room,
    pub memoized: Map<Room, MemV>,
    pub visited: Seq<Room>,
    pub mem_size: usize,
}

impl View for State {
    type V = StateV;

    open spec fn view(&self) -> StateV {
        StateV {
            current_room: self.current_room,
            memoized: table_view(self.memoized@),
            visited: self.visited@,
            mem_size: self.mem_size,
        }
    }
}

/// What holds of every state of a walk.
pub open spec fn state_inv(s: StateV) -> bool {
    &&& s.memoized.contains_key(s.current_room)
    &&& s.visited.len() > 0
    &&& s.visited.last() == s.current_room
    &&& ages_distinct(s.memoized)
    &&& targets_known(s.memoized)
    &&& s.memoized.dom().finite()
    &&& s.memoized.len() <= s.mem_size + 1
}

/// The state at the start of a walk.
pub open spec fn initial_state(mem_size: usize) -> StateV {
    StateV {
        current_room: Room::S,
        memoized: Map::empty().insert(Room::S, MemV { age: 0, connections: Map::empty() }),
        visited: seq![Room::S],
        mem_size,
    }
}

/// One step through door `dn`: the new state and what is reported.
pub open spec fn step_spec(s: StateV, dn: DoorNumber) -> (StateV, Result<CreatedNewRoom, ProblemV>) {
    if !doors_of(s.current_room).contains(dn) {
        (s, Err(ProblemV::NoDoorInRoom(s.current_room, dn)))
    } else if s.memoized[s.current_room].connections.contains_key(dn) {
        let next = s.memoized[s.current_room].connections[dn];
        (
            StateV {
                current_room: next,
                memoized: bumped(s.memoized, Some(next)),
                visited: s.visited.push(next),
                mem_size: s.mem_size,
            },
            Ok(false),
        )
    } else {
        let ms = matching_rules(s.visited, dn);
        if ms.len() == 0 {
            (s, Err(ProblemV::NoRuleMatchesFor(s.visited, dn)))
        } else if ms.len() > 1 {
            (s, Err(ProblemV::MultipleMatchesFor(s.visited, dn, ms)))
        } else {
            let next = ms[0].to;
            let aged = bumped(s.memoized, None);
            let o = oldest(aged);
            if aged.contains_key(next) && next != o {
                (
                    StateV { memoized: aged, ..s },
                    Err(ProblemV::MultipleReachableMemoriesForRoom(s.visited, s.mem_size)),
                )
            } else {
                let added = aged.insert(
                    next,
                    MemV { age: 0, connections: Map::empty().insert(0, s.current_room) },
                );
                let kept = if added.len() > s.mem_size + 1 {
                    forget(added, o)
                } else {
                    added
                };
                (
                    StateV {
                        current_room: next,
                        memoized: kept,
                        visited: s.visited.push(next),
                        mem_size: s.mem_size,
                    },
                    Ok(true),
                )
            }
        }
    }
}

impl State {
    /// The state is one that a walk can reach.
    pub open spec fn wf(&self) -> bool {
        table_ok(self.memoized@) && state_inv(self@)
    }

    /// Whether every memory can still grow one step older, as a step needs.
    pub fn ages_fit(&self) -> (b: bool)
        requires
            self.wf(),
        ensures
            b == ages_bounded(self@.memoized),
    {
        let mut j: usize = 0;
        while j < 6
            invariant
                j <= 6,
                self.memoized@.len() == 6,
                forall|k: int| 0 <= k < j && #[trigger] self.memoized@[k] is Some ==> self.memoized@[k]->0.age < usize::MAX,
            decreases 6 - j,
        {
            match &self.memoized[j] {
                Some(m) => {
                    if m.age == usize::MAX {
                        proof {
                            let r = room_at(j as int);
                            assert(room_index(r) == j);
                            assert(self@.memoized.contains_key(r));
                        }
                        return false;
                    }
                },
                None => {},
            }
            j = j + 1;
        }
        proof {
            assert forall|r: Room| #[trigger] self@.memoized.contains_key(r) implies self@.memoized[r].age < usize::MAX by {
                lemma_room_index(r);
            }
        }
        true
    }

    /// A walk that starts in room `S`.
    pub fn new(mem_size: usize) -> (r: State)
        ensures
            r@ == initial_state(mem_size),
            r.wf(),
    {
        let mut memoized: Vec<Option<RoomMemory>> = Vec::new();
        memoized.push(Some(RoomMemory { age: 0, connections: Vec::new() }));
        let mut j: usize = 1;
        while j < ROOM_COUNT
            invariant
                1 <= j <= 6,
                memoized@.len() == j,
                memoized@[0] is Some,
                memoized@[0]->0.age == 0,
                memoized@[0]->0.connections@.len() == 0,
                forall|k: int| 1 <= k < j ==> #[trigger] memoized@[k] is None,
            decreases 6 - j,
        {
            memoized.push(None);
            j = j + 1;
        }
        let mut visited: Vec<Room> = Vec::new();
        visited.push(Room::S);
        let r = State { current_room: Room::S, memoized, visited, mem_size };
        proof {
            assert(conn_map(r.memoized@[0]->0.connections@) =~= Map::<DoorNumber, Room>::empty());
            assert forall|q: Room| #[trigger] table_view(r.memoized@).contains_key(q) == initial_state(
                mem_size,
            ).memoized.contains_key(q) && (table_view(r.memoized@).contains_key(q) ==> table_view(r.memoized@)[q]
                == initial_state(mem_size).memoized[q]) by {
                lemma_room_index(q);
            }
            assert(table_view(r.memoized@) =~= initial_state(mem_size).memoized);
            assert(r.visited@ =~= seq![Room::S]);
            assert(initial_state(mem_size).memoized.dom() =~= set![Room::S]);
            assert(initial_state(mem_size).memoized.len() == 1);
        }
        r
    }
}


/// A step through a door of the current room with no remembered
/// connection, where exactly one rule applies: it goes through to the
/// rule's room, as a new room, whenever that room is not remembered or its
/// memory is at least as old as every other; it is refused because another
/// memory of that room is reachable exactly when the room is remembered and
/// some other memory is older.
pub proof fn lemma_new_room_step(s: StateV, dn: DoorNumber)
    requires
        state_inv(s),
        doors_of(s.current_room).contains(dn),
        !s.memoized[s.current_room].connections.contains_key(dn),
        matching_rules(s.visited, dn).len() == 1,
    ensures
        ({
            let t = matching_rules(s.visited, dn)[0].to;
            let m = s.memoized;
            &&& (!m.contains_key(t) || forall|q: Room| #[trigger] m.contains_key(q) ==> m[q].age <= m[t].age) ==> (
            step_spec(s, dn).1 == Ok::<CreatedNewRoom, ProblemV>(true) && step_spec(s, dn).0.current_room == t)
            &&& (step_spec(s, dn).1 matches Err(ProblemV::MultipleReachableMemoriesForRoom(_, _))) <==> (
            m.contains_key(t) && exists|q: Room| #[trigger] m.contains_key(q) && m[q].age > m[t].age)
        }),
{
    let t = matching_rules(s.visited, dn)[0].to;
    let m = s.memoized;
    let aged = bumped(m, None);
    assert(aged.dom() =~= m.dom());
    assert(ages_distinct(aged));
    assert(aged.contains_key(s.current_room));
    lemma_has_oldest(aged);
    let o = oldest(aged);
    assert(is_oldest(aged, o));
    if m.contains_key(t) && (forall|q: Room| #[trigger] m.contains_key(q) ==> m[q].age <= m[t].age) {
        assert(is_oldest(aged, t));
        lemma_oldest_unique(aged, t);
    }
    if m.contains_key(t) && exists|q: Room| #[trigger] m.contains_key(q) && m[q].age > m[t].age {
        let q = choose|q: Room| #[trigger] m.contains_key(q) && m[q].age > m[t].age;
        assert(aged[q].age <= aged[o].age);
        assert(o != t);
    }
    if m.contains_key(t) && o != t {
        assert(aged[t].age <= aged[o].age);
        assert(aged[t].age != aged[o].age);
        assert(m.contains_key(o) && m[o].age > m[t].age);
    }
}


/// A step through a door whose connection is remembered goes to the room
/// remembered behind it, makes no new room, makes that room's memory the
/// newest and every other one a step older, and remembers the same rooms.
/// A step through a door the current room does not have is refused and
/// changes nothing.
pub proof fn lemma_known_door_step(s: StateV, dn: DoorNumber)
    requires
        state_inv(s),
    ensures
        !doors_of(s.current_room).contains(dn) ==> step_spec(s, dn).0 == s && step_spec(s, dn).1 == Err::<
            CreatedNewRoom,
            ProblemV,
        >(ProblemV::NoDoorInRoom(s.current_room, dn)),
        doors_of(s.current_room).contains(dn) && s.memoized[s.current_room].connections.contains_key(dn) ==> ({
            let t = s.memoized[s.current_room].connections[dn];
            let s2 = step_spec(s, dn).0;
            &&& step_spec(s, dn).1 == Ok::<CreatedNewRoom, ProblemV>(false)
            &&& s2.current_room == t
            &&& s2.visited == s.visited.push(t)
            &&& s2.memoized.dom() == s.memoized.dom()
            &&& s2.memoized[t].age == 0
            &&& forall|q: Room| #[trigger] s.memoized.contains_key(q) && q != t ==> s2.memoized[q].age == s.memoized[q].age + 1
            &&& forall|q: Room| #[trigger] s.memoized.contains_key(q) ==> s2.memoized[q].connections == s.memoized[q].connections
        }),
{
    if doors_of(s.current_room).contains(dn) && s.memoized[s.current_room].connections.contains_key(dn) {
        let t = s.memoized[s.current_room].connections[dn];
        assert(s.memoized.contains_key(t));
        assert(step_spec(s, dn).0.memoized.dom() =~= s.memoized.dom());
    }
}

/// Every finite, non-empty table of memories has an oldest one.
proof fn lemma_has_oldest(m: Map<Room, MemV>)
    requires
        m.dom().finite(),
        m.dom().len() > 0,
    ensures
        exists|r: Room| is_oldest(m, r),
    decreases m.dom().len(),
{
    let x = m.dom().choose();
    let m2 = m.remove(x);
    assert(m2.dom() =~= m.dom().remove(x));
    if m2.dom().len() == 0 {
        assert forall|q: Room| #[trigger] m.contains_key(q) implies m[q].age <= m[x].age by {
            if q != x {
                assert(m2.dom().contains(q));
            }
        }
        assert(is_oldest(m, x));
    } else {
        lemma_has_oldest(m2);
        let r2 = choose|r: Room| is_oldest(m2, r);
        if m[x].age >= m[r2].age {
            assert forall|q: Room| #[trigger] m.contains_key(q) implies m[q].age <= m[x].age by {
                if q != x {
                    assert(m2.contains_key(q));
                }
            }
            assert(is_oldest(m, x));
        } else {
            assert forall|q: Room| #[trigger] m.contains_key(q) implies m[q].age <= m[r2].age by {
                if q != x {
                    assert(m2.contains_key(q));
                }
            }
            assert(is_oldest(m, r2));
        }
    }
}

/// Along a walk: every step keeps the walk invariant (the current room is
/// remembered and is the last one walked through, every remembered
/// connection leads to a remembered room, at most `mem_size + 1` memories
/// are kept). A step that goes through makes the new current room's memory
/// the newest (age 0), adds that room to the rooms walked through, and
/// reports a new room exactly when the door was not remembered. A step that
/// is refused leaves the state as it was, except when it is refused because
/// another memory of the next room is reachable: then every memory has
/// already grown one step older.
pub proof fn lemma_walk_step(s: StateV, dn: DoorNumber)
    requires
        state_inv(s),
    ensures
        state_inv(step_spec(s, dn).0),
        step_spec(s, dn).1 is Ok ==> {
            let t = step_spec(s, dn).0;
            &&& t.memoized[t.current_room].age == 0
            &&& t.visited == s.visited.push(t.current_room)
            &&& t.mem_size == s.mem_size
            &&& step_spec(s, dn).1->Ok_0 == !s.memoized[s.current_room].connections.contains_key(dn)
        },
        step_spec(s, dn).1 is Err && !(step_spec(s, dn).1->Err_0 is MultipleReachableMemoriesForRoom)
            ==> step_spec(s, dn).0 == s,
        step_spec(s, dn).1 matches Err(ProblemV::MultipleReachableMemoriesForRoom(_, _)) ==> step_spec(s, dn).0
            == (StateV { memoized: bumped(s.memoized, None), ..s }),
{
    lemma_step_keeps_invariant(s, dn);
    let t = step_spec(s, dn).0;
    if doors_of(s.current_room).contains(dn) && !s.memoized[s.current_room].connections.contains_key(dn) {
        let ms = matching_rules(s.visited, dn);
        if ms.len() == 1 {
            let next = ms[0].to;
            let aged = bumped(s.memoized, None);
            let o = oldest(aged);
            if !(aged.contains_key(next) && next != o) {
                let added = aged.insert(
                    next,
                    MemV { age: 0, connections: Map::empty().insert(0, s.current_room) },
                );
                if added.len() > s.mem_size + 1 {
                    assert(aged.dom() =~= s.memoized.dom());
                    if next == o {
                        assert(added.dom() =~= aged.dom());
                    }
                    assert(next != o);
                }
            }
        }
    }
}

/// A step keeps what holds of every state of a walk, whatever door it tries
/// and whatever it reports: the current room is remembered and is the last
/// one walked through, no two memories have the same age, every remembered
/// connection leads to a remembered room, and at most `mem_size + 1`
/// memories are kept.
pub proof fn lemma_step_keeps_invariant(s: StateV, dn: DoorNumber)
    requires
        state_inv(s),
    ensures
        state_inv(step_spec(s, dn).0),
{
    let m = s.memoized;
    if !doors_of(s.current_room).contains(dn) {
    } else if m[s.current_room].connections.contains_key(dn) {
        let next = m[s.current_room].connections[dn];
        let b = bumped(m, Some(next));
        assert(b.dom() =~= m.dom());
        assert(m.contains_key(next));
        assert forall|x: Room, y: Room| #[trigger] b.contains_key(x) && #[trigger] b.contains_key(y) && x != y
            implies b[x].age != b[y].age by {
            assert(m.contains_key(x) && m.contains_key(y));
        }
        assert forall|r: Room, d: DoorNumber| #[trigger] b.contains_key(r) && #[trigger] b[r].connections.contains_key(d)
            implies b.contains_key(b[r].connections[d]) by {
            assert(m.contains_key(r) && m[r].connections.contains_key(d));
        }
        assert(step_spec(s, dn).0.visited.last() == next);
    } else {
        let ms = matching_rules(s.visited, dn);
        if ms.len() == 1 {
            let next = ms[0].to;
            let aged = bumped(m, None);
            assert(aged.dom() =~= m.dom());
            assert forall|x: Room, y: Room| #[trigger] aged.contains_key(x) && #[trigger] aged.contains_key(y) && x != y
                implies aged[x].age != aged[y].age by {
                assert(m.contains_key(x) && m.contains_key(y));
            }
            assert forall|r: Room, d: DoorNumber| #[trigger] aged.contains_key(r) && #[trigger] aged[r].connections.contains_key(d)
                implies aged.contains_key(aged[r].connections[d]) by {
                assert(m.contains_key(r) && m[r].connections.contains_key(d));
            }
            let o = oldest(aged);
            if aged.contains_key(next) && next != o {
            } else {
                let nm = MemV { age: 0, connections: Map::empty().insert(0, s.current_room) };
                let added = aged.insert(next, nm);
                assert(added.dom() =~= aged.dom().insert(next));
                assert forall|x: Room, y: Room| #[trigger] added.contains_key(x) && #[trigger] added.contains_key(y) && x
                    != y implies added[x].age != added[y].age by {
                    if x != next && y != next {
                        assert(aged.contains_key(x) && aged.contains_key(y));
                    }
                    if x != next {
                        assert(aged.contains_key(x));
                    }
                    if y != next {
                        assert(aged.contains_key(y));
                    }
                }
                assert forall|r: Room, d: DoorNumber| #[trigger] added.contains_key(r) && #[trigger] added[r].connections.contains_key(d)
                    implies added.contains_key(added[r].connections[d]) by {
                    if r != next {
                        assert(aged.contains_key(r) && aged[r].connections.contains_key(d));
                    } else {
                        assert(added[r].connections[d] == s.current_room);
                    }
                }
                if added.len() > s.mem_size + 1 {
                    assert(!aged.contains_key(next));
                    lemma_has_oldest(aged);
                    assert(is_oldest(aged, o));
                    assert(o != next);
                    let kept = forget(added, o);
                    assert(kept.dom() =~= added.dom().remove(o));
                    assert forall|x: Room, y: Room| #[trigger] kept.contains_key(x) && #[trigger] kept.contains_key(y) && x
                        != y implies kept[x].age != kept[y].age by {
                        assert(added.contains_key(x) && added.contains_key(y));
                    }
                    assert forall|r: Room, d: DoorNumber| #[trigger] kept.contains_key(r) && #[trigger] kept[r].connections.contains_key(d)
                        implies kept.contains_key(kept[r].connections[d]) by {
                        assert(added.contains_key(r) && added[r].connections.contains_key(d));
                    }
                    assert(kept.contains_key(next));
                } else {
                }
            }
        }
    }
}

fn contains_door(ds: &Vec<DoorNumber>, dn: DoorNumber) -> (b: bool)
    ensures
        b == ds@.contains(dn),
{
    let mut i: usize = 0;
    while i < ds.len()
        invariant
            i <= ds@.len(),
            forall|k: int| 0 <= k < i ==> ds@[k] != dn,
        decreases ds@.len() - i,
    {
        if ds[i] == dn {
            assert(ds@[i as int] == dn);
            return true;
        }
        i = i + 1;
    }
    false
}

impl State {
    /// Goes through door `dn` of the current room. A remembered connection is
    /// followed; otherwise the one rule that applies to the walk leads to a
    /// new room, and the oldest memory is forgotten when more than
    /// `mem_size + 1` would be kept. Reports whether a new room was made.
    pub fn step(&mut self, dn: DoorNumber) -> (r: Result<CreatedNewRoom, Problem>)
        requires
            old(self).wf(),
            ages_bounded(old(self)@.memoized),
        ensures
            final(self).wf(),
            final(self)@ == step_spec(old(self)@, dn).0,
            step_result_view(r) == step_spec(old(self)@, dn).1,
    {
        proof {
            lemma_step_keeps_invariant(self@, dn);
            lemma_room_index(self.current_room);
        }
        let ghost s0 = self@;
        let doors = available_doors(self.current_room);
        if !contains_door(&doors, dn) {
            return Err(Problem::NoDoorInRoom(self.current_room, dn));
        }
        let ci = index_of(self.current_room);
        let known = match &self.memoized[ci] {
            Some(m) => find_door(&m.connections, dn),
            None => None,
        };
        match known {
            Some(next) => {
                bump_ages(&mut self.memoized, Some(next));
                self.current_room = next;
                self.visited.push(next);
                assert(self@ == step_spec(s0, dn).0);
                Ok(false)
            },
            None => {
                let rules = get_rules();
                let applicable = matching(&rules, &self.visited, dn);
                assert(rules_view(applicable@) == matching_rules(s0.visited, dn));
                if applicable.len() == 0 {
                    return Err(Problem::NoRuleMatchesFor(copy_rooms(&self.visited), dn));
                }
                if applicable.len() > 1 {
                    return Err(Problem::MultipleMatchesFor(copy_rooms(&self.visited), dn, applicable));
                }
                let next = applicable[0].to;
                assert(next == matching_rules(s0.visited, dn)[0].to);
                bump_ages(&mut self.memoized, None);
                let ghost aged = table_view(self.memoized@);
                proof {
                    assert(aged.dom() =~= s0.memoized.dom());
                    assert(aged.dom().len() > 0);
                }
                let o = oldest_in(&self.memoized);
                proof {
                    assert forall|x: Room, y: Room| #[trigger] aged.contains_key(x) && #[trigger] aged.contains_key(y) && x
                        != y implies aged[x].age != aged[y].age by {
                        assert(s0.memoized.contains_key(x) && s0.memoized.contains_key(y));
                    }
                    lemma_oldest_unique(aged, o);
                    lemma_room_index(next);
                }
                let ni = index_of(next);
                if self.memoized[ni].is_some() && next != o {
                    return Err(
                        Problem::MultipleReachableMemoriesForRoom(copy_rooms(&self.visited), self.mem_size),
                    );
                }
                let mut conns: Vec<(DoorNumber, Room)> = Vec::new();
                conns.push((0, self.current_room));
                self.memoized.set(ni, Some(RoomMemory { age: 0, connections: conns }));
                let ghost added = table_view(self.memoized@);
                proof {
                    let nm = MemV { age: 0, connections: Map::empty().insert(0usize, s0.current_room) };
                    assert(conn_map(conns@) =~= Map::empty().insert(0usize, s0.current_room)) by {
                        assert forall|d: DoorNumber| #[trigger] conn_map(conns@).contains_key(d) implies d == 0 by {
                            let i = choose|i: int| 0 <= i < conns@.len() && conns@[i].0 == d;
                        }
                        assert(conns@[0].0 == 0);
                        assert(has_door(conns@, 0));
                        lemma_conn_at(conns@, 0);
                    }
                    assert forall|q: Room| #[trigger] added.contains_key(q) == aged.insert(next, nm).contains_key(q)
                        && (added.contains_key(q) ==> added[q] == aged.insert(next, nm)[q]) by {
                        lemma_room_index(q);
                    }
                    assert(added =~= aged.insert(next, nm));
                    assert(doors_unique(conns@));
                }
                let n = count_memories(&self.memoized);
                if n - 1 > self.mem_size {
                    forget_room(&mut self.memoized, o);
                }
                self.current_room = next;
                self.visited.push(next);
                assert(self@ == step_spec(s0, dn).0);
                Ok(true)
            },
        }
    }
}

} // verus!
