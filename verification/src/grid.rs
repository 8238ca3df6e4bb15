use vstd::prelude::*;
use vstd::std_specs::cmp::PartialEqSpec;

verus! {

/// The four directions on a grid.
#[derive(Clone, Copy, PartialEq, Eq, Structural, Debug, Hash)]
pub enum Dir {
    Up,
    Left,
    Down,
    Right,
}

impl Dir {
    /// Every direction, counterclockwise from up.
    pub fn all() -> (r: [Dir; 4])
        ensures
            r@ == seq![Dir::Up, Dir::Left, Dir::Down, Dir::Right],
    {
        let r = [Dir::Up, Dir::Left, Dir::Down, Dir::Right];
        assert(r@ =~= seq![Dir::Up, Dir::Left, Dir::Down, Dir::Right]);
        r
    }
}

/// A rotation by a number of quarter turns, clockwise.
#[derive(Clone, Copy, PartialEq, Eq, Structural, Debug)]
pub enum Rot {
    Deg0,
    Deg90,
    Deg180,
    Deg270,
}

impl Rot {
    /// Every rotation, by growing angle.
    pub fn all() -> (r: [Rot; 4])
        ensures
            r@ == seq![Rot::Deg0, Rot::Deg90, Rot::Deg180, Rot::Deg270],
    {
        let r = [Rot::Deg0, Rot::Deg90, Rot::Deg180, Rot::Deg270];
        assert(r@ =~= seq![Rot::Deg0, Rot::Deg90, Rot::Deg180, Rot::Deg270]);
        r
    }
}

/// The number of quarter turns of a rotation.
pub open spec fn quarters(r: Rot) -> int {
    match r {
        Rot::Deg0 => 0,
        Rot::Deg90 => 1,
        Rot::Deg180 => 2,
        Rot::Deg270 => 3,
    }
}

/// The rotation by `q` quarter turns.
pub open spec fn rot_of(q: int) -> Rot {
    let m = q % 4;
    if m == 0 {
        Rot::Deg0
    } else if m == 1 {
        Rot::Deg90
    } else if m == 2 {
        Rot::Deg180
    } else {
        Rot::Deg270
    }
}

/// A 3x3 neighbourhood, row by row, turned by a rotation.
pub open spec fn rotated<T>(s: Seq<T>, r: Rot) -> Seq<T> {
    match r {
        Rot::Deg0 => s,
        Rot::Deg90 => seq![s[6], s[3], s[0], s[7], s[4], s[1], s[8], s[5], s[2]],
        Rot::Deg180 => seq![s[8], s[7], s[6], s[5], s[4], s[3], s[2], s[1], s[0]],
        Rot::Deg270 => seq![s[2], s[5], s[8], s[1], s[4], s[7], s[0], s[3], s[6]],
    }
}

/// A 3x3 neighbourhood, row by row, mirrored left to right.
pub open spec fn flipped<T>(s: Seq<T>) -> Seq<T> {
    seq![s[2], s[1], s[0], s[5], s[4], s[3], s[8], s[7], s[6]]
}

/// What can be turned by a quarter-turn rotation.
pub trait Rotable: Sized {
    fn rotate(self, rotation: &Rot) -> Self;
}

/// What can be mirrored.
pub trait Flippable: Sized {
    fn flip_horizontally(self) -> Self;
}

impl<T: Copy> Rotable for [T; 9] {
    fn rotate(self, rotation: &Rot) -> (r: [T; 9])
        ensures
            r@ == rotated(self@, *rotation),
    {
        let s = self;
        let r = match rotation {
            Rot::Deg0 => s,
            Rot::Deg90 => [s[6], s[3], s[0], s[7], s[4], s[1], s[8], s[5], s[2]],
            Rot::Deg180 => [s[8], s[7], s[6], s[5], s[4], s[3], s[2], s[1], s[0]],
            Rot::Deg270 => [s[2], s[5], s[8], s[1], s[4], s[7], s[0], s[3], s[6]],
        };
        assert(r@ =~= rotated(self@, *rotation));
        r
    }
}

impl<T: Copy> Flippable for [T; 9] {
    fn flip_horizontally(self) -> (r: [T; 9])
        ensures
            r@ == flipped(self@),
    {
        let s = self;
        let r = [s[2], s[1], s[0], s[5], s[4], s[3], s[8], s[7], s[6]];
        assert(r@ =~= flipped(self@));
        r
    }
}

/// Rotations compose by adding their angles: turning by `a` and then by
/// `b` is turning by `a + b`.
pub proof fn lemma_rotations_compose<T>(s: Seq<T>, a: Rot, b: Rot)
    requires
        s.len() == 9,
    ensures
        rotated(rotated(s, a), b) == rotated(s, rot_of(quarters(a) + quarters(b))),
{
    assert(rotated(rotated(s, a), b) =~= rotated(s, rot_of(quarters(a) + quarters(b))));
}

/// Four quarter turns bring a neighbourhood back.
pub proof fn lemma_four_quarter_turns<T>(s: Seq<T>)
    requires
        s.len() == 9,
    ensures
        rotated(rotated(rotated(rotated(s, Rot::Deg90), Rot::Deg90), Rot::Deg90), Rot::Deg90) == s,
{
    assert(rotated(rotated(rotated(rotated(s, Rot::Deg90), Rot::Deg90), Rot::Deg90), Rot::Deg90) =~= s);
}

/// Mirroring twice gives back the neighbourhood.
pub proof fn lemma_flip_twice<T>(s: Seq<T>)
    requires
        s.len() == 9,
    ensures
        flipped(flipped(s)) == s,
{
    assert(flipped(flipped(s)) =~= s);
}

/// Mirroring and then turning by `r` is turning the other way and then
/// mirroring.
pub proof fn lemma_flip_then_rotate<T>(s: Seq<T>, r: Rot)
    requires
        s.len() == 9,
    ensures
        rotated(flipped(s), r) == flipped(rotated(s, rot_of(4 - quarters(r)))),
{
    assert(rotated(flipped(s), r) =~= flipped(rotated(s, rot_of(4 - quarters(r)))));
}

/// What can move one cell on a grid.
pub trait GridWalkable: Sized {
    /// Whether a step in `direction` stays on the grid.
    spec fn can_step(&self, direction: Dir) -> bool;

    fn step(&self, direction: Dir) -> Self
        requires
            self.can_step(direction),
    ;
}

/// The cell one step from `p` in direction `d`; `y` grows downwards.
pub open spec fn stepped(p: (int, int), d: Dir) -> (int, int) {
    match d {
        Dir::Up => (p.0, p.1 - 1),
        Dir::Left => (p.0 - 1, p.1),
        Dir::Down => (p.0, p.1 + 1),
        Dir::Right => (p.0 + 1, p.1),
    }
}

pub open spec fn cell(p: (i32, i32)) -> (int, int) {
    (p.0 as int, p.1 as int)
}

impl GridWalkable for (i32, i32) {
    open spec fn can_step(&self, direction: Dir) -> bool {
        let n = stepped(cell(*self), direction);
        i32::MIN <= n.0 <= i32::MAX && i32::MIN <= n.1 <= i32::MAX
    }

    fn step(&self, direction: Dir) -> (r: (i32, i32))
        ensures
            cell(r) == stepped(cell(*self), direction),
    {
        let (x, y) = *self;
        match direction {
            Dir::Up => (x, y - 1),
            Dir::Left => (x - 1, y),
            Dir::Down => (x, y + 1),
            Dir::Right => (x + 1, y),
        }
    }
}

/// The direction that undoes a step.
pub open spec fn opposite(d: Dir) -> Dir {
    match d {
        Dir::Up => Dir::Down,
        Dir::Left => Dir::Right,
        Dir::Down => Dir::Up,
        Dir::Right => Dir::Left,
    }
}

/// A step followed by a step the opposite way comes back to the start.
pub proof fn lemma_step_back(p: (int, int), d: Dir)
    ensures
        stepped(stepped(p, d), opposite(d)) == p,
{
}

/// A requirement on a value: none, or that it be a given one.
#[derive(Clone, Copy, Debug)]
pub enum Constrain<T> {
    Unrestricted,
    MustBe(T),
}

impl<T: Eq> Constrain<T> {
    /// Whether `item` meets the requirement; for `MustBe`, as `==` of `T`
    /// decides.
    pub fn satisfies(&self, item: &T) -> (r: bool)
        ensures
            match self {
                Constrain::Unrestricted => r,
                Constrain::MustBe(something) => T::obeys_eq_spec() ==> r == something.eq_spec(item),
            },
    {
        match self {
            Constrain::Unrestricted => true,
            Constrain::MustBe(something) => something == item,
        }
    }
}

} // verus!
