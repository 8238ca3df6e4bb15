use mursten::grid::{Constrain, Dir, Flippable, GridWalkable, Rot, Rotable};

const N: [u8; 9] = [1, 2, 3, 4, 5, 6, 7, 8, 9];

#[test]
fn all_directions_and_rotations() {
    assert_eq!(Dir::all(), [Dir::Up, Dir::Left, Dir::Down, Dir::Right]);
    assert_eq!(Rot::all(), [Rot::Deg0, Rot::Deg90, Rot::Deg180, Rot::Deg270]);
}

#[test]
fn rotating_a_neighbourhood() {
    assert_eq!(N.rotate(&Rot::Deg0), N);
    assert_eq!(N.rotate(&Rot::Deg90), [7, 4, 1, 8, 5, 2, 9, 6, 3]);
    assert_eq!(N.rotate(&Rot::Deg180), [9, 8, 7, 6, 5, 4, 3, 2, 1]);
    assert_eq!(N.rotate(&Rot::Deg270), [3, 6, 9, 2, 5, 8, 1, 4, 7]);
}

#[test]
fn rotations_compose_by_adding_angles() {
    assert_eq!(N.rotate(&Rot::Deg90).rotate(&Rot::Deg180), N.rotate(&Rot::Deg270));
    assert_eq!(N.rotate(&Rot::Deg270).rotate(&Rot::Deg180), N.rotate(&Rot::Deg90));
    assert_eq!(
        N.rotate(&Rot::Deg90).rotate(&Rot::Deg90).rotate(&Rot::Deg90).rotate(&Rot::Deg90),
        N
    );
}

#[test]
fn mirroring_a_neighbourhood() {
    assert_eq!(N.flip_horizontally(), [3, 2, 1, 6, 5, 4, 9, 8, 7]);
    assert_eq!(N.flip_horizontally().flip_horizontally(), N);
    assert_eq!(
        N.flip_horizontally().rotate(&Rot::Deg90),
        N.rotate(&Rot::Deg270).flip_horizontally()
    );
}

#[test]
fn stepping_on_the_grid() {
    let p: (i32, i32) = (3, 4);
    assert_eq!(p.step(Dir::Up), (3, 3));
    assert_eq!(p.step(Dir::Left), (2, 4));
    assert_eq!(p.step(Dir::Down), (3, 5));
    assert_eq!(p.step(Dir::Right), (4, 4));
    assert_eq!(p.step(Dir::Up).step(Dir::Down), p);
    assert_eq!(p.step(Dir::Left).step(Dir::Right), p);
}

#[test]
fn constraints() {
    assert!(Constrain::<u8>::Unrestricted.satisfies(&3));
    assert!(Constrain::MustBe(3u8).satisfies(&3));
    assert!(!Constrain::MustBe(3u8).satisfies(&4));
}
