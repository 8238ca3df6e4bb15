use mursten::dungeon::lvl_1;
use mursten::grid::Rot;
use mursten::tiles::{
    create, get_tile_components, needs_collider, Object, RoomBlueprint, Tile, TileConstrain, Tileset,
};
use std::collections::HashMap;
use TileConstrain::{Ground, Wall, X};

fn room_a() -> RoomBlueprint {
    let d = lvl_1();
    d.create(&"a".to_string())
}

#[test]
fn tiles_of_a_room() {
    let b = room_a();
    assert_eq!(b.tile_at((0, 0)), Tile::Wall);
    assert_eq!(b.tile_at((2, 0)), Tile::Door(1));
    assert_eq!(b.tile_at((0, 2)), Tile::Door(0));
    assert_eq!(b.tile_at((2, 4)), Tile::Door(2));
    assert_eq!(b.tile_at((1, 1)), Tile::Ground);
    assert_eq!(b.tile_at((-1, 0)), Tile::Empty);
    assert_eq!(b.tile_at((5, 0)), Tile::Empty);
    assert!(b.in_bounds((4, 4)));
    assert!(!b.in_bounds((4, 5)));
}

#[test]
fn neighbourhood_of_a_cell() {
    let b = room_a();
    assert_eq!(
        b.tile_neighborhood((1, 1)),
        [
            Tile::Wall, Tile::Wall, Tile::Door(1),
            Tile::Wall, Tile::Ground, Tile::Ground,
            Tile::Door(0), Tile::Ground, Tile::Ground,
        ]
    );
    assert_eq!(
        b.tile_neighborhood((0, 0)),
        [
            Tile::Empty, Tile::Empty, Tile::Empty,
            Tile::Empty, Tile::Wall, Tile::Wall,
            Tile::Empty, Tile::Wall, Tile::Ground,
        ]
    );
}

#[test]
fn objects_of_a_room() {
    let mut objects = vec![None; 4];
    objects[3] = Some(Object::Potion);
    let b = RoomBlueprint { tiles: vec![Tile::Ground; 4], objects: Some(objects), size: (2, 2) };
    assert_eq!(b.object_at((1, 1)), Some(Object::Potion));
    assert_eq!(b.object_at((0, 1)), None);
    assert_eq!(b.object_at((2, 1)), None);
    let bare = RoomBlueprint { tiles: vec![Tile::Ground; 4], objects: None, size: (2, 2) };
    assert_eq!(bare.object_at((1, 1)), None);
}

#[test]
fn positions_row_by_row() {
    let b = RoomBlueprint { tiles: vec![Tile::Ground; 6], objects: None, size: (3, 2) };
    assert_eq!(b.positions(), vec![(0, 0), (1, 0), (2, 0), (0, 1), (1, 1), (2, 1)]);
}

#[test]
fn tile_constraints() {
    assert!(TileConstrain::X.satisfies(Tile::Empty));
    assert!(TileConstrain::Empty.satisfies(Tile::Empty));
    assert!(!TileConstrain::Empty.satisfies(Tile::Wall));
    assert!(TileConstrain::Ground.satisfies(Tile::Ground));
    assert!(TileConstrain::Wall.satisfies(Tile::Wall));
    assert!(!TileConstrain::Wall.satisfies(Tile::Door(0)));
    assert!(TileConstrain::Door.satisfies(Tile::Door(3)));
    assert!(!TileConstrain::Door.satisfies(Tile::Wall));
    assert!(TileConstrain::Solid.satisfies(Tile::Wall));
    assert!(TileConstrain::Solid.satisfies(Tile::Door(1)));
    assert!(!TileConstrain::Solid.satisfies(Tile::Ground));
    assert!(needs_collider(Tile::Wall));
    assert!(needs_collider(Tile::Door(2)));
    assert!(!needs_collider(Tile::Ground));
}

fn corner_tileset() -> Tileset {
    let mut tile_constrains = HashMap::new();
    // A wall with ground below it and to its right.
    tile_constrains.insert(
        7,
        [
            X, X, X,
            X, Wall, Wall,
            X, Wall, Ground,
        ],
    );
    Tileset { pyxel_file: "base.pyxel", tile_constrains, animations: vec![], tile_width: 8, tile_height: 8 }
}

#[test]
fn choosing_a_sprite_tile() {
    let b = room_a();
    let ts = corner_tileset();
    let c = get_tile_components((0, 0), &b, &ts).unwrap();
    assert_eq!(c.tile, Tile::Wall);
    assert_eq!(c.id, 7);
    assert_eq!(c.rotation, Rot::Deg0);
    assert!(!c.flipped);
    let c = get_tile_components((4, 0), &b, &ts).unwrap();
    assert_eq!(c.tile, Tile::Wall);
    assert!(!c.flipped || c.rotation != Rot::Deg0);
    assert_eq!(get_tile_components((2, 2), &b, &ts), None);
}

#[test]
fn placing_the_tiles_of_a_room() {
    let b = room_a();
    let ts = corner_tileset();
    let placed = create(&b, &ts);
    assert!(!placed.is_empty());
    assert_eq!(placed[0].pos, (0, 0));
    assert!(placed[0].needs_collider);
    assert!(placed.iter().all(|p| p.components.tile == b.tile_at(p.pos)));
    assert!(placed.iter().all(|p| p.pos != (2, 2)));
}

#[test]
fn base_tileset_constrains_each_tile() {
    let t = mursten::tiles::base_tileset();
    assert_eq!(t.pyxel_file, "base.pyxel");
    assert_eq!((t.tile_width, t.tile_height), (16, 16));
    let mut ids: Vec<usize> = t.tile_constrains.keys().cloned().collect();
    ids.sort();
    assert_eq!(ids, vec![2, 3, 4, 7, 12, 27]);
    let (x, w, g, d, s) =
        (TileConstrain::X, TileConstrain::Wall, TileConstrain::Ground, TileConstrain::Door, TileConstrain::Solid);
    assert_eq!(t.tile_constrains[&12], [x, x, x, s, w, d, x, g, x]);
    assert_eq!(t.tile_constrains[&27], [x, x, x, s, d, s, x, g, x]);
    assert_eq!(t.tile_constrains[&2], [x, x, x, x, TileConstrain::Empty, x, x, x, x]);
    assert_eq!(t.animations.len(), 1);
    assert_eq!(t.animations[0].name, "wall_with_torch");
    assert!(t.animations[0].intrinsic);
    assert_eq!(t.animations[0].frames, vec![12, 13, 15]);
}
