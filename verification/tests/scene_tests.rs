use mursten::fw::{SceneCommand, SceneRef};
use mursten::grid::{Constrain, Dir, Rot};
use mursten::scene::{
    base_tileset, get_tile_sprite_and_transform, Button, ButtonState, Intro, MainMenu, iter_positions, room_from_blueprint, Connection, DoorKind,
    DoorState, Font, GameScene, Rng, RoomCreator, RoomParams, SimpleRoomCreator, Sprite, Text, Tile, TileMap,
    Tileset, TilesetRef,
};
use std::collections::HashMap;

fn connection_of(connections: &[(Dir, Connection)], d: Dir) -> Connection {
    connections.iter().find(|(k, _)| *k == d).unwrap().1
}

#[test]
fn scene_tile_map_starts_empty_and_is_empty_outside() {
    let m = TileMap::new((3, 2));
    assert_eq!(m.at((0, 0)), Tile::Empty);
    assert_eq!(m.at((2, 1)), Tile::Empty);
    assert_eq!(m.at((-1, 0)), Tile::Empty);
    assert_eq!(m.at((3, 0)), Tile::Empty);
    assert!(m.in_bounds((2, 1)));
    assert!(!m.in_bounds((2, 2)));
    assert!(!m.in_bounds((0, -1)));
}

#[test]
fn scene_tile_map_set_at_changes_one_cell() {
    let mut m = TileMap::new((3, 2));
    m.set_at((1, 1), Tile::Ground);
    m.set_at((5, 5), Tile::Wall);
    m.set_at((-1, 0), Tile::Wall);
    assert_eq!(m.at((1, 1)), Tile::Ground);
    assert_eq!(m.at((0, 1)), Tile::Empty);
    assert_eq!(m.at((1, 0)), Tile::Empty);
    let door = Tile::Door(DoorKind::Known, DoorState::Closed, Dir::Up);
    m.set_at((2, 0), door);
    assert_eq!(m.at((2, 0)), door);
}

#[test]
fn scene_tile_map_neighborhood_reads_row_by_row() {
    let mut m = TileMap::new((3, 3));
    m.set_at((0, 0), Tile::Wall);
    m.set_at((1, 1), Tile::Ground);
    m.set_at((2, 1), Tile::Wall);
    let nh = m.neighborhood((1, 1));
    assert_eq!(
        nh,
        [
            Tile::Wall, Tile::Empty, Tile::Empty,
            Tile::Empty, Tile::Ground, Tile::Wall,
            Tile::Empty, Tile::Empty, Tile::Empty,
        ]
    );
    let corner = m.neighborhood((0, 0));
    assert_eq!(corner[0], Tile::Empty);
    assert_eq!(corner[4], Tile::Wall);
    assert_eq!(corner[8], Tile::Ground);
}

#[test]
fn iter_positions_walks_rows() {
    assert_eq!(iter_positions((3, 2)), vec![(0, 0), (1, 0), (2, 0), (0, 1), (1, 1), (2, 1)]);
    assert_eq!(iter_positions((0, 5)), vec![]);
    assert_eq!(iter_positions((-1, 3)), vec![]);
    assert_eq!(iter_positions((4, 0)), vec![]);
    assert_eq!(iter_positions((1, 1)), vec![(0, 0)]);
}

#[test]
fn simple_room_creator_follows_the_constraints() {
    let params = RoomParams {
        connection_constrains: vec![
            (Dir::Up, Constrain::MustBe(Connection::Common)),
            (Dir::Left, Constrain::MustBe(Connection::Dark)),
            (Dir::Down, Constrain::Unrestricted),
        ],
    };
    let bp = SimpleRoomCreator::create_room(&params, &mut Rng);
    assert_eq!(bp.size, (8, 5));
    assert_eq!(bp.connections.len(), 4);
    assert_eq!(connection_of(&bp.connections, Dir::Up), Connection::Common);
    assert_eq!(connection_of(&bp.connections, Dir::Left), Connection::Dark);
    assert_eq!(connection_of(&bp.connections, Dir::Down), Connection::Common);
    assert_eq!(connection_of(&bp.connections, Dir::Right), Connection::Common);
    for pos in iter_positions((8, 5)) {
        assert_eq!(bp.tile_map.at(pos), Tile::Empty);
    }
    assert!(!bp.tile_map.in_bounds((8, 0)));
}

#[test]
fn simple_room_creator_takes_the_last_constraint_of_a_direction() {
    let params = RoomParams {
        connection_constrains: vec![
            (Dir::Right, Constrain::MustBe(Connection::Dark)),
            (Dir::Right, Constrain::MustBe(Connection::NotConnected)),
        ],
    };
    let bp = SimpleRoomCreator::create_room(&params, &mut Rng);
    assert_eq!(connection_of(&bp.connections, Dir::Right), Connection::NotConnected);
}

#[test]
fn simple_room_creator_populates_the_corner() {
    let params = RoomParams { connection_constrains: vec![] };
    let mut creator = SimpleRoomCreator;
    let mut bp = SimpleRoomCreator::create_room(&params, &mut Rng);
    creator.populate(&mut bp, &params, &mut Rng);
    assert_eq!(bp.tile_map.at((0, 0)), Tile::Ground);
    assert_eq!(bp.tile_map.at((1, 0)), Tile::Empty);
    assert_eq!(bp.tile_map.at((0, 1)), Tile::Empty);
}

#[test]
fn scene_base_tileset_has_four_tiles() {
    let t = base_tileset();
    assert_eq!(t.pyxel_file, "base.pyxel");
    let mut ids: Vec<usize> = t.tiles.keys().cloned().collect();
    ids.sort();
    assert_eq!(ids, vec![3, 4, 7, 12]);
    assert!(matches!(t.tiles[&7][4], Constrain::MustBe(Tile::Ground)));
    assert!(matches!(t.tiles[&7][0], Constrain::Unrestricted));
    assert_eq!(t.animations.len(), 1);
    assert_eq!(t.animations[0].frames, vec![12, 13, 15]);
    assert!(matches!(t.reference(), TilesetRef::PyxelFile("base.pyxel")));
}

#[test]
fn no_sprite_from_a_tileset_without_tiles() {
    let t = Tileset { pyxel_file: "none.pyxel", tiles: HashMap::new(), animations: vec![] };
    let m = TileMap::new((2, 2));
    assert!(get_tile_sprite_and_transform((0, 0), &m, &t).is_none());
}

#[test]
fn sprite_is_a_tile_of_the_tileset_unturned() {
    let t = base_tileset();
    let m = TileMap::new((2, 2));
    let (sprite, transform) = get_tile_sprite_and_transform((1, 1), &m, &t).unwrap();
    let Sprite::TileRef(id, TilesetRef::PyxelFile(f)) = sprite;
    assert!(t.tiles.contains_key(&id));
    assert_eq!(f, "base.pyxel");
    assert!(matches!(transform.rotation, Rot::Deg0));
    assert!(!transform.flipped);
}

#[test]
fn room_from_blueprint_gives_one_sprite_per_cell() {
    let params = RoomParams { connection_constrains: vec![] };
    let bp = SimpleRoomCreator::create_room(&params, &mut Rng);
    let room = room_from_blueprint(bp, &base_tileset());
    assert_eq!(room.sprites.len(), 40);
    let empty = Tileset { pyxel_file: "none.pyxel", tiles: HashMap::new(), animations: vec![] };
    let bp = SimpleRoomCreator::create_room(&params, &mut Rng);
    assert_eq!(room_from_blueprint(bp, &empty).sprites.len(), 0);
}

#[test]
fn game_scene_starts_in_one_room() {
    let g = GameScene::new();
    assert_eq!(g.current_entry, 0);
    assert_eq!(g.rooms.len(), 1);
    assert_eq!(g.rooms[0].position, (0, 0));
    assert_eq!(g.rooms[0].age, 0);
    let sprites = &g.rooms[0].room.sprites;
    assert_eq!(sprites.len(), 40);
    let Sprite::TileRef(first, _) = sprites[0].0;
    assert!([3, 4, 7, 12].contains(&first));
    for (s, _) in sprites.iter() {
        let Sprite::TileRef(id, TilesetRef::PyxelFile(f)) = *s;
        assert_eq!(id, first);
        assert_eq!(f, "base.pyxel");
    }
}

#[test]
fn fonts_and_texts() {
    assert_eq!(Font::LiberationMono.resource_path(), "/LiberationMono-Regular.ttf");
    let t = Text::new(String::from("hello"), Font::LiberationMono, 12);
    assert_eq!(t.string, "hello");
    assert_eq!(t.font, Font::LiberationMono);
    assert_eq!(t.size, 12);
}

#[test]
fn main_menu_shows_title_and_hints() {
    let m = MainMenu::new();
    assert_eq!(m.texts.len(), 3);
    assert_eq!(m.texts[0].0.string, "Lost and Found");
    assert_eq!(m.texts[0].0.size, 48);
    assert_eq!(m.texts[0].1, (10f32.to_bits(), 20f32.to_bits()));
    assert_eq!(m.texts[1].0.string, "Press space to start!");
    assert_eq!(m.texts[1].1, (10f32.to_bits(), 80f32.to_bits()));
    assert_eq!(m.texts[2].0.string, "Or press esc to exit");
    assert_eq!(m.texts[2].0.size, 40);
    assert_eq!(m.texts[2].1, (10f32.to_bits(), 140f32.to_bits()));
}

#[test]
fn main_menu_answers_buttons() {
    let m = MainMenu::new();
    assert!(matches!(
        m.on_input(&Button::A, &ButtonState::Pressed),
        Some(SceneCommand::GoTo(SceneRef("game_scene")))
    ));
    assert!(matches!(m.on_input(&Button::Start, &ButtonState::Released), Some(SceneCommand::Exit)));
    assert!(m.on_input(&Button::B, &ButtonState::Pressed).is_none());
    assert!(m.on_input(&Button::Left, &ButtonState::Pressed).is_none());
}

#[test]
fn intro_runs_down_then_goes_to_the_menu() {
    let mut i = Intro::new();
    assert_eq!(i.remaining_nanos, 1_000_000_000);
    assert!(i.update(400_000_000).is_none());
    assert_eq!(i.remaining_nanos, 600_000_000);
    assert!(i.update(599_999_999).is_none());
    assert_eq!(i.remaining_nanos, 1);
    assert!(matches!(i.update(1), Some(SceneCommand::GoTo(SceneRef("main_menu")))));
    assert_eq!(i.remaining_nanos, 1);
}
