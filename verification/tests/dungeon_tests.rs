use mursten::dungeon::{lvl_1, Rule};
use mursten::tiles::Tile;

#[test]
fn the_first_level() {
    let d = lvl_1();
    assert_eq!(d.mem_size(), 9);
    assert_eq!(d.start_room(), "S");
    let rules = d.get_rules();
    assert_eq!(rules.len(), 6);
    assert_eq!(rules[2].at, "a");
    assert_eq!(rules[2].door, 2);
    assert_eq!(rules[2].to, "c");
    assert_eq!(d.rooms.len(), 6);
    assert!(d.rooms.iter().all(|(_, b)| b.size == (5, 5) && b.tiles.len() == 25));
}

#[test]
fn doors_of_the_rooms() {
    let d = lvl_1();
    assert_eq!(d.available_doors(&"S".to_string()), vec![1]);
    assert_eq!(d.available_doors(&"a".to_string()), vec![1, 0, 2]);
    assert_eq!(d.available_doors(&"b".to_string()), vec![1, 0]);
    assert_eq!(d.available_doors(&"d".to_string()), vec![0, 1]);
    assert_eq!(d.available_doors(&"F".to_string()), vec![0]);
}

#[test]
fn final_rooms() {
    let d = lvl_1();
    assert!(d.is_final(&"F".to_string()));
    assert!(d.is_final(&"Final".to_string()));
    assert!(!d.is_final(&"d".to_string()));
}

#[test]
fn rooms_are_created_from_their_blueprints() {
    let d = lvl_1();
    let b = d.create(&"c".to_string());
    assert_eq!(b.size, (5, 5));
    assert_eq!(b.tiles[2], Tile::Door(0));
    assert_eq!(b.tiles[14], Tile::Door(1));
    assert!(b.objects.is_none());
}

#[test]
fn writing_a_rule() {
    let r = Rule::at("x").through(3).gets_to("y");
    assert_eq!(r.at, "x");
    assert_eq!(r.door, 3);
    assert_eq!(r.to, "y");
}
