use text_adventure::model::{Exit, Item, Room, World, WorldError};

fn s(x: &str) -> String {
    x.to_string()
}

fn room(id: &str, items: &[&str], exits: &[(&str, &str)]) -> Room {
    Room {
        id: s(id),
        name: s(id),
        description: s(""),
        items: items.iter().map(|i| s(i)).collect(),
        exits: exits.iter().map(|(d, t)| Exit { direction: s(d), target: s(t) }).collect(),
        locked: false,
        key_id: None,
    }
}

fn item(id: &str) -> Item {
    Item { id: s(id), name: s(id), description: s("") }
}

fn world(start: &str, rooms: Vec<Room>, items: Vec<Item>) -> World {
    World { starting_room: s(start), rooms, items }
}

#[test]
fn lookups_find_first_by_id() {
    let w = world("a", vec![room("a", &["x"], &[]), room("b", &[], &[])], vec![item("x")]);
    assert_eq!(w.get_room("b").unwrap().id, "b");
    assert!(w.get_room("zz").is_none());
    assert_eq!(w.get_item("x").unwrap().name, "x");
    assert!(w.get_item("y").is_none());
    assert_eq!(w.find_room("b"), Some(1));
    assert_eq!(w.find_item("x"), Some(0));
}

#[test]
fn valid_world_passes() {
    let w = world("a", vec![room("a", &["x"], &[("n", "b")]), room("b", &["y"], &[("s", "a")])], vec![item("x"), item("y")]);
    assert!(w.validate().is_ok());
}

#[test]
fn duplicate_room_is_reported() {
    let w = world("a", vec![room("a", &[], &[]), room("a", &[], &[])], vec![]);
    assert!(matches!(w.validate(), Err(WorldError::DuplicateRoom { index: 1 })));
}

#[test]
fn duplicate_item_is_reported() {
    let w = world("a", vec![room("a", &["x"], &[])], vec![item("x"), item("x")]);
    assert!(matches!(w.validate(), Err(WorldError::DuplicateItem { index: 1 })));
}

#[test]
fn missing_start_is_reported() {
    let w = world("nowhere", vec![room("a", &[], &[])], vec![]);
    assert!(matches!(w.validate(), Err(WorldError::MissingStartingRoom)));
}

#[test]
fn duplicate_exit_is_reported() {
    let w = world("a", vec![room("a", &[], &[("n", "a"), ("n", "a")])], vec![]);
    assert!(matches!(w.validate(), Err(WorldError::DuplicateExit { room: 0, exit: 1 })));
}

#[test]
fn dangling_exit_is_reported() {
    let w = world("a", vec![room("a", &[], &[("n", "a")]), room("b", &[], &[("e", "void")])], vec![]);
    assert!(matches!(w.validate(), Err(WorldError::DanglingExit { room: 1, exit: 0 })));
}

#[test]
fn unknown_item_in_room_is_reported() {
    let w = world("a", vec![room("a", &["ghost"], &[])], vec![]);
    assert!(matches!(w.validate(), Err(WorldError::MisplacedItem { room: 0, slot: 0 })));
}

#[test]
fn item_placed_twice_is_reported() {
    let w = world("a", vec![room("a", &["x"], &[]), room("b", &["x"], &[])], vec![item("x")]);
    assert!(matches!(w.validate(), Err(WorldError::MisplacedItem { room: 1, slot: 0 })));
}

#[test]
fn unplaced_item_is_reported() {
    let w = world("a", vec![room("a", &["x"], &[])], vec![item("x"), item("y")]);
    assert!(matches!(w.validate(), Err(WorldError::UnplacedItem { item: 1 })));
}
