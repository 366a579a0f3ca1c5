use text_adventure::game::{
    inventory_names, move_player, take_item, use_item, GameState, MoveOutcome, TakeOutcome,
    UseOutcome,
};
use text_adventure::model::{Exit, Item, Room, World};

fn s(x: &str) -> String {
    x.to_string()
}

fn item(id: &str, name: &str) -> Item {
    Item { id: s(id), name: s(name), description: s("") }
}

fn room(id: &str, items: &[&str], exits: &[(&str, &str)], locked: bool, key: Option<&str>) -> Room {
    Room {
        id: s(id),
        name: s(id),
        description: format!("the {}", id),
        items: items.iter().map(|i| s(i)).collect(),
        exits: exits.iter().map(|(d, t)| Exit { direction: s(d), target: s(t) }).collect(),
        locked,
        key_id: key.map(s),
    }
}

fn cell_world() -> World {
    World {
        starting_room: s("cell"),
        rooms: vec![
            room("cell", &["brass_key"], &[("n", "hall")], false, None),
            room("hall", &[], &[("s", "cell")], true, Some("brass_key")),
        ],
        items: vec![item("brass_key", "Brass Key")],
    }
}

fn room_of<'a>(st: &'a GameState, id: &str) -> &'a Room {
    st.world.get_room(id).unwrap()
}

#[test]
fn end_to_end_cell_and_hall() {
    let w = cell_world();
    assert!(w.validate().is_ok());
    let mut st = GameState::new(w);
    assert_eq!(st.current_room_id, "cell");

    match take_item(&mut st, "brass key") {
        TakeOutcome::Taken(name) => assert_eq!(name, "Brass Key"),
        _ => panic!("expected the key to be taken"),
    }
    assert_eq!(st.inventory, vec![s("brass_key")]);
    assert!(room_of(&st, "cell").items.is_empty());

    assert!(matches!(move_player(&mut st, "n"), MoveOutcome::Locked));
    assert_eq!(st.current_room_id, "cell");

    match use_item(&mut st, "brass key") {
        UseOutcome::Unlocked(names) => assert_eq!(names, vec![s("hall")]),
        _ => panic!("expected the hall to be unlocked"),
    }
    assert!(!room_of(&st, "hall").locked);

    assert!(matches!(move_player(&mut st, "n"), MoveOutcome::Moved));
    assert_eq!(st.current_room_id, "hall");
    assert_eq!(st.get_current_room().name, "hall");
}

#[test]
fn move_without_exit_stays() {
    let mut st = GameState::new(cell_world());
    assert!(matches!(move_player(&mut st, "w"), MoveOutcome::NoExit));
    assert_eq!(st.current_room_id, "cell");
}

#[test]
fn move_into_open_room() {
    let w = World {
        starting_room: s("a"),
        rooms: vec![room("a", &[], &[("e", "b")], false, None), room("b", &[], &[("w", "a")], false, None)],
        items: vec![],
    };
    let mut st = GameState::new(w);
    assert!(matches!(move_player(&mut st, "e"), MoveOutcome::Moved));
    assert_eq!(st.current_room_id, "b");
    assert!(matches!(move_player(&mut st, "w"), MoveOutcome::Moved));
    assert_eq!(st.current_room_id, "a");
}

#[test]
fn take_keeps_order_of_the_rest() {
    let w = World {
        starting_room: s("a"),
        rooms: vec![room("a", &["x", "y", "z"], &[], false, None)],
        items: vec![item("x", "Rope"), item("y", "Lamp"), item("z", "Apple")],
    };
    let mut st = GameState::new(w);
    assert!(matches!(take_item(&mut st, "LAMP"), TakeOutcome::Taken(_)));
    assert_eq!(room_of(&st, "a").items, vec![s("x"), s("z")]);
    assert_eq!(st.inventory, vec![s("y")]);
    assert!(matches!(take_item(&mut st, "apple"), TakeOutcome::Taken(_)));
    assert_eq!(st.inventory, vec![s("y"), s("z")]);
    assert_eq!(inventory_names(&st), vec![s("Lamp"), s("Apple")]);
}

#[test]
fn take_missing_changes_nothing() {
    let mut st = GameState::new(cell_world());
    assert!(matches!(take_item(&mut st, "sword"), TakeOutcome::NotHere));
    assert_eq!(room_of(&st, "cell").items, vec![s("brass_key")]);
    assert!(st.inventory.is_empty());
}

#[test]
fn take_empty_query() {
    let mut st = GameState::new(cell_world());
    assert!(matches!(take_item(&mut st, ""), TakeOutcome::NoQuery));
    assert_eq!(room_of(&st, "cell").items, vec![s("brass_key")]);
}

#[test]
fn take_first_match_wins() {
    let w = World {
        starting_room: s("a"),
        rooms: vec![room("a", &["k2", "k1"], &[], false, None)],
        items: vec![item("k1", "Iron Key"), item("k2", "Gold Key")],
    };
    let mut st = GameState::new(w);
    match take_item(&mut st, "key") {
        TakeOutcome::Taken(name) => assert_eq!(name, "Gold Key"),
        _ => panic!("expected a key"),
    }
    assert_eq!(st.inventory, vec![s("k2")]);
    assert_eq!(room_of(&st, "a").items, vec![s("k1")]);
}

fn fan_world() -> World {
    World {
        starting_room: s("r"),
        rooms: vec![
            room("r", &["k", "pebble"], &[("n", "a"), ("s", "b"), ("e", "c")], false, None),
            room("a", &[], &[("s", "r")], true, Some("k")),
            room("b", &[], &[("n", "r")], true, Some("k")),
            room("c", &[], &[("w", "r")], false, None),
        ],
        items: vec![item("k", "Skeleton Key"), item("pebble", "Pebble")],
    }
}

#[test]
fn one_key_unlocks_two_doors() {
    let w = fan_world();
    assert!(w.validate().is_ok());
    let mut st = GameState::new(w);
    assert!(matches!(take_item(&mut st, "skeleton"), TakeOutcome::Taken(_)));
    match use_item(&mut st, "key") {
        UseOutcome::Unlocked(names) => assert_eq!(names, vec![s("a"), s("b")]),
        _ => panic!("expected two rooms unlocked"),
    }
    assert!(!room_of(&st, "a").locked);
    assert!(!room_of(&st, "b").locked);
    assert_eq!(st.inventory, vec![s("k")]);
}

#[test]
fn other_item_cannot_be_used_here() {
    let mut st = GameState::new(fan_world());
    assert!(matches!(take_item(&mut st, "pebble"), TakeOutcome::Taken(_)));
    assert!(matches!(use_item(&mut st, "pebble"), UseOutcome::NoEffect));
    assert!(room_of(&st, "a").locked);
    assert!(room_of(&st, "b").locked);
}

#[test]
fn second_use_of_key_is_idle() {
    let mut st = GameState::new(cell_world());
    assert!(matches!(take_item(&mut st, "key"), TakeOutcome::Taken(_)));
    assert!(matches!(use_item(&mut st, "key"), UseOutcome::Unlocked(_)));
    assert!(matches!(use_item(&mut st, "key"), UseOutcome::NoEffect));
    assert!(!room_of(&st, "hall").locked);
    assert_eq!(st.inventory, vec![s("brass_key")]);
}

#[test]
fn use_without_item_or_query() {
    let mut st = GameState::new(cell_world());
    assert!(matches!(use_item(&mut st, "key"), UseOutcome::NotCarried));
    assert!(matches!(use_item(&mut st, ""), UseOutcome::NoQuery));
    assert!(room_of(&st, "hall").locked);
}

#[test]
fn status_shows_room() {
    let st = GameState::new(fan_world());
    let status = st.status();
    assert_eq!(status.name, "r");
    assert_eq!(status.description, "the r");
    assert_eq!(status.item_names, vec![s("Skeleton Key"), s("Pebble")]);
    assert_eq!(status.exits, vec![s("n"), s("s"), s("e")]);
    assert!(inventory_names(&st).is_empty());
}

#[test]
fn each_item_stays_in_one_place() {
    let mut st = GameState::new(fan_world());
    let count = |st: &GameState, id: &str| {
        let in_rooms: usize =
            st.world.rooms.iter().map(|r| r.items.iter().filter(|i| *i == id).count()).sum();
        in_rooms + st.inventory.iter().filter(|i| *i == id).count()
    };
    assert_eq!(count(&st, "k"), 1);
    take_item(&mut st, "skeleton");
    assert_eq!(count(&st, "k"), 1);
    assert_eq!(count(&st, "pebble"), 1);
    use_item(&mut st, "skeleton");
    move_player(&mut st, "n");
    take_item(&mut st, "pebble");
    assert_eq!(count(&st, "k"), 1);
    assert_eq!(count(&st, "pebble"), 1);
}
