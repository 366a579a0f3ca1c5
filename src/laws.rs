//! Properties that hold across the session operations, stated over the
//! models that the operations' contracts use.
use vstd::prelude::*;

use crate::game::{lemma_graph_kept, lemma_room_index_unique, GameView};
use crate::model::{lemma_catalog_counts, stock};

verus! {

/// Every catalog item lies in exactly one place, a slot of one room or a slot
/// of the inventory, and nothing else lies anywhere. Every operation keeps
/// the session invariant, so this holds after every turn.
pub proof fn lemma_each_item_in_one_place(s: GameView, id: Seq<char>)
    requires
        s.wf(),
    ensures
        s.world.has_item(id) ==> s.placement().count(id) == 1,
        s.world.has_item(id) ==> (s.inventory.contains(id) <==> stock(s.world.rooms).count(id)
            == 0),
        !s.world.has_item(id) ==> s.placement().count(id) == 0,
{
    broadcast use vstd::seq_lib::group_to_multiset_ensures;

    lemma_catalog_counts(s.world, id);
    assert(s.placement().count(id) == stock(s.world.rooms).count(id) + s.inventory.to_multiset().count(id));
}

/// A room that a key opens through some exit is named in the unlock report.
pub proof fn lemma_opened_is_named(s: GameView, exits: Seq<(Seq<char>, Seq<char>)>, key: Seq<char>, i: int)
    requires
        s.world.room_ids_unique(),
        s.opens_via(exits, key, i),
    ensures
        s.opened_names(exits, key).contains(s.world.rooms[i].name),
    decreases exits.len(),
{
    let id = s.world.rooms[i].id;
    lemma_room_index_unique(s.world, id, i);
    let prev = s.opened_names(exits.drop_last(), key);
    if exists|e: int| 0 <= e < exits.len() - 1 && exits[e].1 == id {
        let e = choose|e: int| 0 <= e < exits.len() - 1 && exits[e].1 == id;
        assert(exits.drop_last()[e].1 == id);
        lemma_opened_is_named(s, exits.drop_last(), key, i);
        let w = choose|w: int| 0 <= w < prev.len() && prev[w] == s.world.rooms[i].name;
        assert(s.opened_names(exits, key)[w] == s.world.rooms[i].name);
    } else {
        assert(exits.last().1 == id);
        assert(s.world.has_room(id));
        assert(s.opened_names(exits, key) == prev.push(s.world.rooms[i].name));
        assert(s.opened_names(exits, key)[prev.len() as int] == s.world.rooms[i].name);
    }
}

/// The unlock report names a room only when some room is opened.
pub proof fn lemma_named_is_opened(s: GameView, exits: Seq<(Seq<char>, Seq<char>)>, key: Seq<char>)
    requires
        s.world.room_ids_unique(),
        s.opened_names(exits, key).len() > 0,
    ensures
        exists|i: int| s.opens_via(exits, key, i),
    decreases exits.len(),
{
    let prev = s.opened_names(exits.drop_last(), key);
    if prev.len() > 0 {
        lemma_named_is_opened(s, exits.drop_last(), key);
        let i = choose|i: int| s.opens_via(exits.drop_last(), key, i);
        let e = choose|e: int| 0 <= e < exits.drop_last().len() && exits.drop_last()[e].1 == s.world.rooms[i].id;
        assert(exits[e].1 == s.world.rooms[i].id);
        assert(s.opens_via(exits, key, i));
    } else {
        let t = exits.last().1;
        let i = s.world.room_index(t);
        let w = choose|w: int| 0 <= w < s.world.rooms.len() && s.world.rooms[w].id == t;
        lemma_room_index_unique(s.world, t, w);
        assert(exits[exits.len() - 1].1 == s.world.rooms[i].id);
        assert(s.opens_via(exits, key, i));
    }
}

/// Using a key next to two locked rooms that it fits unlocks both in the
/// same use and names both in the report.
pub proof fn lemma_unlock_fan_out(s: GameView, key: Seq<char>, a: int, b: int)
    requires
        s.wf(),
        0 <= a < s.world.rooms.len(),
        0 <= b < s.world.rooms.len(),
        s.world.rooms[a].locked,
        s.world.rooms[b].locked,
        s.world.rooms[a].key_id == Some(key),
        s.world.rooms[b].key_id == Some(key),
        exists|e: int|
            0 <= e < s.current_room().exits.len() && s.current_room().exits[e].1
                == s.world.rooms[a].id,
        exists|e: int|
            0 <= e < s.current_room().exits.len() && s.current_room().exits[e].1
                == s.world.rooms[b].id,
    ensures
        !s.after_use(key).world.rooms[a].locked,
        !s.after_use(key).world.rooms[b].locked,
        s.opened_names(s.current_room().exits, key).contains(s.world.rooms[a].name),
        s.opened_names(s.current_room().exits, key).contains(s.world.rooms[b].name),
{
    assert(s.opens(key, a));
    assert(s.opens(key, b));
    lemma_opened_is_named(s, s.current_room().exits, key, a);
    lemma_opened_is_named(s, s.current_room().exits, key, b);
}

/// Using an item that no locked room next to the player is keyed to
/// reports nothing and changes nothing.
pub proof fn lemma_useless_item_is_idle(s: GameView, key: Seq<char>)
    requires
        s.wf(),
        forall|i: int| !s.opens(key, i),
    ensures
        s.opened_names(s.current_room().exits, key).len() == 0,
        s.after_use(key) == s,
{
    if s.opened_names(s.current_room().exits, key).len() > 0 {
        lemma_named_is_opened(s, s.current_room().exits, key);
    }
    assert forall|i: int| 0 <= i < s.world.rooms.len() implies #[trigger] s.rooms_opened_via(
        s.current_room().exits,
        key,
    )[i] == s.world.rooms[i] by {
        assert(!s.opens(key, i));
    }
    assert(s.rooms_opened_via(s.current_room().exits, key) =~= s.world.rooms);
    assert(s.after_use(key) == s);
}

/// Using the same key a second time in the same room unlocks nothing more,
/// reports nothing, and changes nothing.
pub proof fn lemma_reuse_is_idle(s: GameView, key: Seq<char>)
    requires
        s.wf(),
    ensures
        s.after_use(key).opened_names(s.after_use(key).current_room().exits, key).len() == 0,
        s.after_use(key).after_use(key) == s.after_use(key),
{
    let t = s.after_use(key);
    let ci = s.current_index();
    let w = choose|w: int| 0 <= w < s.world.rooms.len() && s.world.rooms[w].id == s.current_room_id;
    lemma_room_index_unique(s.world, s.current_room_id, w);
    lemma_graph_kept(s.world, t.world);
    lemma_room_index_unique(t.world, t.current_room_id, ci);
    assert(t.current_room().exits == s.current_room().exits);
    assert forall|i: int| !t.opens(key, i) by {
        if t.opens(key, i) {
            assert(t.world.rooms[i].id == s.world.rooms[i].id);
            assert(s.opens(key, i));
        }
    }
    lemma_stock_kept(s, t);
    lemma_useless_item_is_idle(t, key);
}

proof fn lemma_stock_kept(s: GameView, t: GameView)
    requires
        s.wf(),
        t.current_room_id == s.current_room_id,
        t.inventory == s.inventory,
        t.world.items == s.world.items,
        t.world.graph_ok(),
        t.world.has_room(t.current_room_id),
        t.world.rooms.len() == s.world.rooms.len(),
        forall|i: int| 0 <= i < s.world.rooms.len() ==> (#[trigger] t.world.rooms[i]).items == s.world.rooms[i].items,
    ensures
        t.wf(),
{
    crate::game::lemma_stock_same_items(s.world.rooms, t.world.rooms);
    assert(t.placement() == s.placement());
}

} // verus!
