//! The play session: where the player stands, what they carry, and the
//! operations a turn can perform on that state.
use vstd::multiset::Multiset;
use vstd::prelude::*;
use vstd::string::StrSliceExecFns;

use crate::model::{stock, texts, Room, RoomView, World, WorldView};
use crate::model::lemma_catalog_counts;
use crate::text::{name_contains, name_matches, text_eq};

verus! {

/// Mutable state of one playthrough.
pub struct GameState {
    pub current_room_id: String,
    /// Ids of the carried items, in the order they were picked up.
    pub inventory: Vec<String>,
    pub world: World,
}

pub struct GameView {
    pub current_room_id: Seq<char>,
    pub inventory: Seq<Seq<char>>,
    pub world: WorldView,
}

impl View for GameState {
    type V = GameView;

    open spec fn view(&self) -> GameView {
        GameView {
            current_room_id: self.current_room_id@,
            inventory: texts(self.inventory@),
            world: self.world@,
        }
    }
}

/// What a move request did.
pub enum MoveOutcome {
    /// The current room has no exit that way.
    NoExit,
    /// The exit leads to a locked room.
    Locked,
    /// The player entered the room the exit leads to.
    Moved,
}

impl GameView {
    /// Every item id lying anywhere, in a room or in the inventory.
    pub open spec fn placement(self) -> Multiset<Seq<char>> {
        stock(self.world.rooms).add(self.inventory.to_multiset())
    }

    /// The session invariant: a consistent world, a current room that exists,
    /// and each catalog item in exactly one slot of a room or the inventory.
    pub open spec fn wf(self) -> bool {
        &&& self.world.graph_ok()
        &&& self.world.has_room(self.current_room_id)
        &&& self.placement() == self.world.item_ids().to_multiset()
    }

    pub open spec fn current_index(self) -> int {
        self.world.room_index(self.current_room_id)
    }

    pub open spec fn current_room(self) -> RoomView {
        self.world.rooms[self.current_index()]
    }

    /// The catalog name of the item with the given id.
    pub open spec fn item_name(self, id: Seq<char>) -> Seq<char> {
        self.world.items[self.world.item_index(id)].name
    }

    /// The id belongs to a catalog item whose name matches the query.
    pub open spec fn id_matches(self, id: Seq<char>, query: Seq<char>) -> bool {
        self.world.has_item(id) && name_matches(self.item_name(id), query)
    }

    /// Slot `j` of `ids` is the first one whose item matches the query.
    pub open spec fn is_first_match(self, ids: Seq<Seq<char>>, query: Seq<char>, j: int) -> bool {
        &&& 0 <= j < ids.len()
        &&& self.id_matches(ids[j], query)
        &&& forall|k: int| 0 <= k < j ==> !self.id_matches(ids[k], query)
    }

    /// Some slot of `ids` holds an item that matches the query.
    pub open spec fn any_match(self, ids: Seq<Seq<char>>, query: Seq<char>) -> bool {
        exists|j: int| 0 <= j < ids.len() && self.id_matches(ids[j], query)
    }

    /// The state after slot `j` of the current room has moved to the end of the inventory.
    pub open spec fn after_take(self, j: int) -> GameView {
        let room = self.current_room();
        GameView {
            inventory: self.inventory.push(room.items[j]),
            world: WorldView {
                rooms: self.world.rooms.update(
                    self.current_index(),
                    RoomView { items: room.items.remove(j), ..room },
                ),
                ..self.world
            },
            ..self
        }
    }

    /// Room `i` is locked, keyed to `key`, and one of `exits` leads to it.
    pub open spec fn opens_via(self, exits: Seq<(Seq<char>, Seq<char>)>, key: Seq<char>, i: int) -> bool {
        &&& 0 <= i < self.world.rooms.len()
        &&& self.world.rooms[i].locked
        &&& self.world.rooms[i].key_id == Some(key)
        &&& exists|e: int| 0 <= e < exits.len() && exits[e].1 == self.world.rooms[i].id
    }

    /// Using `key` here unlocks room `i`.
    pub open spec fn opens(self, key: Seq<char>, i: int) -> bool {
        self.opens_via(self.current_room().exits, key, i)
    }

    /// The rooms list with the rooms that `key` opens through `exits` unlocked.
    pub open spec fn rooms_opened_via(self, exits: Seq<(Seq<char>, Seq<char>)>, key: Seq<char>) -> Seq<RoomView> {
        Seq::new(
            self.world.rooms.len(),
            |i: int|
                if self.opens_via(exits, key, i) {
                    RoomView { locked: false, ..self.world.rooms[i] }
                } else {
                    self.world.rooms[i]
                },
        )
    }

    /// The state after using `key` in the current room.
    pub open spec fn after_use(self, key: Seq<char>) -> GameView {
        GameView {
            world: WorldView {
                rooms: self.rooms_opened_via(self.current_room().exits, key),
                ..self.world
            },
            ..self
        }
    }

    /// The names of the rooms that `key` unlocks through `exits`, in exit
    /// order, each room once.
    pub open spec fn opened_names(self, exits: Seq<(Seq<char>, Seq<char>)>, key: Seq<char>) -> Seq<Seq<char>>
        decreases exits.len(),
    {
        if exits.len() == 0 {
            Seq::empty()
        } else {
            let prev = self.opened_names(exits.drop_last(), key);
            let t = exits.last().1;
            let room = self.world.rooms[self.world.room_index(t)];
            if self.world.has_room(t) && room.locked && room.key_id == Some(key) && !(exists|e: int|
                0 <= e < exits.len() - 1 && exits[e].1 == t) {
                prev.push(room.name)
            } else {
                prev
            }
        }
    }

    /// The catalog names of the items with these ids.
    pub open spec fn names_of(self, ids: Seq<Seq<char>>) -> Seq<Seq<char>> {
        ids.map_values(|id: Seq<char>| self.item_name(id))
    }

    /// The state with the player standing in another room.
    pub open spec fn moved_to(self, id: Seq<char>) -> GameView {
        GameView { current_room_id: id, ..self }
    }
}

/// Ids that name one room are found at one index only.
pub proof fn lemma_room_index_unique(w: WorldView, id: Seq<char>, i: int)
    requires
        w.room_ids_unique(),
        0 <= i < w.rooms.len(),
        w.rooms[i].id == id,
    ensures
        w.is_room_index(id, i),
        w.room_index(id) == i,
{
    assert(w.is_room_index(id, i));
}

/// Ids that name one item are found at one index only.
pub proof fn lemma_item_index_unique(w: WorldView, id: Seq<char>, i: int)
    requires
        w.item_ids_unique(),
        0 <= i < w.items.len(),
        w.items[i].id == id,
    ensures
        w.is_item_index(id, i),
        w.item_index(id) == i,
{
    assert(w.is_item_index(id, i));
}

/// Replacing one room changes the stock by that room's item lists alone.
pub proof fn lemma_stock_update(rooms: Seq<RoomView>, k: int, nr: RoomView)
    requires
        0 <= k < rooms.len(),
    ensures
        stock(rooms.update(k, nr)).add(rooms[k].items.to_multiset()) == stock(rooms).add(
            nr.items.to_multiset(),
        ),
    decreases rooms.len(),
{
    let u = rooms.update(k, nr);
    assert(stock(u) == stock(u.drop_last()).add(u.last().items.to_multiset()));
    assert(stock(rooms) == stock(rooms.drop_last()).add(rooms.last().items.to_multiset()));
    if k == rooms.len() - 1 {
        assert(u.drop_last() =~= rooms.drop_last());
        assert(u.last() == nr);
        assert(rooms[k] == rooms.last());
        assert(stock(u.drop_last()) == stock(rooms.drop_last()));
        let a = stock(rooms.drop_last());
        let x = nr.items.to_multiset();
        let y = rooms[k].items.to_multiset();
        assert(stock(u) == a.add(x));
        assert(stock(rooms) == a.add(y));
        assert(a.add(x).add(y) =~= a.add(y).add(x));
    } else {
        assert(u.last() == rooms.last());
        lemma_stock_update(rooms.drop_last(), k, nr);
        assert(rooms.drop_last()[k] == rooms[k]);
        assert(u.drop_last() =~= rooms.drop_last().update(k, nr));
        let a = stock(rooms.drop_last());
        let b = stock(rooms.drop_last().update(k, nr));
        let l = rooms.last().items.to_multiset();
        let x = nr.items.to_multiset();
        let y = rooms[k].items.to_multiset();
        assert(b.add(y) == a.add(x));
        assert(stock(u) == b.add(l));
        assert(b.add(l).add(y) =~= b.add(y).add(l));
        assert(a.add(x).add(l) =~= a.add(l).add(x));
    }
}

/// Rooms that hold the same item lists hold the same stock.
pub proof fn lemma_stock_same_items(a: Seq<RoomView>, b: Seq<RoomView>)
    requires
        a.len() == b.len(),
        forall|i: int| 0 <= i < a.len() ==> (#[trigger] a[i]).items == b[i].items,
    ensures
        stock(a) == stock(b),
    decreases a.len(),
{
    if a.len() > 0 {
        lemma_stock_same_items(a.drop_last(), b.drop_last());
        assert(a.last().items == b.last().items);
    }
}

/// A world whose rooms keep their ids and exits keeps a consistent graph.
pub proof fn lemma_graph_kept(a: WorldView, b: WorldView)
    requires
        a.graph_ok(),
        b.starting_room == a.starting_room,
        b.items == a.items,
        b.rooms.len() == a.rooms.len(),
        forall|r: int|
            0 <= r < a.rooms.len() ==> (#[trigger] b.rooms[r]).id == a.rooms[r].id && b.rooms[r].exits
                == a.rooms[r].exits,
    ensures
        b.graph_ok(),
        forall|id: Seq<char>| a.has_room(id) ==> b.has_room(id),
        forall|id: Seq<char>, i: int| a.is_room_index(id, i) == b.is_room_index(id, i),
{
    assert forall|id: Seq<char>| a.has_room(id) implies b.has_room(id) by {
        let w = choose|w: int| 0 <= w < a.rooms.len() && a.rooms[w].id == id;
        assert(b.rooms[w].id == id);
    }
    assert forall|id: Seq<char>, i: int| a.is_room_index(id, i) == b.is_room_index(id, i) by {
        if 0 <= i < a.rooms.len() {
            assert(a.rooms[i].id == b.rooms[i].id);
            assert(forall|j: int| 0 <= j < i ==> a.rooms[j].id == b.rooms[j].id);
        }
    }
    assert forall|r: int| 0 <= r < b.rooms.len() implies {
        &&& (#[trigger] b.rooms[r]).exit_directions_unique()
        &&& forall|e: int|
            0 <= e < b.rooms[r].exits.len() ==> b.has_room(#[trigger] b.rooms[r].exits[e].1)
    } by {
        assert(a.rooms[r].exit_directions_unique());
        assert forall|e: int| 0 <= e < b.rooms[r].exits.len() implies b.has_room(
            #[trigger] b.rooms[r].exits[e].1,
        ) by {
            assert(a.has_room(a.rooms[r].exits[e].1));
        }
    }
    assert(b.has_room(b.starting_room));
}

impl GameState {
    /// Starts a session in the world's starting room with empty hands.
    pub fn new(world: World) -> (r: GameState)
        requires
            world@.wf(),
        ensures
            r.wf(),
            r@ == (GameView {
                current_room_id: world@.starting_room,
                inventory: Seq::empty(),
                world: world@,
            }),
    {
        let current_room_id = world.starting_room.clone();
        let r = GameState { current_room_id, inventory: Vec::new(), world };
        proof {
            assert(r@.inventory =~= Seq::<Seq<char>>::empty());
            broadcast use vstd::seq_lib::group_to_multiset_ensures;
            assert(r@.inventory.to_multiset() =~= Multiset::empty());
            assert(r@.placement() =~= stock(world@.rooms));
        }
        r
    }

    pub open spec fn wf(&self) -> bool {
        self@.wf()
    }

    /// Index of the current room in the world's room list.
    fn current_index(&self) -> (r: usize)
        requires
            self.wf(),
        ensures
            r == self@.current_index(),
            self@.world.is_room_index(self@.current_room_id, r as int),
            r < self.world.rooms@.len(),
    {
        match self.world.find_room(self.current_room_id.as_str()) {
            Some(i) => {
                proof {
                    lemma_room_index_unique(self@.world, self@.current_room_id, i as int);
                }
                i
            },
            None => {
                proof {
                    assert(false);
                }
                0
            },
        }
    }

    /// The room the player stands in.
    pub fn get_current_room(&self) -> (r: &Room)
        requires
            self.wf(),
        ensures
            r@ == self@.current_room(),
    {
        let i = self.current_index();
        &self.world.rooms[i]
    }

    /// The room the player stands in, for changing it in place.
    pub fn get_current_room_mut(&mut self) -> (r: &mut Room)
        requires
            old(self).wf(),
        ensures
            (*r)@ == old(self)@.current_room(),
            final(self).current_room_id == old(self).current_room_id,
            final(self).inventory == old(self).inventory,
            final(self).world.starting_room == old(self).world.starting_room,
            final(self).world.items == old(self).world.items,
            final(self).world.rooms@ == old(self).world.rooms@.update(
                old(self)@.current_index(),
                *final(r),
            ),
    {
        let i = self.current_index();
        &mut self.world.rooms[i]
    }
}

/// What the player sees of the room they stand in.
pub struct RoomStatus {
    pub name: String,
    pub description: String,
    /// Names of the items lying here, in room order.
    pub item_names: Vec<String>,
    /// Directions of the exits, in the room's order.
    pub exits: Vec<String>,
}

/// Every id lying in a room or carried is a catalog id.
proof fn lemma_placed_ids_known(s: GameView)
    requires
        s.wf(),
    ensures
        forall|k: int| 0 <= k < s.inventory.len() ==> s.world.has_item(#[trigger] s.inventory[k]),
        forall|k: int|
            0 <= k < s.current_room().items.len() ==> s.world.has_item(
                #[trigger] s.current_room().items[k],
            ),
{
    broadcast use vstd::seq_lib::group_to_multiset_ensures;

    let ci = s.current_index();
    let w = choose|w: int| 0 <= w < s.world.rooms.len() && s.world.rooms[w].id == s.current_room_id;
    lemma_room_index_unique(s.world, s.current_room_id, w);
    assert forall|k: int| 0 <= k < s.inventory.len() implies s.world.has_item(#[trigger] s.inventory[k]) by {
        let id = s.inventory[k];
        assert(s.inventory.contains(id));
        assert(s.placement().count(id) > 0);
        lemma_catalog_counts(s.world, id);
    }
    assert forall|k: int|
        0 <= k < s.current_room().items.len() implies s.world.has_item(
            #[trigger] s.current_room().items[k],
        ) by {
        let id = s.current_room().items[k];
        crate::model::lemma_placed_within(s.world.rooms, ci, k, id);
        assert(stock(s.world.rooms).count(id) > 0);
        assert(s.placement().count(id) > 0);
        lemma_catalog_counts(s.world, id);
    }
}

impl GameState {
    /// The catalog names of the given item ids, in order.
    fn names_of_ids(&self, ids: &Vec<String>) -> (r: Vec<String>)
        requires
            self.wf(),
            forall|k: int| 0 <= k < ids@.len() ==> self@.world.has_item(#[trigger] ids@[k]@),
        ensures
            texts(r@) == self@.names_of(texts(ids@)),
    {
        let ghost s = self@;
        let mut names: Vec<String> = Vec::new();
        let mut k: usize = 0;
        while k < ids.len()
            invariant
                s == self@,
                s.wf(),
                forall|k: int| 0 <= k < ids@.len() ==> s.world.has_item(#[trigger] ids@[k]@),
                k <= ids@.len(),
                names@.len() == k,
                texts(names@) == s.names_of(texts(ids@)).take(k as int),
            decreases ids@.len() - k,
        {
            match self.world.find_item(ids[k].as_str()) {
                Some(ii) => {
                    proof {
                        lemma_item_index_unique(s.world, ids@[k as int]@, ii as int);
                    }
                    let ghost prev = names@;
                    names.push(self.world.items[ii].name.clone());
                    proof {
                        assert(s.world.items[ii as int] == self.world.items@[ii as int]@);
                        assert(names@[k as int]@ == s.item_name(ids@[k as int]@));
                        assert(texts(names@) =~= s.names_of(texts(ids@)).take(k as int + 1));
                    }
                },
                None => {
                    proof {
                        assert(s.world.has_item(ids@[k as int]@));
                    }
                },
            }
            k = k + 1;
        }
        proof {
            assert(s.names_of(texts(ids@)).take(ids@.len() as int) =~= s.names_of(texts(ids@)));
        }
        names
    }

    /// What the player sees of the current room.
    pub fn status(&self) -> (r: RoomStatus)
        requires
            self.wf(),
        ensures
            r.name@ == self@.current_room().name,
            r.description@ == self@.current_room().description,
            texts(r.item_names@) == self@.names_of(self@.current_room().items),
            texts(r.exits@) == self@.current_room().exits.map_values(
                |e: (Seq<char>, Seq<char>)| e.0,
            ),
    {
        let ghost s = self@;
        proof {
            lemma_placed_ids_known(s);
        }
        let room = self.get_current_room();
        proof {
            assert forall|k: int| 0 <= k < room.items@.len() implies s.world.has_item(
                #[trigger] room.items@[k]@,
            ) by {
                assert(s.current_room().items[k] == room.items@[k]@);
            }
        }
        let item_names = self.names_of_ids(&room.items);
        let mut exits: Vec<String> = Vec::new();
        let mut e: usize = 0;
        while e < room.exits.len()
            invariant
                e <= room.exits@.len(),
                exits@.len() == e,
                texts(exits@) == room@.exits.map_values(|x: (Seq<char>, Seq<char>)| x.0).take(
                    e as int,
                ),
            decreases room.exits@.len() - e,
        {
            exits.push(room.exits[e].direction.clone());
            proof {
                assert(room@.exits[e as int] == room.exits@[e as int]@);
                assert(texts(exits@) =~= room@.exits.map_values(
                    |x: (Seq<char>, Seq<char>)| x.0,
                ).take(e as int + 1));
            }
            e = e + 1;
        }
        proof {
            let all = room@.exits.map_values(|x: (Seq<char>, Seq<char>)| x.0);
            assert(all.take(room.exits@.len() as int) =~= all);
        }
        RoomStatus {
            name: room.name.clone(),
            description: room.description.clone(),
            item_names,
            exits,
        }
    }
}

/// The names of the carried items, in the order they were picked up.
pub fn inventory_names(state: &GameState) -> (r: Vec<String>)
    requires
        state.wf(),
    ensures
        texts(r@) == state@.names_of(state@.inventory),
{
    proof {
        lemma_placed_ids_known(state@);
        assert forall|k: int| 0 <= k < state.inventory@.len() implies state@.world.has_item(
            #[trigger] state.inventory@[k]@,
        ) by {
            assert(state@.inventory[k] == state.inventory@[k]@);
        }
    }
    state.names_of_ids(&state.inventory)
}

/// What a pickup request did.
pub enum TakeOutcome {
    /// The query was empty.
    NoQuery,
    /// No item in the room matches the query.
    NotHere,
    /// The item with this name moved from the room to the inventory.
    Taken(String),
}

/// Picks up the first item of the current room whose name contains the
/// query, ignoring case.
pub fn take_item(state: &mut GameState, query: &str) -> (r: TakeOutcome)
    requires
        old(state).wf(),
    ensures
        final(state).wf(),
        ({
            let s = old(state)@;
            let ids = s.current_room().items;
            match r {
                TakeOutcome::NoQuery => query@.len() == 0 && final(state)@ == s,
                TakeOutcome::NotHere => query@.len() > 0 && !s.any_match(ids, query@)
                    && final(state)@ == s,
                TakeOutcome::Taken(name) => query@.len() > 0 && exists|j: int|
                    s.is_first_match(ids, query@, j) && final(state)@ == s.after_take(j)
                        && name@ == s.item_name(ids[j]),
            }
        }),
{
    if query.unicode_len() == 0 {
        return TakeOutcome::NoQuery;
    }
    let ci = state.current_index();
    let ghost s = state@;
    let ghost ids = s.current_room().items;
    let n = state.world.rooms[ci].items.len();
    let mut j: usize = 0;
    while j < n
        invariant
            state@ == s,
            old(state)@ == s,
            s.wf(),
            ci == s.current_index(),
            s.world.is_room_index(s.current_room_id, ci as int),
            ci < state.world.rooms@.len(),
            ids == s.current_room().items,
            ids == texts(state.world.rooms@[ci as int].items@),
            n == ids.len(),
            query@.len() > 0,
            j <= n,
            forall|k: int| 0 <= k < j ==> !s.id_matches(ids[k], query@),
        decreases n - j,
    {
        match state.world.find_item(state.world.rooms[ci].items[j].as_str()) {
            Some(ii) => {
                proof {
                    lemma_item_index_unique(s.world, ids[j as int], ii as int);
                }
                if name_contains(state.world.items[ii].name.as_str(), query) {
                    let name = state.world.items[ii].name.clone();
                    let id = state.world.rooms[ci].items.remove(j);
                    state.inventory.push(id);
                    proof {
                        assert(s.is_first_match(ids, query@, j as int));
                        let t = s.after_take(j as int);
                        let room = s.current_room();
                        let nr = RoomView { items: room.items.remove(j as int), ..room };
                        assert(state@.inventory =~= t.inventory);
                        assert(state@.world.rooms[ci as int].items =~= nr.items);
                        assert(state@.world.rooms =~= t.world.rooms);
                        assert(state@ == t);
                        broadcast use vstd::seq_lib::group_to_multiset_ensures;
                        lemma_stock_update(s.world.rooms, ci as int, nr);
                        assert(room.items.to_multiset() =~= nr.items.to_multiset().insert(ids[j as int]));
                        assert(t.inventory.to_multiset() =~= s.inventory.to_multiset().insert(ids[j as int]));
                        let st = stock(t.world.rooms);
                        let ss = stock(s.world.rooms);
                        let x = nr.items.to_multiset();
                        let inv = s.inventory.to_multiset();
                        assert(st.add(room.items.to_multiset()) == ss.add(x));
                        assert forall|v: Seq<char>|
                            #[trigger] t.placement().count(v) == s.placement().count(v) by {
                            assert(st.add(room.items.to_multiset()).count(v) == ss.add(x).count(v));
                        }
                        assert(t.placement() =~= s.placement());
                        assert forall|r: int| 0 <= r < s.world.rooms.len() implies
                            #[trigger] t.world.rooms[r].id == s.world.rooms[r].id
                            && t.world.rooms[r].exits == s.world.rooms[r].exits by {}
                        lemma_graph_kept(s.world, t.world);
                        assert(t.world.rooms[ci as int].id == t.current_room_id);
                    }
                    return TakeOutcome::Taken(name);
                }
            },
            None => {},
        }
        j = j + 1;
    }
    TakeOutcome::NotHere
}

/// What a use request did.
pub enum UseOutcome {
    /// The query was empty.
    NoQuery,
    /// No carried item matches the query.
    NotCarried,
    /// The item unlocks nothing next to the current room.
    NoEffect,
    /// The rooms with these names were unlocked, in exit order.
    Unlocked(Vec<String>),
}

/// Index of the first carried item whose name contains the query, ignoring case.
fn find_carried(state: &GameState, query: &str) -> (r: Option<usize>)
    requires
        state.wf(),
    ensures
        match r {
            Some(j) => state@.is_first_match(state@.inventory, query@, j as int),
            None => !state@.any_match(state@.inventory, query@),
        },
{
    let ghost s = state@;
    let n = state.inventory.len();
    let mut j: usize = 0;
    while j < n
        invariant
            s == state@,
            s.wf(),
            n == s.inventory.len(),
            j <= n,
            forall|k: int| 0 <= k < j ==> !s.id_matches(s.inventory[k], query@),
        decreases n - j,
    {
        match state.world.find_item(state.inventory[j].as_str()) {
            Some(ii) => {
                proof {
                    lemma_item_index_unique(s.world, s.inventory[j as int], ii as int);
                }
                if name_contains(state.world.items[ii].name.as_str(), query) {
                    return Some(j);
                }
            },
            None => {},
        }
        j = j + 1;
    }
    None
}

/// Uses the first carried item whose name contains the query, ignoring case:
/// every locked room that an exit of the current room leads to and that this
/// item is the key of becomes unlocked. The item stays in the inventory.
pub fn use_item(state: &mut GameState, query: &str) -> (r: UseOutcome)
    requires
        old(state).wf(),
    ensures
        final(state).wf(),
        ({
            let s = old(state)@;
            let exits = s.current_room().exits;
            match r {
                UseOutcome::NoQuery => query@.len() == 0 && final(state)@ == s,
                UseOutcome::NotCarried => query@.len() > 0 && !s.any_match(s.inventory, query@)
                    && final(state)@ == s,
                UseOutcome::NoEffect => query@.len() > 0 && exists|j: int|
                    s.is_first_match(s.inventory, query@, j) && s.opened_names(
                        exits,
                        s.inventory[j],
                    ).len() == 0 && (forall|i: int| !s.opens(s.inventory[j], i))
                        && final(state)@ == s,
                UseOutcome::Unlocked(names) => query@.len() > 0 && exists|j: int|
                    s.is_first_match(s.inventory, query@, j) && texts(names@) == s.opened_names(
                        exits,
                        s.inventory[j],
                    ) && names@.len() > 0 && final(state)@ == s.after_use(s.inventory[j]),
            }
        }),
{
    if query.unicode_len() == 0 {
        return UseOutcome::NoQuery;
    }
    let j = match find_carried(state, query) {
        Some(j) => j,
        None => {
            return UseOutcome::NotCarried;
        },
    };
    let key = state.inventory[j].clone();
    let ci = state.current_index();
    let ghost s = state@;
    let ghost exits = s.current_room().exits;
    let n = state.world.rooms[ci].exits.len();
    let mut names: Vec<String> = Vec::new();
    let mut e: usize = 0;
    while e < n
        invariant
            old(state)@ == s,
            s.wf(),
            ci == s.current_index(),
            s.world.is_room_index(s.current_room_id, ci as int),
            exits == s.current_room().exits,
            n == exits.len(),
            key@ == s.inventory[j as int],
            e <= n,
            state@.current_room_id == s.current_room_id,
            state@.inventory == s.inventory,
            state@.world.starting_room == s.world.starting_room,
            state@.world.items == s.world.items,
            state@.world.rooms == s.rooms_opened_via(exits.take(e as int), key@),
            texts(names@) == s.opened_names(exits.take(e as int), key@),
            names@.len() == 0 ==> forall|i: int| !s.opens_via(exits.take(e as int), key@, i),
        decreases n - e,
    {
        proof {
            assert(s.rooms_opened_via(exits.take(e as int), key@).len() == s.world.rooms.len());
            assert(state.world.rooms@.len() == s.world.rooms.len());
            assert(state@.world.rooms[ci as int].exits == exits);
            assert(state.world.rooms@[ci as int].exits@.len() == exits.len());
        }
        let target = state.world.rooms[ci].exits[e].target.clone();
        let ghost tid = exits[e as int].1;
        proof {
            assert(target@ == tid);
            assert(s.world.has_room(tid));
        }
        match state.world.find_room(target.as_str()) {
            Some(t) => {
                proof {
                    assert(state@.world.rooms[t as int].id == s.world.rooms[t as int].id);
                    lemma_room_index_unique(s.world, tid, t as int);
                }
                let ghost before = state@.world.rooms;
                let keyed = match &state.world.rooms[t].key_id {
                    Some(k) => text_eq(k.as_str(), key.as_str()),
                    None => false,
                };
                if state.world.rooms[t].locked && keyed {
                    state.world.rooms[t].locked = false;
                    names.push(state.world.rooms[t].name.clone());
                }
                proof {
                    let ex = exits.take(e as int + 1);
                    assert(ex.drop_last() =~= exits.take(e as int));
                    assert(ex.last() == exits[e as int]);
                    assert forall|i: int| 0 <= i < s.world.rooms.len() implies
                        s.opens_via(ex, key@, i) == (s.opens_via(exits.take(e as int), key@, i)
                            || (i == t && s.world.rooms[i].locked && s.world.rooms[i].key_id == Some(key@))) by {
                        if s.opens_via(ex, key@, i) && !s.opens_via(exits.take(e as int), key@, i) {
                            let w = choose|w: int| 0 <= w < ex.len() && ex[w].1 == s.world.rooms[i].id;
                            assert(w == e);
                        }
                        if i == t && s.world.rooms[i].locked && s.world.rooms[i].key_id == Some(key@) {
                            assert(ex[e as int].1 == s.world.rooms[i].id);
                        }
                        if s.opens_via(exits.take(e as int), key@, i) {
                            let w = choose|w: int| 0 <= w < e && exits.take(e as int)[w].1 == s.world.rooms[i].id;
                            assert(ex[w].1 == s.world.rooms[i].id);
                        }
                    }
                    let earlier = exists|x: int| 0 <= x < ex.len() - 1 && ex[x].1 == tid;
                    assert(earlier == s.opens_via(exits.take(e as int), key@, t as int) || !(s.world.rooms[t as int].locked && s.world.rooms[t as int].key_id == Some(key@))) by {
                        if earlier && s.world.rooms[t as int].locked && s.world.rooms[t as int].key_id == Some(key@) {
                            let x = choose|x: int| 0 <= x < ex.len() - 1 && ex[x].1 == tid;
                            assert(exits.take(e as int)[x].1 == tid);
                        }
                        if s.opens_via(exits.take(e as int), key@, t as int) {
                            let x = choose|x: int| 0 <= x < e && exits.take(e as int)[x].1 == s.world.rooms[t as int].id;
                            assert(ex[x].1 == tid);
                        }
                    }
                    assert(keyed == (s.world.rooms[t as int].key_id == Some(key@)));
                    assert forall|i: int| 0 <= i < s.world.rooms.len() implies
                        #[trigger] state@.world.rooms[i] == s.rooms_opened_via(ex, key@)[i] by {
                        if i != t {
                            assert(state@.world.rooms[i] == before[i]);
                        }
                    }
                    assert(state@.world.rooms =~= s.rooms_opened_via(ex, key@));
                    assert(texts(names@) =~= s.opened_names(ex, key@));
                }
            },
            None => {
                proof {
                    let w = choose|w: int| 0 <= w < s.world.rooms.len() && s.world.rooms[w].id == tid;
                    assert(state@.world.rooms[w].id == tid);
                }
            },
        }
        e = e + 1;
    }
    proof {
        assert(exits.take(n as int) =~= exits);
        lemma_graph_kept(s.world, state@.world);
        lemma_stock_same_items(s.world.rooms, state@.world.rooms);
        assert(state@.placement() == s.placement());
    }
    if names.len() == 0 {
        proof {
            assert(state@.world.rooms =~= s.world.rooms);
            assert(state@ == s);
        }
        UseOutcome::NoEffect
    } else {
        proof {
            assert(state@ == s.after_use(key@));
        }
        UseOutcome::Unlocked(names)
    }
}

/// Moves the player through the exit labelled `dir`, unless there is none or
/// the room behind it is locked.
pub fn move_player(state: &mut GameState, dir: &str) -> (r: MoveOutcome)
    requires
        old(state).wf(),
    ensures
        final(state).wf(),
        ({
            let s = old(state)@;
            let room = s.current_room();
            match r {
                MoveOutcome::NoExit => !room.has_exit(dir@) && final(state)@ == s,
                MoveOutcome::Locked => exists|e: int|
                    room.is_exit_index(dir@, e) && s.world.rooms[s.world.room_index(
                        room.exits[e].1,
                    )].locked && final(state)@ == s,
                MoveOutcome::Moved => exists|e: int|
                    room.is_exit_index(dir@, e) && !s.world.rooms[s.world.room_index(
                        room.exits[e].1,
                    )].locked && final(state)@ == s.moved_to(room.exits[e].1),
            }
        }),
{
    let ci = state.current_index();
    let ghost s = state@;
    let n = state.world.rooms[ci].exits.len();
    let mut e: usize = 0;
    while e < n
        invariant
            state@ == s,
            old(state)@ == s,
            s.wf(),
            ci == s.current_index(),
            s.world.is_room_index(s.current_room_id, ci as int),
            ci < state.world.rooms@.len(),
            n == s.current_room().exits.len(),
            e <= n,
            forall|j: int| 0 <= j < e ==> s.current_room().exits[j].0 != dir@,
        decreases n - e,
    {
        if text_eq(state.world.rooms[ci].exits[e].direction.as_str(), dir) {
            let target = state.world.rooms[ci].exits[e].target.clone();
            proof {
                assert(s.current_room().exits[e as int] == state.world.rooms@[ci as int].exits@[e as int]@);
                assert(s.world.rooms[ci as int] == state.world.rooms@[ci as int]@);
                let rv = s.world.rooms[ci as int];
                assert(rv.exits[e as int].1 == target@);
                assert(s.world.has_room(rv.exits[e as int].1));
            }
            match state.world.find_room(target.as_str()) {
                Some(t) => {
                    proof {
                        lemma_room_index_unique(s.world, target@, t as int);
                        assert(s.world.rooms[t as int] == state.world.rooms@[t as int]@);
                        assert(s.current_room().is_exit_index(dir@, e as int));
                        assert(s.world.room_index(s.current_room().exits[e as int].1) == t);
                    }
                    if state.world.rooms[t].locked {
                        return MoveOutcome::Locked;
                    }
                    state.current_room_id = target;
                    proof {
                        assert(state@ == s.moved_to(target@));
                        assert(state@.placement() == s.placement());
                    }
                    return MoveOutcome::Moved;
                },
                None => {
                    return MoveOutcome::NoExit;
                },
            }
        }
        e = e + 1;
    }
    MoveOutcome::NoExit
}

} // verus!
