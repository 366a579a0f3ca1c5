//! The world: rooms joined by exits, and the catalog of items placed in them.
use vstd::multiset::Multiset;
use vstd::prelude::*;

use crate::text::text_eq;

verus! {

broadcast use vstd::seq_lib::group_to_multiset_ensures;

/// A portable thing the player can find and carry.
pub struct Item {
    pub id: String,
    pub name: String,
    pub description: String,
}

/// A labelled passage from one room to another.
pub struct Exit {
    pub direction: String,
    pub target: String,
}

/// A node of the world graph.
pub struct Room {
    pub id: String,
    pub name: String,
    pub description: String,
    /// Ids of the items lying in the room, in display order.
    pub items: Vec<String>,
    /// Exits, each direction at most once.
    pub exits: Vec<Exit>,
    pub locked: bool,
    /// The item that unlocks this room, if any.
    pub key_id: Option<String>,
}

/// The whole world as loaded.
pub struct World {
    pub starting_room: String,
    pub rooms: Vec<Room>,
    pub items: Vec<Item>,
}

pub struct ItemView {
    pub id: Seq<char>,
    pub name: Seq<char>,
    pub description: Seq<char>,
}

pub struct RoomView {
    pub id: Seq<char>,
    pub name: Seq<char>,
    pub description: Seq<char>,
    pub items: Seq<Seq<char>>,
    /// Pairs of direction and target room id.
    pub exits: Seq<(Seq<char>, Seq<char>)>,
    pub locked: bool,
    pub key_id: Option<Seq<char>>,
}

pub struct WorldView {
    pub starting_room: Seq<char>,
    pub rooms: Seq<RoomView>,
    pub items: Seq<ItemView>,
}

/// The texts of a sequence of strings.
pub open spec fn texts(v: Seq<String>) -> Seq<Seq<char>> {
    v.map_values(|s: String| s@)
}

impl View for Item {
    type V = ItemView;

    open spec fn view(&self) -> ItemView {
        ItemView { id: self.id@, name: self.name@, description: self.description@ }
    }
}

impl View for Exit {
    type V = (Seq<char>, Seq<char>);

    open spec fn view(&self) -> (Seq<char>, Seq<char>) {
        (self.direction@, self.target@)
    }
}

impl View for Room {
    type V = RoomView;

    open spec fn view(&self) -> RoomView {
        RoomView {
            id: self.id@,
            name: self.name@,
            description: self.description@,
            items: texts(self.items@),
            exits: self.exits@.map_values(|e: Exit| e@),
            locked: self.locked,
            key_id: match &self.key_id {
                Some(k) => Some(k@),
                None => None,
            },
        }
    }
}

impl View for World {
    type V = WorldView;

    open spec fn view(&self) -> WorldView {
        WorldView {
            starting_room: self.starting_room@,
            rooms: self.rooms@.map_values(|r: Room| r@),
            items: self.items@.map_values(|i: Item| i@),
        }
    }
}

/// All item ids lying in the given rooms, counted with multiplicity.
pub open spec fn stock(rooms: Seq<RoomView>) -> Multiset<Seq<char>>
    decreases rooms.len(),
{
    if rooms.len() == 0 {
        Multiset::empty()
    } else {
        stock(rooms.drop_last()).add(rooms.last().items.to_multiset())
    }
}

impl RoomView {
    /// Index `e` is the first exit of this room towards `dir`.
    pub open spec fn is_exit_index(self, dir: Seq<char>, e: int) -> bool {
        &&& 0 <= e < self.exits.len()
        &&& self.exits[e].0 == dir
        &&& forall|j: int| 0 <= j < e ==> self.exits[j].0 != dir
    }

    pub open spec fn has_exit(self, dir: Seq<char>) -> bool {
        exists|e: int| 0 <= e < self.exits.len() && self.exits[e].0 == dir
    }

    pub open spec fn exit_directions_unique(self) -> bool {
        forall|a: int, b: int|
            0 <= a < self.exits.len() && 0 <= b < self.exits.len() && self.exits[a].0
                == self.exits[b].0 ==> a == b
    }
}

impl WorldView {
    /// Index `i` is the first room whose id is `id`.
    pub open spec fn is_room_index(self, id: Seq<char>, i: int) -> bool {
        &&& 0 <= i < self.rooms.len()
        &&& self.rooms[i].id == id
        &&& forall|j: int| 0 <= j < i ==> self.rooms[j].id != id
    }

    /// Index `i` is the first catalog item whose id is `id`.
    pub open spec fn is_item_index(self, id: Seq<char>, i: int) -> bool {
        &&& 0 <= i < self.items.len()
        &&& self.items[i].id == id
        &&& forall|j: int| 0 <= j < i ==> self.items[j].id != id
    }

    pub open spec fn has_room(self, id: Seq<char>) -> bool {
        exists|i: int| 0 <= i < self.rooms.len() && self.rooms[i].id == id
    }

    pub open spec fn has_item(self, id: Seq<char>) -> bool {
        exists|i: int| 0 <= i < self.items.len() && self.items[i].id == id
    }

    /// The position of the room with the given id (meaningful when it exists).
    pub open spec fn room_index(self, id: Seq<char>) -> int {
        choose|i: int| self.is_room_index(id, i)
    }

    /// The position of the item with the given id (meaningful when it exists).
    pub open spec fn item_index(self, id: Seq<char>) -> int {
        choose|i: int| self.is_item_index(id, i)
    }

    pub open spec fn room_ids_unique(self) -> bool {
        forall|a: int, b: int|
            0 <= a < self.rooms.len() && 0 <= b < self.rooms.len() && self.rooms[a].id
                == self.rooms[b].id ==> a == b
    }

    pub open spec fn item_ids(self) -> Seq<Seq<char>> {
        self.items.map_values(|i: ItemView| i.id)
    }

    pub open spec fn item_ids_unique(self) -> bool {
        forall|a: int, b: int|
            0 <= a < self.items.len() && 0 <= b < self.items.len() && self.items[a].id
                == self.items[b].id ==> a == b
    }

    /// Every room lists each direction once, towards a room that exists.
    pub open spec fn exits_resolve(self) -> bool {
        forall|r: int|
            0 <= r < self.rooms.len() ==> {
                &&& (#[trigger] self.rooms[r]).exit_directions_unique()
                &&& forall|e: int|
                    0 <= e < self.rooms[r].exits.len() ==> self.has_room(
                        #[trigger] self.rooms[r].exits[e].1,
                    )
            }
    }

    /// The graph is consistent: ids are unique and every reference to a room resolves.
    pub open spec fn graph_ok(self) -> bool {
        &&& self.room_ids_unique()
        &&& self.item_ids_unique()
        &&& self.has_room(self.starting_room)
        &&& self.exits_resolve()
    }

    /// A world ready to play: a consistent graph in which every catalog item
    /// lies in exactly one room slot and nothing else lies anywhere.
    pub open spec fn wf(self) -> bool {
        &&& self.graph_ok()
        &&& stock(self.rooms) == self.item_ids().to_multiset()
    }
}

/// A defect of a loaded world that makes it unplayable.
pub enum WorldError {
    /// This room has the id of an earlier room.
    DuplicateRoom { index: usize },
    /// This catalog item has the id of an earlier one.
    DuplicateItem { index: usize },
    /// No room has the starting room's id.
    MissingStartingRoom,
    /// This exit repeats the direction of an earlier exit of the same room.
    DuplicateExit { room: usize, exit: usize },
    /// This exit leads to a room id that no room has.
    DanglingExit { room: usize, exit: usize },
    /// The item id in this slot is not in the catalog, or was already placed
    /// in an earlier slot.
    MisplacedItem { room: usize, slot: usize },
    /// This catalog item lies in no room.
    UnplacedItem { item: usize },
}

/// The ids placed before slot `slot` of room `room`, rooms taken in order.
pub open spec fn placed_before(rooms: Seq<RoomView>, room: int, slot: int) -> Multiset<Seq<char>> {
    stock(rooms.take(room)).add(rooms[room].items.take(slot).to_multiset())
}

impl WorldError {
    /// The defect this error names is present in the world.
    pub open spec fn holds_in(self, w: WorldView) -> bool {
        match self {
            WorldError::DuplicateRoom { index } => index < w.rooms.len() && exists|j: int|
                0 <= j < index && w.rooms[j].id == w.rooms[index as int].id,
            WorldError::DuplicateItem { index } => index < w.items.len() && exists|j: int|
                0 <= j < index && w.items[j].id == w.items[index as int].id,
            WorldError::MissingStartingRoom => !w.has_room(w.starting_room),
            WorldError::DuplicateExit { room, exit } => room < w.rooms.len() && exit
                < w.rooms[room as int].exits.len() && exists|j: int|
                0 <= j < exit && w.rooms[room as int].exits[j].0 == w.rooms[room as int].exits[exit as int].0,
            WorldError::DanglingExit { room, exit } => room < w.rooms.len() && exit
                < w.rooms[room as int].exits.len() && !w.has_room(
                w.rooms[room as int].exits[exit as int].1,
            ),
            WorldError::MisplacedItem { room, slot } => room < w.rooms.len() && slot
                < w.rooms[room as int].items.len() && ({
                let id = w.rooms[room as int].items[slot as int];
                !w.has_item(id) || placed_before(w.rooms, room as int, slot as int).count(id) > 0
            }),
            WorldError::UnplacedItem { item } => item < w.items.len() && stock(w.rooms).count(
                w.items[item as int].id,
            ) == 0,
        }
    }
}

/// Stock is additive over concatenation of room lists.
pub proof fn lemma_stock_concat(a: Seq<RoomView>, b: Seq<RoomView>)
    ensures
        stock(a + b) == stock(a).add(stock(b)),
    decreases b.len(),
{
    if b.len() == 0 {
        assert(a + b =~= a);
        assert(stock(a).add(stock(b)) =~= stock(a));
    } else {
        lemma_stock_concat(a, b.drop_last());
        assert((a + b).drop_last() =~= a + b.drop_last());
        assert((a + b).last() == b.last());
        let x = b.last().items.to_multiset();
        assert(stock(a).add(stock(b.drop_last())).add(x) =~= stock(a).add(stock(b.drop_last()).add(x)));
    }
}

/// What lies up to and including a slot lies in the world.
pub proof fn lemma_placed_within(rooms: Seq<RoomView>, room: int, slot: int, id: Seq<char>)
    requires
        0 <= room < rooms.len(),
        0 <= slot < rooms[room].items.len(),
    ensures
        placed_before(rooms, room, slot).insert(rooms[room].items[slot]).count(id) <= stock(
            rooms,
        ).count(id),
{
    broadcast use vstd::seq_lib::group_to_multiset_ensures;

    let items = rooms[room].items;
    lemma_stock_concat(rooms.take(room), rooms.skip(room));
    assert(rooms.take(room) + rooms.skip(room) =~= rooms);
    let rest = rooms.skip(room);
    lemma_stock_concat(seq![rooms[room]], rest.drop_first());
    assert(seq![rooms[room]] + rest.drop_first() =~= rest);
    assert(seq![rooms[room]].drop_last() =~= Seq::<RoomView>::empty());
    assert(stock(seq![rooms[room]]) == stock(Seq::<RoomView>::empty()).add(items.to_multiset()));
    assert(stock(seq![rooms[room]]) =~= items.to_multiset());
    vstd::seq_lib::lemma_multiset_commutative(items.take(slot + 1), items.skip(slot + 1));
    assert(items.take(slot + 1) + items.skip(slot + 1) =~= items);
    assert(items.take(slot + 1) =~= items.take(slot).push(items[slot]));
}

/// With unique ids, the catalog holds each id once and nothing else.
pub proof fn lemma_catalog_counts(w: WorldView, id: Seq<char>)
    requires
        w.item_ids_unique(),
    ensures
        w.has_item(id) ==> w.item_ids().to_multiset().count(id) == 1,
        !w.has_item(id) ==> w.item_ids().to_multiset().count(id) == 0,
{
    broadcast use vstd::seq_lib::group_to_multiset_ensures;

    let ids = w.item_ids();
    assert(ids.no_duplicates()) by {
        assert forall|a: int, b: int| 0 <= a < ids.len() && 0 <= b < ids.len() && a != b implies ids[a]
            != ids[b] by {
            assert(w.items[a].id == ids[a]);
            assert(w.items[b].id == ids[b]);
        }
    }
    ids.lemma_multiset_has_no_duplicates();
    if w.has_item(id) {
        let i = choose|i: int| 0 <= i < w.items.len() && w.items[i].id == id;
        assert(ids[i] == id);
        assert(ids.contains(id));
    } else {
        assert(!ids.contains(id));
    }
}

/// The ids of the catalog items at the given positions.
pub open spec fn ids_at(w: WorldView, idx: Seq<usize>) -> Seq<Seq<char>> {
    idx.map_values(|k: usize| w.items[k as int].id)
}

/// The first position whose text repeats an earlier one.
fn repeat_index(ids: &Vec<&str>) -> (r: Option<usize>)
    ensures
        match r {
            Some(i) => i < ids@.len() && exists|j: int| 0 <= j < i && ids@[j]@ == ids@[i as int]@,
            None => forall|a: int, b: int|
                0 <= a < ids@.len() && 0 <= b < ids@.len() && ids@[a]@ == ids@[b]@ ==> a == b,
        },
{
    let mut i: usize = 0;
    while i < ids.len()
        invariant
            i <= ids@.len(),
            forall|a: int, b: int| 0 <= a < i && 0 <= b < i && ids@[a]@ == ids@[b]@ ==> a == b,
        decreases ids@.len() - i,
    {
        let mut j: usize = 0;
        while j < i
            invariant
                i < ids@.len(),
                j <= i,
                forall|b: int| 0 <= b < j ==> ids@[b]@ != ids@[i as int]@,
            decreases i - j,
        {
            if text_eq(ids[j], ids[i]) {
                return Some(i);
            }
            j = j + 1;
        }
        i = i + 1;
    }
    None
}

impl World {
    /// Position in `remaining` of the catalog index whose item has this id.
    fn position_of(&self, remaining: &Vec<usize>, id: &str) -> (r: Option<usize>)
        requires
            forall|k: int| 0 <= k < remaining@.len() ==> remaining@[k] < self.items@.len(),
        ensures
            match r {
                Some(p) => p < remaining@.len() && ids_at(self@, remaining@)[p as int] == id@,
                None => !ids_at(self@, remaining@).contains(id@),
            },
    {
        let mut p: usize = 0;
        while p < remaining.len()
            invariant
                p <= remaining@.len(),
                forall|k: int| 0 <= k < remaining@.len() ==> remaining@[k] < self.items@.len(),
                forall|q: int| 0 <= q < p ==> ids_at(self@, remaining@)[q] != id@,
            decreases remaining@.len() - p,
        {
            if text_eq(self.items[remaining[p]].id.as_str(), id) {
                return Some(p);
            }
            p = p + 1;
        }
        None
    }

    /// Checks that each catalog item lies in exactly one room slot and that
    /// every slot holds a catalog item.
    fn check_placement(&self) -> (r: Result<(), WorldError>)
        requires
            self@.item_ids_unique(),
        ensures
            r is Ok <==> stock(self@.rooms) == self@.item_ids().to_multiset(),
            r matches Err(e) ==> e.holds_in(self@),
    {
        let ghost w = self@;
        let ghost cat = w.item_ids().to_multiset();
        let mut remaining: Vec<usize> = Vec::new();
        let mut i: usize = 0;
        while i < self.items.len()
            invariant
                i <= self.items@.len(),
                remaining@.len() == i,
                forall|k: int| 0 <= k < i ==> remaining@[k] == k,
            decreases self.items@.len() - i,
        {
            remaining.push(i);
            i = i + 1;
        }
        proof {
            assert(ids_at(w, remaining@) =~= w.item_ids());
            assert(w.rooms.take(0) =~= Seq::<RoomView>::empty());
            assert(stock(w.rooms.take(0)).add(cat) =~= cat);
        }
        let mut r: usize = 0;
        while r < self.rooms.len()
            invariant
                w == self@,
                cat == w.item_ids().to_multiset(),
                w.item_ids_unique(),
                r <= self.rooms@.len(),
                forall|k: int| 0 <= k < remaining@.len() ==> remaining@[k] < self.items@.len(),
                stock(w.rooms.take(r as int)).add(ids_at(w, remaining@).to_multiset()) == cat,
            decreases self.rooms@.len() - r,
        {
            let n = self.rooms[r].items.len();
            let ghost items = w.rooms[r as int].items;
            proof {
                assert(items.take(0) =~= Seq::<Seq<char>>::empty());
                assert(items.take(0).to_multiset() =~= Multiset::empty());
                assert(placed_before(w.rooms, r as int, 0) =~= stock(w.rooms.take(r as int)));
            }
            let mut slot: usize = 0;
            while slot < n
                invariant
                    w == self@,
                    cat == w.item_ids().to_multiset(),
                    w.item_ids_unique(),
                    r < self.rooms@.len(),
                    items == w.rooms[r as int].items,
                    n == items.len(),
                    slot <= n,
                    forall|k: int| 0 <= k < remaining@.len() ==> remaining@[k] < self.items@.len(),
                    placed_before(w.rooms, r as int, slot as int).add(
                        ids_at(w, remaining@).to_multiset(),
                    ) == cat,
                decreases n - slot,
            {
                let id = self.rooms[r].items[slot].as_str();
                proof {
                    assert(id@ == items[slot as int]);
                }
                match self.position_of(&remaining, id) {
                    Some(p) => {
                        let ghost before = remaining@;
                        remaining.remove(p);
                        proof {
                            assert(ids_at(w, remaining@) =~= ids_at(w, before).remove(p as int));
                            assert(items.take(slot as int + 1) =~= items.take(slot as int).push(id@));
                            let pb = placed_before(w.rooms, r as int, slot as int);
                            let rb = ids_at(w, before).to_multiset();
                            let ra = ids_at(w, remaining@).to_multiset();
                            assert(ids_at(w, before)[p as int] == id@);
                            assert(ids_at(w, before).remove(p as int).to_multiset() =~= rb.remove(id@));
                            assert(ra == rb.remove(id@));
                            assert(items.take(slot as int).push(id@).to_multiset() =~= items.take(slot as int).to_multiset().insert(id@));
                            assert(placed_before(w.rooms, r as int, slot as int + 1) =~= pb.insert(id@));
                            assert(pb.insert(id@).add(ra) =~= pb.add(rb));
                        }
                        slot = slot + 1;
                    },
                    None => {
                        proof {
                            let pb = placed_before(w.rooms, r as int, slot as int);
                            let rm = ids_at(w, remaining@).to_multiset();
                            assert(rm.count(id@) == 0);
                            assert(pb.add(rm).count(id@) == cat.count(id@));
                            lemma_catalog_counts(w, id@);
                            lemma_placed_within(w.rooms, r as int, slot as int, id@);
                        }
                        return Err(WorldError::MisplacedItem { room: r, slot });
                    },
                }
            }
            proof {
                let t = w.rooms.take(r as int + 1);
                assert(t.drop_last() =~= w.rooms.take(r as int));
                assert(t.last() == w.rooms[r as int]);
                assert(items.take(n as int) =~= items);
                assert(placed_before(w.rooms, r as int, n as int) == stock(t));
            }
            r = r + 1;
        }
        proof {
            assert(w.rooms.take(self.rooms@.len() as int) =~= w.rooms);
        }
        if remaining.len() > 0 {
            let k = remaining[0];
            proof {
                let id = w.items[k as int].id;
                let rm = ids_at(w, remaining@).to_multiset();
                assert(ids_at(w, remaining@)[0] == id);
                assert(rm.count(id) > 0);
                assert(w.has_item(id));
                lemma_catalog_counts(w, id);
                assert(stock(w.rooms).add(rm).count(id) == cat.count(id));
            }
            return Err(WorldError::UnplacedItem { item: k });
        }
        proof {
            assert(ids_at(w, remaining@).to_multiset() =~= Multiset::empty());
            assert(stock(w.rooms).add(Multiset::empty()) =~= stock(w.rooms));
        }
        Ok(())
    }

    /// Checks a loaded world: unique room and item ids, a starting room that
    /// exists, exits with distinct directions towards existing rooms, and
    /// every catalog item lying in exactly one room slot.
    pub fn validate(&self) -> (r: Result<(), WorldError>)
        ensures
            r is Ok <==> self@.wf(),
            r matches Err(e) ==> e.holds_in(self@),
    {
        let ghost w = self@;
        let mut room_ids: Vec<&str> = Vec::new();
        let mut i: usize = 0;
        while i < self.rooms.len()
            invariant
                w == self@,
                i <= self.rooms@.len(),
                room_ids@.len() == i,
                forall|k: int| 0 <= k < i ==> room_ids@[k]@ == w.rooms[k].id,
            decreases self.rooms@.len() - i,
        {
            room_ids.push(self.rooms[i].id.as_str());
            i = i + 1;
        }
        if let Some(index) = repeat_index(&room_ids) {
            return Err(WorldError::DuplicateRoom { index });
        }
        let mut item_ids: Vec<&str> = Vec::new();
        let mut i: usize = 0;
        while i < self.items.len()
            invariant
                w == self@,
                i <= self.items@.len(),
                item_ids@.len() == i,
                forall|k: int| 0 <= k < i ==> item_ids@[k]@ == w.items[k].id,
            decreases self.items@.len() - i,
        {
            item_ids.push(self.items[i].id.as_str());
            i = i + 1;
        }
        if let Some(index) = repeat_index(&item_ids) {
            return Err(WorldError::DuplicateItem { index });
        }
        if self.find_room(self.starting_room.as_str()).is_none() {
            return Err(WorldError::MissingStartingRoom);
        }
        let mut r: usize = 0;
        while r < self.rooms.len()
            invariant
                w == self@,
                r <= self.rooms@.len(),
                forall|q: int|
                    0 <= q < r ==> {
                        &&& (#[trigger] w.rooms[q]).exit_directions_unique()
                        &&& forall|e: int|
                            0 <= e < w.rooms[q].exits.len() ==> w.has_room(
                                #[trigger] w.rooms[q].exits[e].1,
                            )
                    },
            decreases self.rooms@.len() - r,
        {
            let exits = &self.rooms[r].exits;
            let ghost rv = w.rooms[r as int];
            let mut e: usize = 0;
            while e < exits.len()
                invariant
                    w == self@,
                    r < self.rooms@.len(),
                    rv == w.rooms[r as int],
                    rv.exits == exits@.map_values(|x: Exit| x@),
                    e <= exits@.len(),
                    forall|a: int, b: int|
                        0 <= a < e && 0 <= b < e && rv.exits[a].0 == rv.exits[b].0 ==> a == b,
                    forall|x: int| 0 <= x < e ==> w.has_room(#[trigger] rv.exits[x].1),
                decreases exits@.len() - e,
            {
                let mut x: usize = 0;
                while x < e
                    invariant
                        w == self@,
                        r < self.rooms@.len(),
                        rv == w.rooms[r as int],
                        rv.exits == exits@.map_values(|x: Exit| x@),
                        e < exits@.len(),
                        x <= e,
                        forall|y: int| 0 <= y < x ==> rv.exits[y].0 != rv.exits[e as int].0,
                    decreases e - x,
                {
                    if text_eq(exits[x].direction.as_str(), exits[e].direction.as_str()) {
                        proof {
                            assert(rv.exits[x as int] == exits@[x as int]@);
                            assert(rv.exits[e as int] == exits@[e as int]@);
                            assert(!w.rooms[r as int].exit_directions_unique());
                        }
                        return Err(WorldError::DuplicateExit { room: r, exit: e });
                    }
                    x = x + 1;
                }
                if self.find_room(exits[e].target.as_str()).is_none() {
                    proof {
                        assert(rv.exits[e as int] == exits@[e as int]@);
                        assert(!w.has_room(w.rooms[r as int].exits[e as int].1));
                    }
                    return Err(WorldError::DanglingExit { room: r, exit: e });
                }
                e = e + 1;
            }
            r = r + 1;
        }
        self.check_placement()
    }

    /// Position of the first room with the given id.
    pub fn find_room(&self, id: &str) -> (r: Option<usize>)
        ensures
            match r {
                Some(i) => self@.is_room_index(id@, i as int),
                None => !self@.has_room(id@),
            },
    {
        let mut i: usize = 0;
        while i < self.rooms.len()
            invariant
                i <= self.rooms@.len(),
                forall|j: int| 0 <= j < i ==> self@.rooms[j].id != id@,
            decreases self.rooms@.len() - i,
        {
            if text_eq(self.rooms[i].id.as_str(), id) {
                return Some(i);
            }
            i = i + 1;
        }
        None
    }

    /// Position of the first catalog item with the given id.
    pub fn find_item(&self, id: &str) -> (r: Option<usize>)
        ensures
            match r {
                Some(i) => self@.is_item_index(id@, i as int),
                None => !self@.has_item(id@),
            },
    {
        let mut i: usize = 0;
        while i < self.items.len()
            invariant
                i <= self.items@.len(),
                forall|j: int| 0 <= j < i ==> self@.items[j].id != id@,
            decreases self.items@.len() - i,
        {
            if text_eq(self.items[i].id.as_str(), id) {
                return Some(i);
            }
            i = i + 1;
        }
        None
    }

    /// The first room with the given id.
    pub fn get_room(&self, id: &str) -> (r: Option<&Room>)
        ensures
            match r {
                Some(room) => exists|i: int|
                    self@.is_room_index(id@, i) && *room == self.rooms@[i],
                None => !self@.has_room(id@),
            },
    {
        match self.find_room(id) {
            Some(i) => Some(&self.rooms[i]),
            None => None,
        }
    }

    /// The first catalog item with the given id.
    pub fn get_item(&self, id: &str) -> (r: Option<&Item>)
        ensures
            match r {
                Some(item) => exists|i: int|
                    self@.is_item_index(id@, i) && *item == self.items@[i],
                None => !self@.has_item(id@),
            },
    {
        match self.find_item(id) {
            Some(i) => Some(&self.items[i]),
            None => None,
        }
    }
}

} // verus!
