//! The table of connected clients: who is connected, which room each one is
//! in, and the colour each one chats in. It behaves as a map from client id to
//! client, and lists its clients in the order they joined.

use crate::text::{decimal, room_label};
use crate::trusted::{fresh_simple_uuid, is_lower_hex, string_views};
use vstd::prelude::*;

verus! {

/// A connected client: its id, the channel its messages go out on, the room
/// it is in and its chat colour.
pub struct Client<S> {
    pub client_id: String,
    pub sender: S,
    pub current_room: i32,
    pub color: (u8, u8, u8),
}

/// What the table knows of a client, apart from its channel.
pub struct ClientState {
    pub id: Seq<char>,
    pub room: i32,
    pub color: (u8, u8, u8),
}

impl<S> Client<S> {
    /// The client without its channel.
    pub open spec fn state(&self) -> ClientState {
        ClientState { id: self.client_id@, room: self.current_room, color: self.color }
    }
}

/// The connected clients.
pub struct Registry<S> {
    clients: Vec<Client<S>>,
}

impl<S> View for Registry<S> {
    type V = Seq<ClientState>;

    closed spec fn view(&self) -> Seq<ClientState> {
        self.clients@.map_values(|c: Client<S>| c.state())
    }
}

/// No two clients share an id.
pub open spec fn distinct_ids(s: Seq<ClientState>) -> bool {
    forall|i: int, j: int| 0 <= i < s.len() && 0 <= j < s.len() && i != j ==> s[i].id != s[j].id
}

/// Where the client `id` stands in the table, if it is there.
pub open spec fn index_of(s: Seq<ClientState>, id: Seq<char>) -> Option<int> {
    if exists|i: int| 0 <= i < s.len() && s[i].id == id {
        Some(choose|i: int| 0 <= i < s.len() && s[i].id == id)
    } else {
        None
    }
}

/// The client `id`, if it is in the table.
pub open spec fn entry(s: Seq<ClientState>, id: Seq<char>) -> Option<ClientState> {
    match index_of(s, id) {
        Some(i) => Some(s[i]),
        None => None,
    }
}

/// The table after `c` is put in it: a client of the same id is replaced in
/// its place, else `c` comes last.
pub open spec fn inserted(s: Seq<ClientState>, c: ClientState) -> Seq<ClientState> {
    match index_of(s, c.id) {
        Some(i) => s.update(i, c),
        None => s.push(c),
    }
}

/// The table after the client `id` leaves it.
pub open spec fn removed(s: Seq<ClientState>, id: Seq<char>) -> Seq<ClientState> {
    match index_of(s, id) {
        Some(i) => s.remove(i),
        None => s,
    }
}

/// The table after the client `id` moves into `room`.
pub open spec fn with_room(s: Seq<ClientState>, id: Seq<char>, room: i32) -> Seq<ClientState> {
    match index_of(s, id) {
        Some(i) => s.update(i, ClientState { room: room, ..s[i] }),
        None => s,
    }
}

/// The table after the client `id` takes the colour `color`.
pub open spec fn with_color(s: Seq<ClientState>, id: Seq<char>, color: (u8, u8, u8)) -> Seq<
    ClientState,
> {
    match index_of(s, id) {
        Some(i) => s.update(i, ClientState { color: color, ..s[i] }),
        None => s,
    }
}

/// The ids of the clients other than `sender` whose room, written in decimal,
/// is the text `label`, in table order.
pub open spec fn room_peers(s: Seq<ClientState>, sender: Seq<char>, label: Seq<char>) -> Seq<
    Seq<char>,
>
    decreases s.len(),
{
    if s.len() == 0 {
        Seq::<Seq<char>>::empty()
    } else {
        let prev = room_peers(s.drop_last(), sender, label);
        if s.last().id != sender && decimal(s.last().room as int) == label {
            prev.push(s.last().id)
        } else {
            prev
        }
    }
}

/// The ids of all clients other than `sender`, in table order.
pub open spec fn others(s: Seq<ClientState>, sender: Seq<char>) -> Seq<Seq<char>>
    decreases s.len(),
{
    if s.len() == 0 {
        Seq::<Seq<char>>::empty()
    } else {
        let prev = others(s.drop_last(), sender);
        if s.last().id != sender {
            prev.push(s.last().id)
        } else {
            prev
        }
    }
}

/// A client found at `i` is the one `index_of` finds.
pub proof fn lemma_index_of_at(s: Seq<ClientState>, id: Seq<char>, i: int)
    requires
        distinct_ids(s),
        0 <= i < s.len(),
        s[i].id == id,
    ensures
        index_of(s, id) == Some(i),
{
    let j = choose|j: int| 0 <= j < s.len() && s[j].id == id;
    assert(0 <= j < s.len() && s[j].id == id);
}

/// `index_of` finds a client with the id asked for.
pub proof fn lemma_index_of_found(s: Seq<ClientState>, id: Seq<char>)
    ensures
        index_of(s, id) matches Some(i) ==> 0 <= i < s.len() && s[i].id == id,
        index_of(s, id) is None ==> forall|i: int| 0 <= i < s.len() ==> s[i].id != id,
{
}

/// Changing the client at `i` into one of the same id keeps ids distinct.
proof fn lemma_update_same_id_distinct(s: Seq<ClientState>, i: int, c: ClientState)
    requires
        distinct_ids(s),
        0 <= i < s.len(),
        s[i].id == c.id,
    ensures
        distinct_ids(s.update(i, c)),
{
}

/// Law: the table reads like a map; after a client is put in, looking it up
/// gives that client, and every other id reads as before.
pub proof fn lemma_entry_inserted(s: Seq<ClientState>, c: ClientState, id: Seq<char>)
    requires
        distinct_ids(s),
    ensures
        distinct_ids(inserted(s, c)),
        entry(inserted(s, c), id) == (if id == c.id {
            Some(c)
        } else {
            entry(s, id)
        }),
{
    lemma_index_of_found(s, c.id);
    let t = inserted(s, c);
    match index_of(s, c.id) {
        Some(i) => {
            lemma_update_same_id_distinct(s, i, c);
            lemma_index_of_at(t, c.id, i);
            lemma_index_of_found(s, id);
            if id != c.id {
                match index_of(s, id) {
                    Some(k) => {
                        lemma_index_of_at(t, id, k);
                    },
                    None => {
                        lemma_index_of_found(t, id);
                    },
                }
            }
        },
        None => {
            assert(distinct_ids(t));
            lemma_index_of_at(t, c.id, s.len() as int);
            lemma_index_of_found(s, id);
            if id != c.id {
                match index_of(s, id) {
                    Some(k) => {
                        lemma_index_of_at(t, id, k);
                    },
                    None => {
                        lemma_index_of_found(t, id);
                    },
                }
            }
        },
    }
}

/// Law: after a client leaves, looking it up finds nothing, and every other
/// id reads as before.
pub proof fn lemma_entry_removed(s: Seq<ClientState>, gone: Seq<char>, id: Seq<char>)
    requires
        distinct_ids(s),
    ensures
        distinct_ids(removed(s, gone)),
        entry(removed(s, gone), id) == (if id == gone {
            None
        } else {
            entry(s, id)
        }),
{
    lemma_index_of_found(s, gone);
    lemma_index_of_found(s, id);
    let t = removed(s, gone);
    match index_of(s, gone) {
        Some(i) => {
            assert forall|a: int, b: int|
                0 <= a < t.len() && 0 <= b < t.len() && a != b implies t[a].id != t[b].id by {
                let a2 = if a < i { a } else { a + 1 };
                let b2 = if b < i { b } else { b + 1 };
                assert(t[a] == s[a2]);
                assert(t[b] == s[b2]);
            }
            if id == gone {
                assert forall|k: int| 0 <= k < t.len() implies t[k].id != id by {
                    let k2 = if k < i { k } else { k + 1 };
                    assert(t[k] == s[k2]);
                }
                lemma_index_of_found(t, id);
            } else {
                match index_of(s, id) {
                    Some(k) => {
                        let k2 = if k < i { k } else { k - 1 };
                        assert(k != i);
                        assert(t[k2] == s[k]);
                        lemma_index_of_at(t, id, k2);
                    },
                    None => {
                        assert forall|k: int| 0 <= k < t.len() implies t[k].id != id by {
                            let k2 = if k < i { k } else { k + 1 };
                            assert(t[k] == s[k2]);
                        }
                        lemma_index_of_found(t, id);
                    },
                }
            }
        },
        None => {},
    }
}

/// Law: after a client moves into a room, it reads as in that room with
/// everything else kept, and every other id reads as before.
pub proof fn lemma_entry_with_room(s: Seq<ClientState>, mover: Seq<char>, room: i32, id: Seq<char>)
    requires
        distinct_ids(s),
    ensures
        distinct_ids(with_room(s, mover, room)),
        entry(with_room(s, mover, room), id) == (if id == mover {
            match entry(s, id) {
                Some(c) => Some(ClientState { room: room, ..c }),
                None => None,
            }
        } else {
            entry(s, id)
        }),
{
    lemma_index_of_found(s, mover);
    lemma_index_of_found(s, id);
    let t = with_room(s, mover, room);
    match index_of(s, mover) {
        Some(i) => {
            lemma_update_same_id_distinct(s, i, ClientState { room: room, ..s[i] });
            if id == mover {
                lemma_index_of_at(t, id, i);
            } else {
                match index_of(s, id) {
                    Some(k) => {
                        lemma_index_of_at(t, id, k);
                    },
                    None => {
                        lemma_index_of_found(t, id);
                    },
                }
            }
        },
        None => {},
    }
}

/// What the table holds for each id after the client `id` takes a colour:
/// that client has the new colour, every other entry is as it was.
pub proof fn lemma_entry_with_color(
    s: Seq<ClientState>,
    painter: Seq<char>,
    color: (u8, u8, u8),
    id: Seq<char>,
)
    requires
        distinct_ids(s),
    ensures
        distinct_ids(with_color(s, painter, color)),
        entry(with_color(s, painter, color), id) == (if id == painter {
            match entry(s, id) {
                Some(c) => Some(ClientState { color: color, ..c }),
                None => None,
            }
        } else {
            entry(s, id)
        }),
{
    lemma_index_of_found(s, painter);
    lemma_index_of_found(s, id);
    let t = with_color(s, painter, color);
    match index_of(s, painter) {
        Some(i) => {
            lemma_update_same_id_distinct(s, i, ClientState { color: color, ..s[i] });
            if id == painter {
                lemma_index_of_at(t, id, i);
            } else {
                match index_of(s, id) {
                    Some(k) => {
                        lemma_index_of_at(t, id, k);
                    },
                    None => {
                        lemma_index_of_found(t, id);
                    },
                }
            }
        },
        None => {},
    }
}

/// Law: a client that joins under a new id and then leaves leaves the table
/// as it was.
pub proof fn lemma_remove_undoes_insert(s: Seq<ClientState>, c: ClientState)
    requires
        distinct_ids(s),
        index_of(s, c.id) is None,
    ensures
        removed(inserted(s, c), c.id) == s,
{
    let t = s.push(c);
    lemma_index_of_found(s, c.id);
    assert(distinct_ids(t));
    lemma_index_of_at(t, c.id, s.len() as int);
    assert(t.remove(s.len() as int) =~= s);
}

/// The ids that `room_peers` lists are exactly those of the clients other
/// than the sender whose room reads as the label.
proof fn lemma_room_peers_members(s: Seq<ClientState>, sender: Seq<char>, label: Seq<char>, k: Seq<char>)
    ensures
        room_peers(s, sender, label).contains(k) <==> exists|i: int|
            0 <= i < s.len() && s[i].id == k && k != sender && decimal(s[i].room as int) == label,
    decreases s.len(),
{
    if s.len() > 0 {
        let t = s.drop_last();
        lemma_room_peers_members(t, sender, label, k);
        let prev = room_peers(t, sender, label);
        if room_peers(s, sender, label).contains(k) {
            if prev.contains(k) {
                let i = choose|i: int|
                    0 <= i < t.len() && t[i].id == k && k != sender && decimal(t[i].room as int)
                        == label;
                assert(s[i] == t[i]);
            } else {
                let j = choose|j: int|
                    0 <= j < room_peers(s, sender, label).len() && room_peers(
                        s,
                        sender,
                        label,
                    )[j] == k;
                assert(j == prev.len());
                assert(s[s.len() - 1].id == k);
            }
        }
        if exists|i: int|
            0 <= i < s.len() && s[i].id == k && k != sender && decimal(s[i].room as int) == label {
            let i = choose|i: int|
                0 <= i < s.len() && s[i].id == k && k != sender && decimal(s[i].room as int)
                    == label;
            if i < s.len() - 1 {
                assert(t[i] == s[i]);
                let j = choose|j: int| 0 <= j < prev.len() && prev[j] == k;
                if s.last().id != sender && decimal(s.last().room as int) == label {
                    assert(room_peers(s, sender, label)[j] == k);
                }
            } else {
                assert(room_peers(s, sender, label) == prev.push(k));
                assert(room_peers(s, sender, label)[prev.len() as int] == k);
            }
        }
    }
}

/// Law: the clients told of a change to the room written `label` are exactly
/// the connected clients other than the sender whose room reads as `label`.
pub proof fn lemma_room_peers_are_the_room(
    s: Seq<ClientState>,
    sender: Seq<char>,
    label: Seq<char>,
    k: Seq<char>,
)
    requires
        distinct_ids(s),
    ensures
        room_peers(s, sender, label).contains(k) <==> (k != sender && match entry(s, k) {
            Some(c) => decimal(c.room as int) == label,
            None => false,
        }),
{
    lemma_room_peers_members(s, sender, label, k);
    lemma_index_of_found(s, k);
    if room_peers(s, sender, label).contains(k) {
        let i = choose|i: int|
            0 <= i < s.len() && s[i].id == k && k != sender && decimal(s[i].room as int) == label;
        lemma_index_of_at(s, k, i);
    }
}

/// `others` holds `k` exactly when some client of the table has id `k` and
/// `k` is not the sender.
proof fn lemma_others_members(s: Seq<ClientState>, sender: Seq<char>, k: Seq<char>)
    ensures
        others(s, sender).contains(k) <==> exists|i: int|
            0 <= i < s.len() && s[i].id == k && k != sender,
    decreases s.len(),
{
    if s.len() > 0 {
        let t = s.drop_last();
        lemma_others_members(t, sender, k);
        let prev = others(t, sender);
        if others(s, sender).contains(k) {
            if prev.contains(k) {
                let i = choose|i: int| 0 <= i < t.len() && t[i].id == k && k != sender;
                assert(s[i] == t[i]);
            } else {
                let j = choose|j: int|
                    0 <= j < others(s, sender).len() && others(s, sender)[j] == k;
                assert(j == prev.len());
                assert(s[s.len() - 1].id == k);
            }
        }
        if exists|i: int| 0 <= i < s.len() && s[i].id == k && k != sender {
            let i = choose|i: int| 0 <= i < s.len() && s[i].id == k && k != sender;
            if i < s.len() - 1 {
                assert(t[i] == s[i]);
                let j = choose|j: int| 0 <= j < prev.len() && prev[j] == k;
                if s.last().id != sender {
                    assert(others(s, sender)[j] == k);
                }
            } else {
                assert(others(s, sender) == prev.push(k));
                assert(others(s, sender)[prev.len() as int] == k);
            }
        }
    }
}

/// Law: a chat line goes to exactly the connected clients other than its
/// sender.
pub proof fn lemma_others_are_everyone_else(s: Seq<ClientState>, sender: Seq<char>, k: Seq<char>)
    requires
        distinct_ids(s),
    ensures
        others(s, sender).contains(k) <==> (k != sender && entry(s, k) is Some),
{
    lemma_others_members(s, sender, k);
    lemma_index_of_found(s, k);
    if others(s, sender).contains(k) {
        let i = choose|i: int| 0 <= i < s.len() && s[i].id == k && k != sender;
        lemma_index_of_at(s, k, i);
    }
}

/// Law: no client is told twice of a change to a room: the ids that hear of
/// it are all different.
pub proof fn lemma_room_peers_once_each(s: Seq<ClientState>, sender: Seq<char>, label: Seq<char>)
    requires
        distinct_ids(s),
    ensures
        room_peers(s, sender, label).no_duplicates(),
    decreases s.len(),
{
    if s.len() > 0 {
        let t = s.drop_last();
        assert(distinct_ids(t));
        lemma_room_peers_once_each(t, sender, label);
        let prev = room_peers(t, sender, label);
        let last = s.last().id;
        lemma_room_peers_members(t, sender, label, last);
        if prev.contains(last) {
            let i = choose|i: int|
                0 <= i < t.len() && t[i].id == last && last != sender && decimal(t[i].room as int)
                    == label;
            assert(s[i].id == s[s.len() - 1].id);
        }
        if s.last().id != sender && decimal(s.last().room as int) == label {
            assert forall|a: int, b: int|
                0 <= a < prev.push(last).len() && 0 <= b < prev.push(last).len() && a != b
                    implies prev.push(last)[a] != prev.push(last)[b] by {
                if a < prev.len() && b < prev.len() {
                } else if a < prev.len() {
                    assert(prev[a] != last);
                } else {
                    assert(prev[b] != last);
                }
            }
        }
    }
}

/// Law: a chat line reaches each other client once: the ids it goes to are
/// all different.
pub proof fn lemma_others_once_each(s: Seq<ClientState>, sender: Seq<char>)
    requires
        distinct_ids(s),
    ensures
        others(s, sender).no_duplicates(),
    decreases s.len(),
{
    if s.len() > 0 {
        let t = s.drop_last();
        assert(distinct_ids(t));
        lemma_others_once_each(t, sender);
        let prev = others(t, sender);
        let last = s.last().id;
        lemma_others_members(t, sender, last);
        if prev.contains(last) {
            let i = choose|i: int| 0 <= i < t.len() && t[i].id == last && last != sender;
            assert(s[i].id == s[s.len() - 1].id);
        }
        if s.last().id != sender {
            assert forall|a: int, b: int|
                0 <= a < prev.push(last).len() && 0 <= b < prev.push(last).len() && a != b
                    implies prev.push(last)[a] != prev.push(last)[b] by {
                if a < prev.len() && b < prev.len() {
                } else if a < prev.len() {
                    assert(prev[a] != last);
                } else {
                    assert(prev[b] != last);
                }
            }
        }
    }
}

/// Law: a client that moved into room `room` is afterwards told of changes
/// made by another client to the room written `label` exactly when `label`
/// is the decimal form of `room` (so `007` does not reach room 7).
pub proof fn lemma_moved_client_hears_its_room(
    s: Seq<ClientState>,
    mover: Seq<char>,
    room: i32,
    sender: Seq<char>,
    label: Seq<char>,
)
    requires
        distinct_ids(s),
        index_of(s, mover) is Some,
        sender != mover,
    ensures
        room_peers(with_room(s, mover, room), sender, label).contains(mover) <==> label == decimal(
            room as int,
        ),
{
    lemma_entry_with_room(s, mover, room, mover);
    lemma_room_peers_are_the_room(with_room(s, mover, room), sender, label, mover);
}

impl<S> Registry<S> {
    /// The channel of the client `id`, if it is in the table.
    pub closed spec fn channel_of(&self, id: Seq<char>) -> Option<S> {
        match index_of(self@, id) {
            Some(i) => Some(self.clients@[i].sender),
            None => None,
        }
    }

    /// Changing a client in place, keeping its id and channel, keeps every
    /// id's channel.
    proof fn lemma_same_channels_after_update(&self, before: &Registry<S>, i: int)
        requires
            before.wf(),
            self.wf(),
            0 <= i < before@.len(),
            self.clients@ == before.clients@.update(i, self.clients@[i]),
            self.clients@[i].client_id@ == before.clients@[i].client_id@,
            self.clients@[i].sender == before.clients@[i].sender,
        ensures
            forall|k: Seq<char>| #[trigger] self.channel_of(k) == before.channel_of(k),
    {
        assert forall|k: Seq<char>| #[trigger] self.channel_of(k) == before.channel_of(k) by {
            lemma_index_of_found(before@, k);
            match index_of(before@, k) {
                Some(j) => {
                    assert(self@[j].id == k);
                    lemma_index_of_at(self@, k, j);
                },
                None => {
                    assert forall|m: int| 0 <= m < self@.len() implies self@[m].id != k by {
                        assert(self@[m].id == before@[m].id);
                    }
                    lemma_index_of_found(self@, k);
                },
            }
        }
    }

    /// The table is well formed: no two clients share an id.
    pub open spec fn wf(&self) -> bool {
        distinct_ids(self@)
    }

    /// An empty table.
    pub fn new() -> (r: Registry<S>)
        ensures
            r@ == Seq::<ClientState>::empty(),
            r.wf(),
    {
        let r = Registry { clients: Vec::new() };
        assert(r@ =~= Seq::<ClientState>::empty());
        r
    }

    /// The number of connected clients.
    pub fn len(&self) -> (n: usize)
        ensures
            n == self@.len(),
    {
        self.clients.len()
    }

    /// Where the client `id` stands in the table, if it is there.
    pub fn find(&self, id: &str) -> (r: Option<usize>)
        requires
            self.wf(),
        ensures
            r matches Some(i) ==> index_of(self@, id@) == Some(i as int),
            r is None ==> index_of(self@, id@) is None,
    {
        let key = id.to_owned();
        let n = self.clients.len();
        let mut i: usize = 0;
        while i < n
            invariant
                n == self.clients@.len(),
                n == self@.len(),
                key@ == id@,
                self.wf(),
                i <= n,
                forall|j: int| 0 <= j < i ==> self@[j].id != id@,
            decreases n - i,
        {
            if self.clients[i].client_id == key {
                proof {
                    assert(self@[i as int].id == id@);
                    lemma_index_of_at(self@, id@, i as int);
                }
                return Some(i);
            }
            assert(self@[i as int].id != id@);
            i = i + 1;
        }
        None
    }

    /// The client `id`, if it is connected.
    pub fn get(&self, id: &str) -> (r: Option<&Client<S>>)
        requires
            self.wf(),
        ensures
            r matches Some(c) ==> entry(self@, id@) == Some(c.state()) && self.channel_of(id@)
                == Some(c.sender),
            r is None ==> entry(self@, id@) is None,
    {
        match self.find(id) {
            Some(i) => Some(&self.clients[i]),
            None => None,
        }
    }

    /// The channel of the client `id`, if it is connected.
    pub fn sender_of(&self, id: &str) -> (r: Option<&S>)
        requires
            self.wf(),
        ensures
            r is Some <==> entry(self@, id@) is Some,
            r matches Some(c) ==> self.channel_of(id@) == Some(*c),
    {
        match self.find(id) {
            Some(i) => Some(&self.clients[i].sender),
            None => None,
        }
    }

    /// Puts `client` in the table, in place of any client of the same id.
    pub fn insert(&mut self, client: Client<S>)
        requires
            old(self).wf(),
        ensures
            final(self).wf(),
            final(self)@ == inserted(old(self)@, client.state()),
            final(self).channel_of(client.client_id@) == Some(client.sender),
            forall|k: Seq<char>|
                k != client.client_id@ ==> #[trigger] final(self).channel_of(k) == old(
                    self,
                ).channel_of(k),
    {
        let ghost c = client.state();
        proof {
            lemma_entry_inserted(self@, c, c.id);
        }
        let ghost ch = client.sender;
        match self.find(client.client_id.as_str()) {
            Some(i) => {
                self.clients.remove(i);
                self.clients.insert(i, client);
                assert(self@ =~= old(self)@.update(i as int, c));
                proof {
                    lemma_index_of_at(self@, c.id, i as int);
                    assert forall|k: Seq<char>| k != c.id implies #[trigger] self.channel_of(k)
                        == old(self).channel_of(k) by {
                        lemma_index_of_found(old(self)@, k);
                        match index_of(old(self)@, k) {
                            Some(j) => {
                                lemma_index_of_at(self@, k, j);
                            },
                            None => {
                                lemma_index_of_found(self@, k);
                            },
                        }
                    }
                }
            },
            None => {
                self.clients.push(client);
                assert(self@ =~= old(self)@.push(c));
                proof {
                    lemma_index_of_at(self@, c.id, old(self)@.len() as int);
                    assert forall|k: Seq<char>| k != c.id implies #[trigger] self.channel_of(k)
                        == old(self).channel_of(k) by {
                        lemma_index_of_found(old(self)@, k);
                        match index_of(old(self)@, k) {
                            Some(j) => {
                                lemma_index_of_at(self@, k, j);
                            },
                            None => {
                                lemma_index_of_found(self@, k);
                            },
                        }
                    }
                }
            },
        }
        assert(self.channel_of(c.id) == Some(ch));
    }

    /// Connects a client that is reached through `sender`: it gets a fresh
    /// random version-4 id of 32 lower-case hexadecimal digits, room 0 and no
    /// colour yet (black), and the id is returned. Every other client keeps
    /// its channel.
    pub fn connect(&mut self, sender: S) -> (id: String)
        requires
            old(self).wf(),
        ensures
            final(self).wf(),
            id@.len() == 32,
            forall|i: int| 0 <= i < 32 ==> #[trigger] is_lower_hex(id@[i]),
            final(self)@ == inserted(
                old(self)@,
                ClientState { id: id@, room: 0, color: (0, 0, 0) },
            ),
            id@[12] == '4',
            id@[16] == '8' || id@[16] == '9' || id@[16] == 'a' || id@[16] == 'b',
            final(self).channel_of(id@) == Some(sender),
            forall|k: Seq<char>|
                k != id@ ==> #[trigger] final(self).channel_of(k) == old(self).channel_of(k),
    {
        let id = fresh_simple_uuid();
        let client = Client { client_id: id.clone(), sender, current_room: 0, color: (0, 0, 0) };
        self.insert(client);
        id
    }

    /// Takes the client `id` out of the table.
    pub fn remove(&mut self, id: &str)
        requires
            old(self).wf(),
        ensures
            final(self).wf(),
            final(self)@ == removed(old(self)@, id@),
            forall|k: Seq<char>|
                k != id@ ==> #[trigger] final(self).channel_of(k) == old(self).channel_of(k),
    {
        proof {
            lemma_entry_removed(self@, id@, id@);
        }
        match self.find(id) {
            Some(i) => {
                self.clients.remove(i);
                assert(self@ =~= old(self)@.remove(i as int));
                proof {
                    assert forall|k: Seq<char>| k != id@ implies #[trigger] self.channel_of(k)
                        == old(self).channel_of(k) by {
                        lemma_index_of_found(old(self)@, k);
                        match index_of(old(self)@, k) {
                            Some(j) => {
                                let j2 = if j < i { j } else { j - 1 };
                                assert(j != i);
                                assert(self@[j2] == old(self)@[j]);
                                lemma_index_of_at(self@, k, j2);
                            },
                            None => {
                                assert forall|m: int| 0 <= m < self@.len() implies self@[m].id
                                    != k by {
                                    let m2 = if m < i { m } else { m + 1 };
                                    assert(self@[m] == old(self)@[m2]);
                                }
                                lemma_index_of_found(self@, k);
                            },
                        }
                    }
                }
            },
            None => {},
        }
    }

    /// Moves the client `id`, if connected, into `room`.
    pub fn set_room(&mut self, id: &str, room: i32)
        requires
            old(self).wf(),
        ensures
            final(self).wf(),
            final(self)@ == with_room(old(self)@, id@, room),
            forall|k: Seq<char>| #[trigger] final(self).channel_of(k) == old(self).channel_of(k),
    {
        proof {
            lemma_entry_with_room(self@, id@, room, id@);
        }
        match self.find(id) {
            Some(i) => {
                let mut c = self.clients.remove(i);
                c.current_room = room;
                let ghost cs = c.state();
                self.clients.insert(i, c);
                assert(self@ =~= old(self)@.update(i as int, cs));
                proof {
                    lemma_update_same_id_distinct(old(self)@, i as int, cs);
                    assert(self.clients@ =~= old(self).clients@.update(i as int, self.clients@[i as int]));
                    self.lemma_same_channels_after_update(old(self), i as int);
                }
            },
            None => {},
        }
    }

    /// Gives the client `id`, if connected, the colour `color`.
    pub fn set_color(&mut self, id: &str, color: (u8, u8, u8))
        requires
            old(self).wf(),
        ensures
            final(self).wf(),
            final(self)@ == with_color(old(self)@, id@, color),
            forall|k: Seq<char>| #[trigger] final(self).channel_of(k) == old(self).channel_of(k),
    {
        proof {
            lemma_index_of_found(self@, id@);
        }
        match self.find(id) {
            Some(i) => {
                let mut c = self.clients.remove(i);
                c.color = color;
                let ghost cs = c.state();
                self.clients.insert(i, c);
                assert(self@ =~= old(self)@.update(i as int, cs));
                proof {
                    lemma_update_same_id_distinct(old(self)@, i as int, cs);
                    assert(self.clients@ =~= old(self).clients@.update(i as int, self.clients@[i as int]));
                    self.lemma_same_channels_after_update(old(self), i as int);
                }
            },
            None => {},
        }
    }

    /// The ids of the clients other than `sender` whose room, written in
    /// decimal, is the text `room`: those told of a change to that room.
    pub fn peers_in_room(&self, sender: &str, room: &str) -> (ids: Vec<String>)
        ensures
            string_views(ids@) == room_peers(self@, sender@, room@),
    {
        let sender_key = sender.to_owned();
        let room_key = room.to_owned();
        let mut ids: Vec<String> = Vec::new();
        let n = self.clients.len();
        let mut i: usize = 0;
        while i < n
            invariant
                n == self.clients@.len(),
                n == self@.len(),
                i <= n,
                sender_key@ == sender@,
                room_key@ == room@,
                string_views(ids@) == room_peers(self@.take(i as int), sender@, room@),
            decreases n - i,
        {
            let ghost before = string_views(ids@);
            assert(self@.take(i + 1).drop_last() =~= self@.take(i as int));
            assert(self@.take(i + 1).last() == self@[i as int]);
            let c = &self.clients[i];
            let label = room_label(c.current_room);
            if c.client_id != sender_key && label == room_key {
                ids.push(c.client_id.clone());
                assert(string_views(ids@) =~= before.push(self@[i as int].id));
            }
            i = i + 1;
        }
        assert(self@.take(n as int) =~= self@);
        ids
    }

    /// The ids of all clients other than `sender`: those a chat line goes to.
    pub fn everyone_but(&self, sender: &str) -> (ids: Vec<String>)
        ensures
            string_views(ids@) == others(self@, sender@),
    {
        let sender_key = sender.to_owned();
        let mut ids: Vec<String> = Vec::new();
        let n = self.clients.len();
        let mut i: usize = 0;
        while i < n
            invariant
                n == self.clients@.len(),
                n == self@.len(),
                i <= n,
                sender_key@ == sender@,
                string_views(ids@) == others(self@.take(i as int), sender@),
            decreases n - i,
        {
            let ghost before = string_views(ids@);
            assert(self@.take(i + 1).drop_last() =~= self@.take(i as int));
            assert(self@.take(i + 1).last() == self@[i as int]);
            let c = &self.clients[i];
            if c.client_id != sender_key {
                ids.push(c.client_id.clone());
                assert(string_views(ids@) =~= before.push(self@[i as int].id));
            }
            i = i + 1;
        }
        assert(self@.take(n as int) =~= self@);
        ids
    }
}

} // verus!
