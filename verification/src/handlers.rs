//! What the server decides for each command a client sends: whether the key
//! lets it through, which clients hear of it, what they are sent, and how the
//! table of clients changes. Reading and writing the rooms' files, and the
//! sending itself, are left to the caller, which follows the outcome.

use crate::chat::{chat_color, chat_text, chat_text_of, gen_color, Chat};
use crate::protocol::{key_allows, remove_notice, Command, Keys};
use crate::registry::{
    distinct_ids,
    entry,
    lemma_entry_with_color,
    others,
    room_peers,
    with_color,
    with_room,
    ClientState,
    Registry,
};
use crate::text::{parse_i32, parse_room};
use crate::trusted::{
    json_string_list,
    json_string_array,
    json_text_of_strings,
    parse_json_string_list,
    string_views,
};
use vstd::prelude::*;

verus! {

/// What a chat command comes to.
pub enum ChatOutcome {
    /// The key is not the erase-and-delete key: nothing happens.
    Refused,
    /// The sender is not connected: nothing happens.
    Unknown,
    /// The sender is told the line went out, and `chat` goes to `peers`.
    Sent { chat: Chat, peers: Vec<String> },
}

/// A chat command with `fresh` as the colour a sender without one gets.
pub open spec fn chat_done(
    keys: Keys,
    before: Seq<ClientState>,
    after: Seq<ClientState>,
    client_id: Seq<char>,
    message: Seq<Seq<char>>,
    fresh: (u8, u8, u8),
    r: ChatOutcome,
) -> bool {
    if !key_allows(keys, Command::Chat, message[2]) {
        r is Refused && after == before
    } else {
        match entry(before, client_id) {
            None => r is Unknown && after == before,
            Some(c) => {
                let color = chat_color(c.color, fresh);
                &&& after == with_color(before, client_id, color)
                &&& r matches ChatOutcome::Sent { chat, peers }
                &&& chat.user@ == client_id
                &&& chat.message@ == chat_text_of(message)
                &&& chat.color == color
                &&& string_views(peers@) == others(after, client_id)
            },
        }
    }
}

/// A chat command from `client_id`, where a sender without a colour yet gets
/// `fresh`.
pub fn chat_io_with_color<S>(
    keys: &Keys,
    clients: &mut Registry<S>,
    client_id: &str,
    message: &Vec<String>,
    fresh: (u8, u8, u8),
) -> (r: ChatOutcome)
    requires
        old(clients).wf(),
        message@.len() >= 3,
    ensures
        final(clients).wf(),
        forall|k: Seq<char>| #[trigger] final(clients).channel_of(k) == old(clients).channel_of(k),
        chat_done(
            *keys,
            old(clients)@,
            final(clients)@,
            client_id@,
            string_views(message@),
            fresh,
            r,
        ),
{
    assert(string_views(message@)[2] == message@[2]@);
    if !keys.allows(Command::Chat, &message[2]) {
        return ChatOutcome::Refused;
    }
    let current = match clients.get(client_id) {
        None => {
            return ChatOutcome::Unknown;
        },
        Some(c) => c.color,
    };
    let color = if current.0 == 0 && current.1 == 0 && current.2 == 0 {
        fresh
    } else {
        current
    };
    clients.set_color(client_id, color);
    let chat = Chat { message: chat_text(message), user: client_id.to_owned(), color };
    let peers = clients.everyone_but(client_id);
    ChatOutcome::Sent { chat, peers }
}

/// Law: a sender that already has a colour (anything but black) chats in
/// that colour and keeps it, whatever fresh colour was at hand; every other
/// client is left as it was.
pub proof fn lemma_coloured_sender_keeps_colour(
    keys: Keys,
    before: Seq<ClientState>,
    after: Seq<ClientState>,
    client_id: Seq<char>,
    message: Seq<Seq<char>>,
    fresh: (u8, u8, u8),
    r: ChatOutcome,
    k: Seq<char>,
)
    requires
        distinct_ids(before),
        chat_done(keys, before, after, client_id, message, fresh, r),
        key_allows(keys, Command::Chat, message[2]),
        entry(before, client_id) matches Some(c) && c.color != (0u8, 0u8, 0u8),
    ensures
        r matches ChatOutcome::Sent { chat, .. } && chat.color == entry(before, client_id)->0.color,
        entry(after, k) == entry(before, k),
{
    let c = entry(before, client_id)->0;
    lemma_entry_with_color(before, client_id, c.color, k);
    lemma_entry_with_color(before, client_id, c.color, client_id);
    assert(ClientState { color: c.color, ..c } == c);
}

/// Law: a black sender (one without a colour yet) chats in the fresh colour
/// and keeps it from then on.
pub proof fn lemma_black_sender_takes_fresh_colour(
    keys: Keys,
    before: Seq<ClientState>,
    after: Seq<ClientState>,
    client_id: Seq<char>,
    message: Seq<Seq<char>>,
    fresh: (u8, u8, u8),
    r: ChatOutcome,
)
    requires
        distinct_ids(before),
        chat_done(keys, before, after, client_id, message, fresh, r),
        key_allows(keys, Command::Chat, message[2]),
        entry(before, client_id) matches Some(c) && c.color == (0u8, 0u8, 0u8),
    ensures
        r matches ChatOutcome::Sent { chat, .. } && chat.color == fresh,
        entry(after, client_id) == Some(ClientState { color: fresh, ..entry(before, client_id)->0 }),
{
    lemma_entry_with_color(before, client_id, fresh, client_id);
}

/// A chat command from `client_id`: with the erase-and-delete key, a
/// connected sender without a colour yet gets a random one, is told the line
/// went out, and the line goes to every other client.
pub fn chat_io<S>(keys: &Keys, clients: &mut Registry<S>, client_id: &str, message: &Vec<String>) -> (r:
    ChatOutcome)
    requires
        old(clients).wf(),
        message@.len() >= 3,
    ensures
        final(clients).wf(),
        forall|k: Seq<char>| #[trigger] final(clients).channel_of(k) == old(clients).channel_of(k),
        exists|fresh: (u8, u8, u8)|
            chat_done(
                *keys,
                old(clients)@,
                final(clients)@,
                client_id@,
                string_views(message@),
                fresh,
                r,
            ),
{
    let mut fresh: (u8, u8, u8) = (0, 0, 0);
    if keys.allows(Command::Chat, &message[2]) {
        match clients.get(client_id) {
            Some(c) => {
                if c.color.0 == 0 && c.color.1 == 0 && c.color.2 == 0 {
                    fresh = gen_color();
                }
            },
            None => {},
        }
    }
    chat_io_with_color(keys, clients, client_id, message, fresh)
}

/// What a `GET` comes to, once the room's file has been read.
#[derive(Clone, Copy, Debug, PartialEq, Eq, Structural)]
pub enum GetOutcome {
    /// The client is not connected: it is sent nothing.
    Unknown,
    /// The client is sent the file and is now in the room.
    Entered(i32),
    /// The client is sent the file, but the room is no `i32`: it stays where
    /// it was.
    BadRoom,
}

/// A `GET room` from `client_id`, after the room's file was read: a
/// connected client is sent the file and moves into the room, if the room
/// reads as an `i32`.
pub fn get_dots<S>(clients: &mut Registry<S>, client_id: &str, message: &Vec<String>) -> (r:
    GetOutcome)
    requires
        old(clients).wf(),
        message@.len() >= 2,
    ensures
        final(clients).wf(),
        forall|k: Seq<char>| #[trigger] final(clients).channel_of(k) == old(clients).channel_of(k),
        entry(old(clients)@, client_id@) is None ==> r == GetOutcome::Unknown && final(clients)@
            == old(clients)@,
        entry(old(clients)@, client_id@) is Some ==> match parse_i32(message@[1]@) {
            Some(room) => r == GetOutcome::Entered(room) && final(clients)@ == with_room(
                old(clients)@,
                client_id@,
                room,
            ),
            None => r == GetOutcome::BadRoom && final(clients)@ == old(clients)@,
        },
{
    if clients.find(client_id).is_none() {
        return GetOutcome::Unknown;
    }
    match parse_room(message[1].as_str()) {
        Some(room) => {
            clients.set_room(client_id, room);
            GetOutcome::Entered(room)
        },
        None => GetOutcome::BadRoom,
    }
}

/// What a `PUT` comes to.
pub enum PutOutcome {
    /// The key is none of the three: nothing happens.
    Refused,
    /// The dots in `payload` go to `room`'s file, `peers` are told of them,
    /// and the sender is told the file was written when `reply` is set.
    Accepted { room: String, payload: String, peers: Vec<String>, reply: bool },
}

/// A `PUT room key dots` from `client_id`.
pub fn put_dots<S>(keys: &Keys, clients: &Registry<S>, client_id: &str, message: &Vec<String>) -> (r:
    PutOutcome)
    requires
        clients.wf(),
        message@.len() >= 3,
        key_allows(*keys, Command::Put, message@[2]@) ==> message@.len() >= 4,
    ensures
        !key_allows(*keys, Command::Put, message@[2]@) ==> r is Refused,
        key_allows(*keys, Command::Put, message@[2]@) ==> {
            &&& r matches PutOutcome::Accepted { room, payload, peers, reply }
            &&& room@ == message@[1]@
            &&& payload@ == message@[3]@
            &&& string_views(peers@) == room_peers(clients@, client_id@, message@[1]@)
            &&& reply == (entry(clients@, client_id@) is Some)
        },
{
    if !keys.allows(Command::Put, &message[2]) {
        return PutOutcome::Refused;
    }
    let peers = clients.peers_in_room(client_id, message[1].as_str());
    let reply = clients.find(client_id).is_some();
    PutOutcome::Accepted { room: message[1].clone(), payload: message[3].clone(), peers, reply }
}

/// What a `DEL` comes to.
pub enum DeleteOutcome {
    /// The key is not the erase-and-delete key: nothing happens.
    Refused,
    /// `room`'s file is deleted; a connected sender is told so and the ids in
    /// `notify` are told the room was cleared.
    Deleted { room: String, notify: Option<Vec<String>> },
}

/// A `DEL room key` from `client_id`.
pub fn delete_dots<S>(keys: &Keys, clients: &Registry<S>, client_id: &str, message: &Vec<String>) -> (r:
    DeleteOutcome)
    requires
        clients.wf(),
        message@.len() >= 3,
    ensures
        !key_allows(*keys, Command::Delete, message@[2]@) ==> r is Refused,
        key_allows(*keys, Command::Delete, message@[2]@) ==> {
            &&& r matches DeleteOutcome::Deleted { room, notify }
            &&& room@ == message@[1]@
            &&& (notify is None <==> entry(clients@, client_id@) is None)
            &&& notify matches Some(peers) ==> string_views(peers@) == room_peers(
                clients@,
                client_id@,
                message@[1]@,
            )
        },
{
    if !keys.allows(Command::Delete, &message[2]) {
        return DeleteOutcome::Refused;
    }
    let notify = if clients.find(client_id).is_some() {
        Some(clients.peers_in_room(client_id, message[1].as_str()))
    } else {
        None
    };
    DeleteOutcome::Deleted { room: message[1].clone(), notify }
}

/// The dot ids of a `RMV` did not read as a JSON array of strings.
#[derive(Debug)]
pub struct DotIdsError;

/// Reads the ids of the dots to remove: a JSON array of strings.
pub fn deserialize_dot_ids_from_string(text: &str) -> (r: Result<Vec<String>, DotIdsError>)
    ensures
        r is Ok <==> json_string_list(text@) is Some,
        r matches Ok(ids) ==> string_views(ids@) == json_string_list(text@)->0,
{
    match parse_json_string_list(text) {
        Ok(ids) => Ok(ids),
        Err(_) => Err(DotIdsError),
    }
}

/// What a `RMV` comes to.
pub enum RemoveOutcome {
    /// The key is neither erase key: nothing happens.
    Refused,
    /// The dots with these ids leave `room`'s file and `peers` are sent
    /// `notice`.
    Accepted { ids: Vec<String>, notice: String, room: String, peers: Vec<String> },
}

/// An accepted `RMV` of the dots with ids `ids` from `room`, sent by
/// `client_id`: the other clients in the room are sent the ids again as a
/// JSON array.
pub fn remove_listed<S>(clients: &Registry<S>, client_id: &str, room: &str, ids: Vec<String>) -> (r:
    RemoveOutcome)
    requires
        clients.wf(),
    ensures
        r matches RemoveOutcome::Accepted { ids: out, notice, room: to, peers } && {
            &&& out@ == ids@
            &&& notice@ == "RMV_RES "@ + json_string_array(string_views(ids@))
            &&& to@ == room@
            &&& string_views(peers@) == room_peers(clients@, client_id@, room@)
        },
{
    let ids_json = match json_text_of_strings(&ids) {
        Ok(t) => t,
        Err(_) => {
            // Serialising strings into memory does not fail.
            assert(false);
            String::new()
        },
    };
    let notice = remove_notice(ids_json.as_str());
    let peers = clients.peers_in_room(client_id, room);
    RemoveOutcome::Accepted { ids, notice, room: room.to_owned(), peers }
}

/// What a `RMV room key ids` from `client_id` comes to, where the key lets it
/// through only if `ids` is a JSON array of strings.
pub open spec fn remove_done(
    keys: Keys,
    clients: Seq<ClientState>,
    client_id: Seq<char>,
    message: Seq<Seq<char>>,
    r: RemoveOutcome,
) -> bool {
    if !key_allows(keys, Command::Remove, message[2]) {
        r is Refused
    } else {
        let listed = json_string_list(message[3])->0;
        &&& r matches RemoveOutcome::Accepted { ids, notice, room, peers }
        &&& string_views(ids@) == listed
        &&& notice@ == "RMV_RES "@ + json_string_array(listed)
        &&& room@ == message[1]
        &&& string_views(peers@) == room_peers(clients, client_id, message[1])
    }
}

/// A `RMV room key ids` from `client_id`, whose ids, when the key lets it
/// through, are a JSON array of strings.
pub fn remove_dots<S>(keys: &Keys, clients: &Registry<S>, client_id: &str, message: &Vec<String>) -> (r:
    RemoveOutcome)
    requires
        clients.wf(),
        message@.len() >= 3,
        key_allows(*keys, Command::Remove, message@[2]@) ==> message@.len() >= 4 && json_string_list(
            message@[3]@,
        ) is Some,
    ensures
        remove_done(*keys, clients@, client_id@, string_views(message@), r),
{
    assert(string_views(message@)[2] == message@[2]@);
    if !keys.allows(Command::Remove, &message[2]) {
        return RemoveOutcome::Refused;
    }
    assert(string_views(message@)[1] == message@[1]@);
    assert(string_views(message@)[3] == message@[3]@);
    match deserialize_dot_ids_from_string(message[3].as_str()) {
        Ok(ids) => remove_listed(clients, client_id, message[1].as_str(), ids),
        Err(_) => {
            // The ids were required to read as a JSON array of strings.
            assert(false);
            RemoveOutcome::Refused
        },
    }
}

/// A `RMV room key ids` from `client_id` whose ids text may be anything: it
/// is an error, with nothing done, when the key lets it through and the ids
/// are not a JSON array of strings; otherwise it is what `remove_dots` does.
pub fn try_remove_dots<S>(keys: &Keys, clients: &Registry<S>, client_id: &str, message: &Vec<String>) -> (r:
    Result<RemoveOutcome, DotIdsError>)
    requires
        clients.wf(),
        message@.len() >= 3,
        key_allows(*keys, Command::Remove, message@[2]@) ==> message@.len() >= 4,
    ensures
        r is Err <==> (key_allows(*keys, Command::Remove, message@[2]@) && json_string_list(
            message@[3]@,
        ) is None),
        r matches Ok(out) ==> remove_done(*keys, clients@, client_id@, string_views(message@), out),
{
    if keys.allows(Command::Remove, &message[2]) {
        match deserialize_dot_ids_from_string(message[3].as_str()) {
            Ok(_) => {},
            Err(e) => {
                return Err(e);
            },
        }
    }
    Ok(remove_dots(keys, clients, client_id, message))
}

} // verus!
