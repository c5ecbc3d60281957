//! The words of the websocket protocol: the commands a client sends, the keys
//! that guard them, and the texts the server sends back.

use crate::text::split_spaces;
use crate::trusted::string_views;
use vstd::prelude::*;

verus! {

/// A command, named by the first field of a client's message.
#[derive(Clone, Copy, Debug, PartialEq, Eq, Structural)]
pub enum Command {
    /// `GET room`: read a room's dots and move into the room.
    Get,
    /// `PUT room key dots`: add dots to a room.
    Put,
    /// `DEL room key`: delete a room's file.
    Delete,
    /// `RMV room key ids`: remove dots from a room by id.
    Remove,
    /// `CHT room key words...`: send a chat line to everyone else.
    Chat,
}

/// The command that a first field names, if any.
pub open spec fn command_of(word: Seq<char>) -> Option<Command> {
    if word == "GET"@ {
        Some(Command::Get)
    } else if word == "PUT"@ {
        Some(Command::Put)
    } else if word == "DEL"@ {
        Some(Command::Delete)
    } else if word == "RMV"@ {
        Some(Command::Remove)
    } else if word == "CHT"@ {
        Some(Command::Chat)
    } else {
        None
    }
}

/// The command that the word `word` names, if any.
pub fn command_named(word: &str) -> (c: Option<Command>)
    ensures
        c == command_of(word@),
{
    let word = word.to_owned();
    if word == "GET".to_owned() {
        Some(Command::Get)
    } else if word == "PUT".to_owned() {
        Some(Command::Put)
    } else if word == "DEL".to_owned() {
        Some(Command::Delete)
    } else if word == "RMV".to_owned() {
        Some(Command::Remove)
    } else if word == "CHT".to_owned() {
        Some(Command::Chat)
    } else {
        None
    }
}

/// The first field of a text message: everything before its first space.
pub open spec fn first_field(raw: Seq<char>) -> Seq<char> {
    split_spaces(raw)[0]
}

/// Reads a text message from a client whose first field names a command:
/// its fields and that command.
pub fn client_msg(raw: &str) -> (r: (Command, Vec<String>))
    requires
        command_of(first_field(raw@)) is Some,
    ensures
        split_spaces(raw@).len() >= 1,
        string_views(r.1@) == split_spaces(raw@),
        command_of(first_field(raw@)) == Some(r.0),
{
    let fields = crate::text::split_message(raw);
    proof {
        crate::text::lemma_split_nonempty(raw@);
    }
    assert(fields@[0]@ == split_spaces(raw@)[0]);
    match command_named(fields[0].as_str()) {
        Some(command) => (command, fields),
        None => {
            // The first field names a command.
            assert(false);
            (Command::Get, fields)
        },
    }
}

/// The three keys of the server: the paint key, the paint-and-erase key and
/// the paint-erase-and-delete key.
pub struct Keys {
    pub paint: String,
    pub erase: String,
    pub erase_delete: String,
}

/// Whether `key` lets a client run `command`: reading a room needs no key,
/// adding dots takes any of the three keys, removing dots the erase key or
/// the erase-and-delete key, deleting a room or chatting the erase-and-delete
/// key alone.
pub open spec fn key_allows(keys: Keys, command: Command, key: Seq<char>) -> bool {
    match command {
        Command::Get => true,
        Command::Put => key == keys.paint@ || key == keys.erase@ || key == keys.erase_delete@,
        Command::Remove => key == keys.erase@ || key == keys.erase_delete@,
        Command::Delete => key == keys.erase_delete@,
        Command::Chat => key == keys.erase_delete@,
    }
}

/// The tier that a key opens: 3 for the erase-and-delete key, 2 for the
/// erase key, 1 for the paint key, 0 for anything else (the highest tier
/// wins where keys coincide).
pub open spec fn key_tier(keys: Keys, key: Seq<char>) -> int {
    if key == keys.erase_delete@ {
        3
    } else if key == keys.erase@ {
        2
    } else if key == keys.paint@ {
        1
    } else {
        0
    }
}

/// The tier a command needs.
pub open spec fn command_tier(command: Command) -> int {
    match command {
        Command::Get => 0,
        Command::Put => 1,
        Command::Remove => 2,
        Command::Delete => 3,
        Command::Chat => 3,
    }
}

impl Keys {
    /// Whether `key` lets a client run `command`.
    pub fn allows(&self, command: Command, key: &String) -> (ok: bool)
        ensures
            ok == key_allows(*self, command, key@),
    {
        match command {
            Command::Get => true,
            Command::Put => *key == self.paint || *key == self.erase || *key == self.erase_delete,
            Command::Remove => *key == self.erase || *key == self.erase_delete,
            Command::Delete => *key == self.erase_delete,
            Command::Chat => *key == self.erase_delete,
        }
    }
}

/// Law: the keys are tiered; a key lets a client run a command exactly when
/// the key's tier reaches the command's tier.
pub proof fn lemma_keys_are_tiered(keys: Keys, command: Command, key: Seq<char>)
    ensures
        key_allows(keys, command, key) <==> key_tier(keys, key) >= command_tier(command),
{
}

/// Law: a key that lets a client run a command lets it run every command of
/// a lower or equal tier.
pub proof fn lemma_keys_monotone(keys: Keys, stronger: Command, weaker: Command, key: Seq<char>)
    requires
        key_allows(keys, stronger, key),
        command_tier(weaker) <= command_tier(stronger),
    ensures
        key_allows(keys, weaker, key),
{
}

/// Law: the erase-and-delete key opens every command.
pub proof fn lemma_top_key_opens_all(keys: Keys, command: Command)
    ensures
        key_allows(keys, command, keys.erase_delete@),
{
}

/// The reply to a `GET`: the room's file as it stands.
pub fn get_reply(contents: &str) -> (text: String)
    ensures
        text@ == "GET_RES "@ + contents@,
{
    let mut text = "GET_RES ".to_owned();
    text.append(contents);
    text
}

/// The reply to an accepted `PUT`.
pub fn put_reply() -> (text: String)
    ensures
        text@ == "PUT_RES FILE_WRITTEN_SUCCESSFULLY"@,
{
    "PUT_RES FILE_WRITTEN_SUCCESSFULLY".to_owned()
}

/// The reply to an accepted `DEL`.
pub fn delete_reply() -> (text: String)
    ensures
        text@ == "DEL_RES FILE_DELETED_SUCCESSFULLY"@,
{
    "DEL_RES FILE_DELETED_SUCCESSFULLY".to_owned()
}

/// The reply to the sender of an accepted chat line.
pub fn chat_reply() -> (text: String)
    ensures
        text@ == "CHT_SELF_RES CHAT_SENT_SUCCESSFULLY"@,
{
    "CHT_SELF_RES CHAT_SENT_SUCCESSFULLY".to_owned()
}

/// What the others in a room are told of new dots: the room and the dots in
/// JSON.
pub fn update_notice(room: &str, dots_json: &str) -> (text: String)
    ensures
        text@ == "UPD_RES "@ + room@ + " "@ + dots_json@,
{
    let mut text = "UPD_RES ".to_owned();
    text.append(room);
    text.append(" ");
    text.append(dots_json);
    text
}

/// What the others in a room are told when its file is deleted.
pub fn clear_notice(room: &str) -> (text: String)
    ensures
        text@ == "CLR_RES "@ + room@,
{
    let mut text = "CLR_RES ".to_owned();
    text.append(room);
    text
}

/// What the others in a room are told of removed dots: their ids in JSON.
pub fn remove_notice(ids_json: &str) -> (text: String)
    ensures
        text@ == "RMV_RES "@ + ids_json@,
{
    let mut text = "RMV_RES ".to_owned();
    text.append(ids_json);
    text
}

/// What everyone else is told of a chat line: the chat in JSON.
pub fn chat_notice(chat_json: &str) -> (text: String)
    ensures
        text@ == "CHT_RES "@ + chat_json@,
{
    let mut text = "CHT_RES ".to_owned();
    text.append(chat_json);
    text
}

} // verus!
