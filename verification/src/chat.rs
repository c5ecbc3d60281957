//! Chat lines and the colours they are shown in.

use crate::text::{join_with, lemma_split_fields_have_no_space, replace_spaces, split_spaces};
use crate::trusted::{random_byte, string_views};
use vstd::prelude::*;

verus! {

/// A chat line: its text, who sent it, and the sender's colour.
#[derive(Debug)]
pub struct Chat {
    pub message: String,
    pub user: String,
    pub color: (u8, u8, u8),
}

impl Clone for Chat {
    /// The same line, sender and colour.
    fn clone(&self) -> (c: Chat)
        ensures
            c.message@ == self.message@,
            c.user@ == self.user@,
            c.color == self.color,
    {
        Chat { message: self.message.clone(), user: self.user.clone(), color: self.color }
    }
}

impl Default for Chat {
    /// An empty line from nobody, in black.
    fn default() -> (c: Chat)
        ensures
            c.message@ == Seq::<char>::empty(),
            c.user@ == Seq::<char>::empty(),
            c.color == (0u8, 0u8, 0u8),
    {
        Chat { message: String::new(), user: String::new(), color: (0, 0, 0) }
    }
}

/// A random colour, each channel drawn on its own. Any colour may come out.
pub fn gen_color() -> (color: (u8, u8, u8)) {
    let r = random_byte();
    let g = random_byte();
    let b = random_byte();
    (r, g, b)
}

/// The colour a sender chats in: its own, or the fresh one where it has none
/// yet (black counts as none).
pub open spec fn chat_color(current: (u8, u8, u8), fresh: (u8, u8, u8)) -> (u8, u8, u8) {
    if current == (0u8, 0u8, 0u8) {
        fresh
    } else {
        current
    }
}

/// The text of a chat message: the fields after the command, the room and
/// the key, joined with `_`.
pub open spec fn chat_text_of(fields: Seq<Seq<char>>) -> Seq<char> {
    join_with(fields.skip(3), "_"@)
}

/// Parts without spaces joined with `c` read as the parts joined with a space
/// and each space then replaced by `c`.
proof fn lemma_join_without_spaces(parts: Seq<Seq<char>>, c: char)
    requires
        forall|i: int, j: int|
            0 <= i < parts.len() && 0 <= j < parts[i].len() ==> #[trigger] parts[i][j] != ' ',
    ensures
        join_with(parts, seq![c]) == replace_spaces(join_with(parts, seq![' ']), c),
    decreases parts.len(),
{
    if parts.len() == 1 {
        assert(replace_spaces(parts[0], c) =~= parts[0]);
    } else if parts.len() > 1 {
        let t = parts.drop_last();
        assert forall|i: int, j: int| 0 <= i < t.len() && 0 <= j < t[i].len() implies #[trigger] t[i][j]
            != ' ' by {
            assert(t[i] == parts[i]);
        }
        lemma_join_without_spaces(t, c);
        let l = parts.last();
        assert(l == parts[parts.len() - 1]);
        assert(replace_spaces(l, c) =~= l);
        assert(replace_spaces(join_with(t, seq![' ']) + seq![' '] + l, c) =~= replace_spaces(
            join_with(t, seq![' ']),
            c,
        ) + seq![c] + replace_spaces(l, c));
    } else {
        assert(replace_spaces(Seq::<char>::empty(), c) =~= Seq::<char>::empty());
    }
}

/// Law: the text of a chat line is what follows the key in the message, with
/// each space turned into `_`.
pub proof fn lemma_chat_text_is_rest_of_message(raw: Seq<char>)
    requires
        split_spaces(raw).len() >= 3,
    ensures
        chat_text_of(split_spaces(raw)) == replace_spaces(
            join_with(split_spaces(raw).skip(3), seq![' ']),
            '_',
        ),
{
    reveal_strlit("_");
    let f = split_spaces(raw);
    lemma_split_fields_have_no_space(raw);
    let rest = f.skip(3);
    assert forall|i: int, j: int| 0 <= i < rest.len() && 0 <= j < rest[i].len() implies #[trigger] rest[i][j]
        != ' ' by {
        assert(rest[i] == f[i + 3]);
    }
    assert("_"@ =~= seq!['_']);
    lemma_join_without_spaces(rest, '_');
}

/// The text of a chat message from its fields.
pub fn chat_text(message: &Vec<String>) -> (text: String)
    requires
        message@.len() >= 3,
    ensures
        text@ == chat_text_of(string_views(message@)),
{
    crate::text::join_from(message, 3, "_")
}

} // verus!
