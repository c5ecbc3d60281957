//! The calls into std and into outside crates that the verified code makes.
//! Each item here states what the called code is believed to do; nothing in
//! these bodies is proved.

use crate::text::join_with;
use rand::Rng;
use vstd::prelude::*;

verus! {

/// The pieces of a `Vec<String>` as mathematical strings.
pub open spec fn string_views(v: Seq<String>) -> Seq<Seq<char>> {
    v.map_values(|s: String| s@)
}

/// True when `c` is one of `0-9` or `a-f`.
pub open spec fn is_lower_hex(c: char) -> bool {
    ('0' <= c && c <= '9') || ('a' <= c && c <= 'f')
}

/// `String::push` from std: the character is appended at the end.
#[verifier::external_body]
pub fn push_char(s: &mut String, c: char)
    ensures
        final(s)@ == old(s)@.push(c),
{
    s.push(c);
}

/// `uuid::Uuid::new_v4()` rendered through `Uuid::simple()` and `to_string()`.
/// The uuid crate writes the simple form as 32 lower-case hexadecimal digits
/// (`format_simple` in its `fmt.rs`), and `new_v4` fixes the version digit
/// (`4`, the thirteenth) and the variant digit (the seventeenth, one of `8`,
/// `9`, `a`, `b`) by masking the random value. The other digits are random,
/// so this contract says nothing of them beyond their form.
#[verifier::external_body]
pub fn fresh_simple_uuid() -> (id: String)
    ensures
        id@.len() == 32,
        forall|i: int| 0 <= i < 32 ==> #[trigger] is_lower_hex(id@[i]),
        id@[12] == '4',
        id@[16] == '8' || id@[16] == '9' || id@[16] == 'a' || id@[16] == 'b',
{
    uuid::Uuid::new_v4().simple().to_string()
}

/// One byte drawn by `rand::thread_rng().gen::<u8>()`. Any byte may come out;
/// the contract states nothing of it.
#[verifier::external_body]
pub fn random_byte() -> (b: u8)
{
    rand::thread_rng().gen::<u8>()
}

/// The error type of serde_json, carried through unopened.
#[verifier::external_type_specification]
#[verifier::external_body]
pub struct ExJsonError(serde_json::Error);

/// What `serde_json::from_str::<Vec<String>>` makes of a text: `None` where it
/// fails, else the strings of the JSON array. It depends on the text alone.
pub uninterp spec fn json_string_list(text: Seq<char>) -> Option<Seq<Seq<char>>>;

/// The lower-case hexadecimal digit of `d` (0 to 15).
pub open spec fn hex_digit(d: int) -> char {
    if d < 10 {
        (48 + d) as char
    } else {
        (87 + d) as char
    }
}

/// How serde_json writes one character inside a JSON string (the `ESCAPE`
/// table and `write_char_escape` of its `ser.rs`): `"` and `\` behind a
/// backslash, the controls backspace, tab, line feed, form feed and carriage
/// return as `\b \t \n \f \r`, every other control below `0x20` as
/// `\u00` and two lower-case hex digits, anything else as itself.
pub open spec fn json_escaped_char(c: char) -> Seq<char> {
    if c == '"' {
        seq!['\\', '"']
    } else if c == '\\' {
        seq!['\\', '\\']
    } else if c == '\u{8}' {
        seq!['\\', 'b']
    } else if c == '\t' {
        seq!['\\', 't']
    } else if c == '\n' {
        seq!['\\', 'n']
    } else if c == '\u{c}' {
        seq!['\\', 'f']
    } else if c == '\r' {
        seq!['\\', 'r']
    } else if (c as int) < 0x20 {
        seq!['\\', 'u', '0', '0', hex_digit((c as int) / 16), hex_digit((c as int) % 16)]
    } else {
        seq![c]
    }
}

/// The characters of `s`, each written as [`json_escaped_char`] writes it.
pub open spec fn json_escaped(s: Seq<char>) -> Seq<char>
    decreases s.len(),
{
    if s.len() == 0 {
        Seq::<char>::empty()
    } else {
        json_escaped(s.drop_last()) + json_escaped_char(s.last())
    }
}

/// A JSON string literal of `s`.
pub open spec fn json_quoted(s: Seq<char>) -> Seq<char> {
    seq!['"'] + json_escaped(s) + seq!['"']
}

/// The compact JSON array of strings that serde_json writes: `[`, the quoted
/// strings separated by `,` with no spaces, then `]`.
pub open spec fn json_string_array(items: Seq<Seq<char>>) -> Seq<char> {
    seq!['['] + join_with(items.map_values(|s: Seq<char>| json_quoted(s)), seq![',']) + seq![']']
}

/// `serde_json::from_str::<Vec<String>>`: succeeds exactly when the named
/// result is `Some`, and then gives its strings. What text is accepted (the
/// JSON grammar) is not stated here.
#[verifier::external_body]
pub fn parse_json_string_list(text: &str) -> (r: Result<Vec<String>, serde_json::Error>)
    ensures
        r is Ok <==> json_string_list(text@) is Some,
        r matches Ok(v) ==> string_views(v@) == json_string_list(text@)->0,
{
    serde_json::from_str::<Vec<String>>(text)
}

/// `serde_json::to_string` on a `Vec<String>`. It writes into a `Vec<u8>`,
/// whose writes never fail, and strings always serialise, so it returns `Ok`,
/// with the compact form of [`json_string_array`] (`begin_array`,
/// `begin_array_value`, `end_array` and `format_escaped_str` of its
/// `ser.rs`).
#[verifier::external_body]
pub fn json_text_of_strings(items: &Vec<String>) -> (r: Result<String, serde_json::Error>)
    ensures
        r is Ok,
        r matches Ok(t) ==> t@ == json_string_array(string_views(items@)),
{
    serde_json::to_string(items)
}

} // verus!
