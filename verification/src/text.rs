//! Text handling of the wire protocol: cutting a message into its
//! space-separated fields, joining fields back, and the decimal form of room
//! numbers in both directions.

use crate::trusted::{push_char, string_views};
use vstd::prelude::*;

verus! {

broadcast use vstd::string::group_string_axioms;

/// The fields of `s` cut at every space, in the way `str::split(' ')` yields
/// them: there is always at least one field, and an empty text gives a single
/// empty field.
pub open spec fn split_spaces(s: Seq<char>) -> Seq<Seq<char>>
    decreases s.len(),
{
    if s.len() == 0 {
        seq![Seq::<char>::empty()]
    } else {
        let prev = split_spaces(s.drop_last());
        if s.last() == ' ' {
            prev.push(Seq::<char>::empty())
        } else {
            prev.update(prev.len() - 1, prev.last().push(s.last()))
        }
    }
}

/// The parts laid end to end with `sep` between each two of them.
pub open spec fn join_with(parts: Seq<Seq<char>>, sep: Seq<char>) -> Seq<char>
    decreases parts.len(),
{
    if parts.len() == 0 {
        Seq::<char>::empty()
    } else if parts.len() == 1 {
        parts[0]
    } else {
        join_with(parts.drop_last(), sep) + sep + parts.last()
    }
}

/// `s` with every space replaced by `c`.
pub open spec fn replace_spaces(s: Seq<char>, c: char) -> Seq<char> {
    s.map_values(|x: char| if x == ' ' { c } else { x })
}

/// Splitting always yields at least one field.
pub proof fn lemma_split_nonempty(s: Seq<char>)
    ensures
        split_spaces(s).len() >= 1,
    decreases s.len(),
{
    if s.len() > 0 {
        lemma_split_nonempty(s.drop_last());
    }
}

/// Law: no field of a split message holds a space.
pub proof fn lemma_split_fields_have_no_space(s: Seq<char>)
    ensures
        forall|i: int, j: int|
            0 <= i < split_spaces(s).len() && 0 <= j < split_spaces(s)[i].len()
                ==> #[trigger] split_spaces(s)[i][j] != ' ',
    decreases s.len(),
{
    if s.len() > 0 {
        lemma_split_fields_have_no_space(s.drop_last());
        lemma_split_nonempty(s.drop_last());
    }
}

/// Law: joining the fields of a message with the single character `c` gives
/// the message with each space replaced by `c`.
pub proof fn lemma_join_split_replaces(s: Seq<char>, c: char)
    ensures
        join_with(split_spaces(s), seq![c]) == replace_spaces(s, c),
    decreases s.len(),
{
    if s.len() > 0 {
        let t = s.drop_last();
        let prev = split_spaces(t);
        lemma_split_nonempty(t);
        lemma_join_split_replaces(t, c);
        assert(replace_spaces(s, c) =~= replace_spaces(t, c).push(
            if s.last() == ' ' { c } else { s.last() },
        ));
        if s.last() == ' ' {
            let cur = prev.push(Seq::<char>::empty());
            assert(cur.drop_last() =~= prev);
            assert(join_with(cur, seq![c]) =~= join_with(prev, seq![c]) + seq![c]);
        } else {
            let cur = prev.update(prev.len() - 1, prev.last().push(s.last()));
            if prev.len() == 1 {
                assert(join_with(cur, seq![c]) == cur[0]);
                assert(join_with(prev, seq![c]) == prev[0]);
                assert(cur[0] =~= prev[0].push(s.last()));
            } else {
                assert(cur.drop_last() =~= prev.drop_last());
                assert(join_with(cur, seq![c]) =~= join_with(prev, seq![c]).push(s.last()));
            }
        }
    }
}

/// Law: joining the fields of a message with a space gives the message back.
pub proof fn lemma_join_split_roundtrip(s: Seq<char>)
    ensures
        join_with(split_spaces(s), seq![' ']) == s,
{
    lemma_join_split_replaces(s, ' ');
    assert(replace_spaces(s, ' ') =~= s);
}

/// Cuts `raw` at every space, as `raw.split(' ')` does.
pub fn split_message(raw: &str) -> (fields: Vec<String>)
    ensures
        string_views(fields@) == split_spaces(raw@),
{
    let mut fields: Vec<String> = Vec::new();
    let mut current = String::new();
    for c in it: raw.chars()
        invariant
            it.seq() == raw@,
            string_views(fields@).push(current@) == split_spaces(raw@.take(it.index() as int)),
    {
        let ghost i = it.index() as int;
        let ghost before = string_views(fields@);
        proof {
            assert(raw@.take(i + 1).drop_last() =~= raw@.take(i));
            assert(raw@.take(i + 1).last() == c);
        }
        let ghost prev_current = current@;
        if c == ' ' {
            fields.push(current);
            current = String::new();
            assert(string_views(fields@) =~= before.push(prev_current));
            assert(string_views(fields@).push(current@) =~= split_spaces(raw@.take(i + 1)));
        } else {
            push_char(&mut current, c);
            assert(string_views(fields@).push(current@) =~= before.push(prev_current).update(
                before.len() as int,
                prev_current.push(c),
            ));
        }
    }
    let ghost before = string_views(fields@);
    let ghost last = current@;
    fields.push(current);
    assert(string_views(fields@) =~= before.push(last));
    assert(raw@.take(raw@.len() as int) =~= raw@);
    fields
}

/// Lays the strings `parts[start..]` end to end with `sep` between them.
pub fn join_from(parts: &Vec<String>, start: usize, sep: &str) -> (joined: String)
    requires
        start <= parts@.len(),
    ensures
        joined@ == join_with(string_views(parts@).skip(start as int), sep@),
{
    let mut joined = String::new();
    let n = parts.len();
    let mut i = start;
    while i < n
        invariant
            start <= i <= n,
            n == parts@.len(),
            joined@ == join_with(string_views(parts@).subrange(start as int, i as int), sep@),
        decreases n - i,
    {
        let ghost sub = string_views(parts@).subrange(start as int, i as int);
        let ghost next = string_views(parts@).subrange(start as int, i + 1);
        assert(next.drop_last() =~= sub);
        assert(next.last() == parts@[i as int]@);
        if i != start {
            joined.append(sep);
        } else {
            assert(sub.len() == 0);
        }
        joined.append(parts[i].as_str());
        i = i + 1;
    }
    assert(string_views(parts@).subrange(start as int, n as int) =~= string_views(parts@).skip(
        start as int,
    ));
    joined
}

/// The character of the decimal digit `d`.
pub open spec fn digit_char(d: int) -> char {
    (48 + d) as char
}

/// The decimal digits of `n`, most significant first, without leading zeros.
pub open spec fn digits(n: nat) -> Seq<char>
    decreases n,
{
    if n < 10 {
        seq![digit_char(n as int)]
    } else {
        digits(n / 10).push(digit_char((n % 10) as int))
    }
}

/// The text that `i32::to_string` gives: a `-` before the digits of a negative
/// number, the digits alone otherwise.
pub open spec fn decimal(n: int) -> Seq<char> {
    if n < 0 {
        seq!['-'] + digits((-n) as nat)
    } else {
        digits(n as nat)
    }
}

/// True for `0` to `9`.
pub open spec fn is_digit(c: char) -> bool {
    '0' <= c && c <= '9'
}

/// The value of a digit character.
pub open spec fn digit_value(c: char) -> int {
    c as int - 48
}

/// True when every character of `s` is a digit.
pub open spec fn all_digits(s: Seq<char>) -> bool {
    forall|i: int| 0 <= i < s.len() ==> #[trigger] is_digit(s[i])
}

/// The number that a run of digits stands for, leading zeros allowed.
pub open spec fn digits_value(s: Seq<char>) -> int
    decreases s.len(),
{
    if s.len() == 0 {
        0
    } else {
        digits_value(s.drop_last()) * 10 + digit_value(s.last())
    }
}

/// 1 when `s` starts with a sign, else 0.
pub open spec fn sign_len(s: Seq<char>) -> int {
    if s.len() > 0 && (s[0] == '-' || s[0] == '+') {
        1
    } else {
        0
    }
}

/// What `str::parse::<i32>` gives: an optional `+` or `-`, then one or more
/// digits whose value fits in an `i32`; anything else is refused.
pub open spec fn parse_i32(s: Seq<char>) -> Option<i32> {
    let body = s.subrange(sign_len(s), s.len() as int);
    let value = if s.len() > 0 && s[0] == '-' {
        -digits_value(body)
    } else {
        digits_value(body)
    };
    if body.len() > 0 && all_digits(body) && i32::MIN <= value <= i32::MAX {
        Some(value as i32)
    } else {
        None
    }
}

proof fn lemma_digits_value_nonneg(s: Seq<char>)
    requires
        all_digits(s),
    ensures
        digits_value(s) >= 0,
    decreases s.len(),
{
    if s.len() > 0 {
        assert(is_digit(s[s.len() - 1]));
        assert(all_digits(s.drop_last()));
        lemma_digits_value_nonneg(s.drop_last());
    }
}

proof fn lemma_digits_well_formed(n: nat)
    ensures
        digits(n).len() >= 1,
        all_digits(digits(n)),
        digits_value(digits(n)) == n,
    decreases n,
{
    if n < 10 {
        let c = digit_char(n as int);
        assert(c as int == 48 + n);
        assert(digits(n).drop_last() =~= Seq::<char>::empty());
        assert(digits_value(Seq::<char>::empty()) == 0);
        assert(digits(n).last() == c);
        assert(digits_value(digits(n)) == digit_value(c));
    } else {
        lemma_digits_well_formed(n / 10);
        let p = digits(n / 10);
        let d = digits(n);
        assert(d.drop_last() =~= p);
        assert(digit_value(digit_char((n % 10) as int)) == n % 10);
        assert(n == (n / 10) * 10 + n % 10);
        assert forall|i: int| 0 <= i < d.len() implies #[trigger] is_digit(d[i]) by {
            if i < p.len() {
                assert(d[i] == p[i]);
            }
        }
    }
}

/// Law: reading back the decimal text of a room number gives the number.
pub proof fn lemma_parse_decimal(n: i32)
    ensures
        parse_i32(decimal(n as int)) == Some(n),
{
    let s = decimal(n as int);
    if n < 0 {
        let m = (-n) as nat;
        lemma_digits_well_formed(m);
        assert(s.subrange(1, s.len() as int) =~= digits(m));
    } else {
        let m = n as nat;
        lemma_digits_well_formed(m);
        assert(is_digit(digits(m)[0]));
        assert(s.subrange(0, s.len() as int) =~= s);
    }
}

fn push_digits(out: &mut String, n: u32)
    ensures
        final(out)@ == old(out)@ + digits(n as nat),
    decreases n,
{
    if n >= 10 {
        push_digits(out, n / 10);
    }
    let d: u8 = (n % 10) as u8;
    push_char(out, (48u8 + d) as char);
    assert(final(out)@ =~= old(out)@ + digits(n as nat));
}

/// The decimal text of a room number, as `i32::to_string` writes it.
pub fn room_label(room: i32) -> (label: String)
    ensures
        label@ == decimal(room as int),
{
    let mut label = String::new();
    if room < 0 {
        push_char(&mut label, '-');
        let magnitude: u32 = (-(room as i64)) as u32;
        push_digits(&mut label, magnitude);
        assert(label@ =~= decimal(room as int));
    } else {
        push_digits(&mut label, room as u32);
        assert(label@ =~= decimal(room as int));
    }
    label
}

/// Reads a room number as `text.parse::<i32>().ok()` does.
pub fn parse_room(text: &str) -> (room: Option<i32>)
    ensures
        room == parse_i32(text@),
{
    let ghost s = text@;
    let ghost sl = sign_len(s);
    let mut negative = false;
    let mut magnitude: u64 = 0;
    let mut too_big = false;
    let mut started = false;
    let mut any_digit = false;
    for c in it: text.chars()
        invariant
            s == text@,
            it.seq() == s,
            sl == sign_len(s),
            started == (it.index() >= 1),
            it.index() >= 1 ==> sl <= it.index(),
            any_digit == (it.index() > sl),
            negative == (it.index() >= 1 && s.len() > 0 && s[0] == '-'),
            it.index() >= 1 ==> all_digits(s.subrange(sl, it.index() as int)),
            it.index() >= 1 && !too_big ==> magnitude == digits_value(
                s.subrange(sl, it.index() as int),
            ) && magnitude <= 2147483648,
            it.index() == 0 ==> !too_big && magnitude == 0,
            it.index() >= 1 && too_big ==> digits_value(s.subrange(sl, it.index() as int))
                > 2147483648,
    {
        let ghost i = it.index() as int;
        assert(s[i] == c);
        if !started && (c == '-' || c == '+') {
            negative = c == '-';
            assert(s.subrange(sl, 1) =~= Seq::<char>::empty());
        } else if '0' <= c && c <= '9' {
            let ghost before = s.subrange(sl, i);
            let ghost after = s.subrange(sl, i + 1);
            assert(after.drop_last() =~= before);
            assert(after.last() == c);
            proof {
                if i == 0 {
                    assert(sl == 0);
                    assert(before =~= Seq::<char>::empty());
                }
                lemma_digits_value_nonneg(before);
            }
            if !too_big {
                magnitude = magnitude * 10 + ((c as u32) - 48) as u64;
                if magnitude > 2147483648 {
                    too_big = true;
                }
            }
            any_digit = true;
            assert forall|j: int| 0 <= j < after.len() implies #[trigger] is_digit(after[j]) by {
                if j < before.len() {
                    assert(after[j] == before[j]);
                }
            }
        } else {
            proof {
                assert(i > 0 || sl == 0);
                let body = s.subrange(sl, s.len() as int);
                assert(body[i - sl] == c);
                assert(!is_digit(body[i - sl]));
                assert(!all_digits(body));
            }
            return None;
        }
        started = true;
    }
    if !any_digit {
        return None;
    }
    if too_big {
        return None;
    }
    if negative {
        let value: i64 = -(magnitude as i64);
        Some(value as i32)
    } else if magnitude <= 2147483647 {
        Some(magnitude as i32)
    } else {
        None
    }
}

} // verus!
