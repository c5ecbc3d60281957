use paint_server::text::{join_from, parse_room, room_label, split_message};

fn strings(v: &[&str]) -> Vec<String> {
    v.iter().map(|s| s.to_string()).collect()
}

#[test]
fn split_matches_str_split() {
    let samples = ["PUT 7 key [1,2]", "", " ", "a  b", "CHT 1 k hello world ", "x"];
    for s in samples.iter() {
        let expected: Vec<String> = s.split(' ').map(|p| p.to_string()).collect();
        assert_eq!(split_message(s), expected);
    }
}

#[test]
fn split_keeps_multibyte_characters() {
    assert_eq!(split_message("CHT 1 k héllo wörld"), strings(&["CHT", "1", "k", "héllo", "wörld"]));
}

#[test]
fn split_then_join_with_space_gives_message_back() {
    let raw = "RMV 3 key  [\"a\", \"b\"]";
    let fields = split_message(raw);
    assert_eq!(join_from(&fields, 0, " "), raw);
}

#[test]
fn join_from_skips_leading_fields() {
    let fields = strings(&["CHT", "1", "k", "hello", "there", "you"]);
    assert_eq!(join_from(&fields, 3, "_"), "hello_there_you");
    assert_eq!(join_from(&fields, 6, "_"), "");
    assert_eq!(join_from(&fields, 5, "_"), "you");
}

#[test]
fn room_label_matches_to_string() {
    for n in [0, 7, 10, 99, 100, -1, -12, 2147483647, -2147483648, 1234567] {
        assert_eq!(room_label(n), n.to_string());
    }
}

#[test]
fn parse_room_matches_str_parse() {
    let samples = [
        "7", "007", "+5", "-0", "", "-", "+", "2147483647", "2147483648", "-2147483648",
        "-2147483649", "12a", " 1", "1 ", "--1", "+-1", "99999999999999999999", "0", "-7",
        "٣",
    ];
    for s in samples.iter() {
        assert_eq!(parse_room(s), s.parse::<i32>().ok(), "input {:?}", s);
    }
}

#[test]
fn parse_reads_back_room_label() {
    for n in [0, 5, -5, 2147483647, -2147483648, 31415] {
        assert_eq!(parse_room(&room_label(n)), Some(n));
    }
}
