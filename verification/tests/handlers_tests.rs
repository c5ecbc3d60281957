use paint_server::chat::Chat;
use paint_server::handlers::{
    chat_io, chat_io_with_color, delete_dots, deserialize_dot_ids_from_string, get_dots,
    put_dots, remove_dots, remove_listed, try_remove_dots, ChatOutcome, DeleteOutcome, GetOutcome, PutOutcome, RemoveOutcome,
};
use paint_server::protocol::{client_msg, Keys};
use paint_server::registry::{Client, Registry};

fn keys() -> Keys {
    Keys { paint: "pk".to_string(), erase: "pek".to_string(), erase_delete: "pedk".to_string() }
}

fn fields(raw: &str) -> Vec<String> {
    client_msg(raw).1
}

fn table() -> Registry<u32> {
    let mut reg = Registry::new();
    for (id, room) in [("a", 1), ("b", 1), ("c", 2)] {
        reg.insert(Client { client_id: id.to_string(), sender: 0, current_room: room, color: (0, 0, 0) });
    }
    reg
}

#[test]
fn chat_needs_the_top_key() {
    let mut reg = table();
    let out = chat_io(&keys(), &mut reg, "a", &fields("CHT 1 pek hello"));
    assert!(matches!(out, ChatOutcome::Refused));
    assert_eq!(reg.get("a").unwrap().color, (0, 0, 0));
}

#[test]
fn chat_from_unknown_client_does_nothing() {
    let mut reg = table();
    let out = chat_io(&keys(), &mut reg, "zz", &fields("CHT 1 pedk hello"));
    assert!(matches!(out, ChatOutcome::Unknown));
}

#[test]
fn chat_goes_to_everyone_else_with_underscored_text() {
    let mut reg = table();
    let out = chat_io_with_color(&keys(), &mut reg, "b", &fields("CHT 1 pedk hello big world"), (9, 8, 7));
    match out {
        ChatOutcome::Sent { chat, peers } => {
            assert_eq!(chat.user, "b");
            assert_eq!(chat.message, "hello_big_world");
            assert_eq!(chat.color, (9, 8, 7));
            assert_eq!(peers, vec!["a".to_string(), "c".to_string()]);
        }
        _ => panic!("chat was not sent"),
    }
    assert_eq!(reg.get("b").unwrap().color, (9, 8, 7));
}

#[test]
fn chat_keeps_a_colour_once_given() {
    let mut reg = table();
    reg.set_color("a", (5, 5, 5));
    match chat_io(&keys(), &mut reg, "a", &fields("CHT 1 pedk")) {
        ChatOutcome::Sent { chat, .. } => {
            assert_eq!(chat.color, (5, 5, 5));
            assert_eq!(chat.message, "");
        }
        _ => panic!("chat was not sent"),
    }
}

#[test]
fn chat_default_is_empty() {
    let c = Chat::default();
    assert_eq!(c.message, "");
    assert_eq!(c.user, "");
    assert_eq!(c.color, (0, 0, 0));
}

#[test]
fn get_moves_client_into_room() {
    let mut reg = table();
    assert_eq!(get_dots(&mut reg, "c", &fields("GET 007")), GetOutcome::Entered(7));
    assert_eq!(reg.get("c").unwrap().current_room, 7);
    assert_eq!(reg.peers_in_room("a", "7"), vec!["c".to_string()]);
    assert!(reg.peers_in_room("a", "007").is_empty());
}

#[test]
fn get_with_bad_room_leaves_client() {
    let mut reg = table();
    assert_eq!(get_dots(&mut reg, "c", &fields("GET lobby")), GetOutcome::BadRoom);
    assert_eq!(reg.get("c").unwrap().current_room, 2);
    assert_eq!(get_dots(&mut reg, "zz", &fields("GET 3")), GetOutcome::Unknown);
}

#[test]
fn put_reaches_the_rest_of_the_room() {
    let reg = table();
    match put_dots(&keys(), &reg, "a", &fields("PUT 1 pk [x]")) {
        PutOutcome::Accepted { room, payload, peers, reply } => {
            assert_eq!(room, "1");
            assert_eq!(payload, "[x]");
            assert_eq!(peers, vec!["b".to_string()]);
            assert!(reply);
        }
        PutOutcome::Refused => panic!("refused"),
    }
    assert!(matches!(put_dots(&keys(), &reg, "a", &fields("PUT 1 bad")), PutOutcome::Refused));
    match put_dots(&keys(), &reg, "zz", &fields("PUT 2 pek []")) {
        PutOutcome::Accepted { peers, reply, .. } => {
            assert_eq!(peers, vec!["c".to_string()]);
            assert!(!reply);
        }
        PutOutcome::Refused => panic!("refused"),
    }
}

#[test]
fn delete_needs_top_key_and_a_connected_sender_to_notify() {
    let reg = table();
    assert!(matches!(delete_dots(&keys(), &reg, "a", &fields("DEL 1 pek")), DeleteOutcome::Refused));
    match delete_dots(&keys(), &reg, "a", &fields("DEL 1 pedk")) {
        DeleteOutcome::Deleted { room, notify } => {
            assert_eq!(room, "1");
            assert_eq!(notify, Some(vec!["b".to_string()]));
        }
        DeleteOutcome::Refused => panic!("refused"),
    }
    match delete_dots(&keys(), &reg, "zz", &fields("DEL 1 pedk")) {
        DeleteOutcome::Deleted { notify, .. } => assert_eq!(notify, None),
        DeleteOutcome::Refused => panic!("refused"),
    }
}

#[test]
fn remove_reads_ids_and_frames_them_again() {
    let reg = table();
    match remove_dots(&keys(), &reg, "b", &fields("RMV 1 pek [\"d1\",\"d2\"]")) {
        RemoveOutcome::Accepted { ids, notice, room, peers } => {
            assert_eq!(ids, vec!["d1".to_string(), "d2".to_string()]);
            assert_eq!(notice, "RMV_RES [\"d1\",\"d2\"]");
            assert_eq!(room, "1");
            assert_eq!(peers, vec!["a".to_string()]);
        }
        RemoveOutcome::Refused => panic!("refused"),
    }
    assert!(matches!(remove_dots(&keys(), &reg, "b", &fields("RMV 1 pk x")), RemoveOutcome::Refused));
    assert!(matches!(try_remove_dots(&keys(), &reg, "b", &fields("RMV 1 pk x")), Ok(RemoveOutcome::Refused)));
    assert!(try_remove_dots(&keys(), &reg, "b", &fields("RMV 1 pedk notjson")).is_err());
    assert!(matches!(
        try_remove_dots(&keys(), &reg, "b", &fields("RMV 1 pedk [\"d1\"]")),
        Ok(RemoveOutcome::Accepted { .. })
    ));
}

#[test]
fn dot_ids_are_a_json_array_of_strings() {
    assert_eq!(deserialize_dot_ids_from_string("[\"x\", \"y z\"]").unwrap(), vec!["x".to_string(), "y z".to_string()]);
    assert_eq!(deserialize_dot_ids_from_string("[]").unwrap(), Vec::<String>::new());
    assert!(deserialize_dot_ids_from_string("[1]").is_err());
    assert!(deserialize_dot_ids_from_string("").is_err());
}

fn rmv(ids_json: &str) -> Vec<String> {
    vec!["RMV".to_string(), "1".to_string(), "pek".to_string(), ids_json.to_string()]
}

#[test]
fn remove_notice_escapes_ids_as_compact_json() {
    let reg = table();
    let raw = r#"["a\"b","c\\d","e\nf","\u0001x","\b\f\r\t","\u001f"]"#;
    match remove_dots(&keys(), &reg, "b", &rmv(raw)) {
        RemoveOutcome::Accepted { ids, notice, .. } => {
            assert_eq!(ids, vec!["a\"b", "c\\d", "e\nf", "\u{1}x", "\u{8}\u{c}\r\t", "\u{1f}"]);
            assert_eq!(notice, format!("RMV_RES {}", raw));
        }
        RemoveOutcome::Refused => panic!("refused"),
    }
}

#[test]
fn remove_notice_writes_ids_back_in_their_plain_form() {
    let reg = table();
    let raw = "[ \"y\\u0041\" , \"\\/\", \"\u{7f}é\" ]";
    match remove_dots(&keys(), &reg, "b", &rmv(raw)) {
        RemoveOutcome::Accepted { ids, notice, .. } => {
            assert_eq!(ids, vec!["yA", "/", "\u{7f}é"]);
            assert_eq!(notice, "RMV_RES [\"yA\",\"/\",\"\u{7f}é\"]");
        }
        RemoveOutcome::Refused => panic!("refused"),
    }
}

#[test]
fn remove_listed_frames_ids_for_the_room() {
    let reg = table();
    match remove_listed(&reg, "a", "1", vec!["p\"q".to_string(), "r".to_string()]) {
        RemoveOutcome::Accepted { ids, notice, room, peers } => {
            assert_eq!(ids, vec!["p\"q", "r"]);
            assert_eq!(notice, "RMV_RES [\"p\\\"q\",\"r\"]");
            assert_eq!(room, "1");
            assert_eq!(peers, vec!["b".to_string()]);
        }
        RemoveOutcome::Refused => panic!("refused"),
    }
}
