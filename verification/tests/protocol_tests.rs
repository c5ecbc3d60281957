use paint_server::protocol::{
    chat_notice, chat_reply, clear_notice, client_msg, command_named, delete_reply, get_reply, put_reply,
    remove_notice, update_notice, Command, Keys,
};

fn keys() -> Keys {
    Keys { paint: "pk".to_string(), erase: "pek".to_string(), erase_delete: "pedk".to_string() }
}

#[test]
fn client_msg_names_each_command() {
    let cases = [
        ("GET 1", Command::Get),
        ("PUT 1 pk []", Command::Put),
        ("DEL 1 pedk", Command::Delete),
        ("RMV 1 pek []", Command::Remove),
        ("CHT 1 pedk hi", Command::Chat),
    ];
    for (raw, cmd) in cases.iter() {
        let (c, fields) = client_msg(raw);
        assert_eq!(c, *cmd);
        assert_eq!(fields.join(" "), *raw);
    }
}

#[test]
fn other_first_words_name_no_command() {
    assert_eq!(command_named("get"), None);
    assert_eq!(command_named(""), None);
    assert_eq!(command_named("GETX"), None);
    assert_eq!(command_named("HELLO"), None);
    assert_eq!(command_named("RMV"), Some(Command::Remove));
    assert_eq!(command_named("CHT"), Some(Command::Chat));
}

#[test]
fn client_msg_keeps_empty_fields() {
    let (c, fields) = client_msg("GET  7 ");
    assert_eq!(c, Command::Get);
    assert_eq!(fields, vec!["GET", "", "7", ""]);
}

#[test]
fn keys_open_commands_by_tier() {
    let k = keys();
    let key = |s: &str| s.to_string();
    assert!(k.allows(Command::Get, &key("anything")));
    assert!(k.allows(Command::Put, &key("pk")));
    assert!(k.allows(Command::Put, &key("pek")));
    assert!(k.allows(Command::Put, &key("pedk")));
    assert!(!k.allows(Command::Put, &key("nope")));
    assert!(!k.allows(Command::Remove, &key("pk")));
    assert!(k.allows(Command::Remove, &key("pek")));
    assert!(k.allows(Command::Remove, &key("pedk")));
    assert!(!k.allows(Command::Delete, &key("pek")));
    assert!(k.allows(Command::Delete, &key("pedk")));
    assert!(!k.allows(Command::Chat, &key("pk")));
    assert!(k.allows(Command::Chat, &key("pedk")));
}

#[test]
fn top_key_opens_every_command() {
    let k = keys();
    for c in [Command::Get, Command::Put, Command::Remove, Command::Delete, Command::Chat] {
        assert!(k.allows(c, &"pedk".to_string()));
    }
}

#[test]
fn server_texts() {
    assert_eq!(get_reply("[1]"), "GET_RES [1]");
    assert_eq!(put_reply(), "PUT_RES FILE_WRITTEN_SUCCESSFULLY");
    assert_eq!(delete_reply(), "DEL_RES FILE_DELETED_SUCCESSFULLY");
    assert_eq!(chat_reply(), "CHT_SELF_RES CHAT_SENT_SUCCESSFULLY");
    assert_eq!(update_notice("4", "[]"), "UPD_RES 4 []");
    assert_eq!(clear_notice("4"), "CLR_RES 4");
    assert_eq!(remove_notice("[\"a\"]"), "RMV_RES [\"a\"]");
    assert_eq!(chat_notice("{}"), "CHT_RES {}");
}
