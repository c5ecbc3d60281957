use paint_server::registry::{Client, Registry};

fn client(id: &str, sender: u32, room: i32) -> Client<u32> {
    Client { client_id: id.to_string(), sender, current_room: room, color: (0, 0, 0) }
}

#[test]
fn connect_gives_hex_id_room_zero_and_black() {
    let mut reg: Registry<u32> = Registry::new();
    let id = reg.connect(11);
    assert_eq!(id.len(), 32);
    assert!(id.chars().all(|c| c.is_ascii_hexdigit() && !c.is_ascii_uppercase()));
    let c = reg.get(&id).unwrap();
    assert_eq!(c.current_room, 0);
    assert_eq!(c.color, (0, 0, 0));
    assert_eq!(reg.sender_of(&id), Some(&11));
    let other = reg.connect(12);
    assert_ne!(id, other);
    assert_eq!(reg.len(), 2);
}

#[test]
fn insert_replaces_same_id_in_place() {
    let mut reg: Registry<u32> = Registry::new();
    reg.insert(client("a", 1, 0));
    reg.insert(client("b", 2, 0));
    reg.insert(client("a", 3, 9));
    assert_eq!(reg.len(), 2);
    assert_eq!(reg.find("a"), Some(0));
    assert_eq!(reg.get("a").unwrap().current_room, 9);
    assert_eq!(reg.sender_of("a"), Some(&3));
    assert_eq!(reg.sender_of("b"), Some(&2));
}

#[test]
fn remove_forgets_only_that_client() {
    let mut reg: Registry<u32> = Registry::new();
    reg.insert(client("a", 1, 0));
    reg.insert(client("b", 2, 5));
    reg.remove("a");
    assert!(reg.get("a").is_none());
    assert_eq!(reg.get("b").unwrap().current_room, 5);
    reg.remove("zzz");
    assert_eq!(reg.len(), 1);
}

#[test]
fn set_room_and_color_touch_one_client() {
    let mut reg: Registry<u32> = Registry::new();
    reg.insert(client("a", 1, 0));
    reg.insert(client("b", 2, 0));
    reg.set_room("a", -3);
    reg.set_color("b", (1, 2, 3));
    assert_eq!(reg.get("a").unwrap().current_room, -3);
    assert_eq!(reg.get("a").unwrap().color, (0, 0, 0));
    assert_eq!(reg.get("b").unwrap().current_room, 0);
    assert_eq!(reg.get("b").unwrap().color, (1, 2, 3));
    reg.set_room("nobody", 4);
    assert_eq!(reg.len(), 2);
}

#[test]
fn peers_are_the_others_in_the_room_by_its_decimal_text() {
    let mut reg: Registry<u32> = Registry::new();
    reg.insert(client("a", 1, 7));
    reg.insert(client("b", 2, 7));
    reg.insert(client("c", 3, 8));
    reg.insert(client("d", 4, 7));
    assert_eq!(reg.peers_in_room("a", "7"), vec!["b".to_string(), "d".to_string()]);
    assert_eq!(reg.peers_in_room("c", "7"), vec!["a".to_string(), "b".to_string(), "d".to_string()]);
    assert!(reg.peers_in_room("a", "007").is_empty());
    assert!(reg.peers_in_room("a", "+7").is_empty());
    assert_eq!(reg.peers_in_room("x", "8"), vec!["c".to_string()]);
}

#[test]
fn moved_client_hears_its_room() {
    let mut reg: Registry<u32> = Registry::new();
    reg.insert(client("a", 1, 0));
    reg.insert(client("b", 2, 0));
    reg.set_room("a", 12);
    assert_eq!(reg.peers_in_room("b", "12"), vec!["a".to_string()]);
    assert!(reg.peers_in_room("b", "0").is_empty());
}

#[test]
fn everyone_but_the_sender() {
    let mut reg: Registry<u32> = Registry::new();
    reg.insert(client("a", 1, 1));
    reg.insert(client("b", 2, 2));
    reg.insert(client("c", 3, 3));
    assert_eq!(reg.everyone_but("b"), vec!["a".to_string(), "c".to_string()]);
    assert_eq!(reg.everyone_but("q").len(), 3);
}

#[test]
fn connecting_then_leaving_restores_the_table() {
    let mut reg: Registry<u32> = Registry::new();
    reg.insert(client("a", 1, 4));
    let id = reg.connect(2);
    assert_eq!(reg.len(), 2);
    reg.remove(&id);
    assert_eq!(reg.len(), 1);
    assert!(reg.get(&id).is_none());
    assert_eq!(reg.get("a").unwrap().current_room, 4);
    assert_eq!(reg.sender_of("a"), Some(&1));
}

#[test]
fn chat_recipients_are_every_other_connected_client() {
    let mut reg: Registry<u32> = Registry::new();
    reg.insert(client("a", 1, 3));
    reg.insert(client("b", 2, 7));
    reg.insert(client("c", 3, 3));
    let mut got = reg.everyone_but("c");
    got.sort();
    assert_eq!(got, vec!["a".to_string(), "b".to_string()]);
    assert!(!reg.everyone_but("a").contains(&"a".to_string()));
}

#[test]
fn connect_gives_version_four_ids_and_keeps_other_channels() {
    let mut reg: Registry<u32> = Registry::new();
    let first = reg.connect(5);
    for _ in 0..20 {
        let id = reg.connect(6);
        let digits: Vec<char> = id.chars().collect();
        assert_eq!(digits[12], '4');
        assert!("89ab".contains(digits[16]));
    }
    assert_eq!(reg.sender_of(&first), Some(&5));
    assert_eq!(reg.len(), 21);
}
