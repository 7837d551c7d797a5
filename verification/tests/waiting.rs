use secret_chat::service::message::Message;
use secret_chat::config::{
    default_address, default_database_backend, default_database_path, default_port, Config,
};
use secret_chat::database::build_database;
use secret_chat::database::engine::memory::MemEngine;
use secret_chat::service::message_state::{deliver, ready_messages, woken_answer, NotifyMap};

fn message(content: &str) -> Message {
    Message { send: "a".to_string(), recv: "b".to_string(), content: content.to_string() }
}

#[test]
fn waiting_users() {
    let mut map: NotifyMap<u32> = NotifyMap::new();
    map.insert("b".to_string(), 1);
    map.insert("c".to_string(), 2);
    map.insert("b".to_string(), 3);
    assert_eq!(map.remove(&"b".to_string()), Some(3));
    assert_eq!(map.remove(&"b".to_string()), None);
    assert_eq!(map.remove(&"c".to_string()), Some(2));
    assert_eq!(map.remove(&"d".to_string()), None);
}

#[test]
fn reads_with_messages_answer_at_once() {
    let ready = ready_messages(Some((vec![message("x")], "3".to_string())));
    assert_eq!(ready, Some((vec![message("x")], "3".to_string())));
    assert_eq!(ready_messages(Some((vec![], "3".to_string()))), None);
    assert_eq!(ready_messages(None), None);
}

#[test]
fn woken_read_answers_with_the_message() {
    // the receiver had four messages; the new one is its fifth
    assert_eq!(woken_answer(Some((message("y"), 5))), Some((vec![message("y")], "5".to_string())));
    assert_eq!(woken_answer(None), None);
}

#[test]
fn delivery_wakes_the_receiver_with_its_count() {
    let config = Config {
        address: default_address(),
        port: default_port(),
        database_backend: default_database_backend(),
        database_path: default_database_path(),
    };
    let mut db = build_database::<MemEngine>(config).unwrap();
    // user0 has four messages
    for content in ["1", "2", "3", "4"] {
        let m = Message { send: "user1".to_string(), recv: "user0".to_string(), content: content.to_string() };
        db.send_message(m).unwrap();
    }
    let mut waiting: NotifyMap<u32> = NotifyMap::new();
    waiting.insert("user0".to_string(), 7);
    let m = Message {
        send: "user1".to_string(),
        recv: "user0".to_string(),
        content: "message in state".to_string(),
    };
    let delivered = deliver(&mut db, &mut waiting, m.clone()).unwrap();
    assert_eq!(delivered, Some((7, m.clone(), 5)));
    let (waiter, message, count) = delivered.unwrap();
    assert_eq!(waiter, 7);
    assert_eq!(woken_answer(Some((message, count))), Some((vec![m.clone()], "5".to_string())));
    // nobody waits any more
    assert_eq!(deliver(&mut db, &mut waiting, m).unwrap(), None);
}
