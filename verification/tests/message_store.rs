use secret_chat::config::{
    default_address, default_database_backend, default_database_path, default_port, Config,
};
use secret_chat::database::engine::memory::{MemEngine, MemTable};
use secret_chat::database::{build_database, Database};
use secret_chat::service::message::Message;
use secret_chat::utility::error::Error;

fn config() -> Config {
    Config {
        address: default_address(),
        port: default_port(),
        database_backend: default_database_backend(),
        database_path: default_database_path(),
    }
}

fn database() -> Database<MemTable> {
    build_database::<MemEngine>(config()).unwrap()
}

fn message(send: &str, recv: &str, content: &str) -> Message {
    Message { send: send.to_string(), recv: recv.to_string(), content: content.to_string() }
}

#[test]
fn unknown_backend_is_refused() {
    let mut c = config();
    c.database_backend = "rocksdb".to_string();
    match build_database::<MemEngine>(c) {
        Err(Error::BadConfig(msg)) => assert_eq!(msg, "Database backend not found."),
        _ => panic!("expected a configuration error"),
    }
}

#[test]
fn fresh_database_is_well_formed() {
    let db = database();
    assert!(db.validate().unwrap());
}

#[test]
fn send_and_receive_messages() {
    let mut db = database();
    // one message from user0 to user1
    let message0_01 = message("user0", "user1", "hello");
    db.send_message(message0_01.clone()).unwrap();

    let tuple0 = db.recv_message("user0", "0").unwrap().unwrap();
    assert_eq!(tuple0.0, vec![message0_01.clone()]);
    assert_eq!(tuple0.1, "1");

    let tuple1 = db.recv_message("user1", "0").unwrap().unwrap();
    assert_eq!(tuple1.0, vec![message0_01.clone()]);
    assert_eq!(tuple1.1, "1");

    // several messages
    let message0_01 = message("user0", "user1", "hello");
    db.send_message(message0_01.clone()).unwrap();
    let message1_10 = message("user1", "user0", "world");
    db.send_message(message1_10.clone()).unwrap();
    let message2_20 = message("user2", "user0", "hello");
    db.send_message(message2_20.clone()).unwrap();
    let message3_12 = message("user1", "user2", "world");
    db.send_message(message3_12.clone()).unwrap();

    let tuple0 = db.recv_message("user0", "1").unwrap().unwrap();
    assert_eq!(
        tuple0.0,
        vec![message0_01.clone(), message1_10.clone(), message2_20.clone()]
    );
    assert_eq!(tuple0.1, "4");

    let tuple1 = db.recv_message("user1", "1").unwrap().unwrap();
    assert_eq!(
        tuple1.0,
        vec![message0_01.clone(), message1_10.clone(), message3_12.clone()]
    );
    assert_eq!(tuple1.1, "4");

    let tuple2 = db.recv_message("user2", "0").unwrap().unwrap();
    assert_eq!(tuple2.0, vec![message2_20.clone(), message3_12.clone()]);
    assert_eq!(tuple2.1, "2");
    assert!(db.validate().unwrap());
}

#[test]
fn counts_advance_for_both_sides() {
    let mut db = database();
    assert_eq!(db.get_count("a").unwrap(), 0);
    db.send_message(message("a", "b", "x")).unwrap();
    assert_eq!(db.get_count("a").unwrap(), 1);
    assert_eq!(db.get_count("b").unwrap(), 1);
    db.send_message(message("b", "c", "y")).unwrap();
    assert_eq!(db.get_count("b").unwrap(), 2);
    assert_eq!(db.get_count("c").unwrap(), 1);
}

#[test]
fn read_after_write_gives_the_message() {
    let mut db = database();
    db.send_message(message("alice", "bob", "first")).unwrap();
    let (msgs, next) = db.recv_message("bob", "0").unwrap().unwrap();
    assert_eq!(msgs.len(), 1);
    let m = message("carol", "bob", "second");
    db.send_message(m.clone()).unwrap();
    let (msgs, next2) = db.recv_message("bob", &next).unwrap().unwrap();
    assert_eq!(msgs, vec![m]);
    assert_eq!(next2, "2");
}

#[test]
fn nothing_new_gives_no_messages() {
    let mut db = database();
    db.send_message(message("a", "b", "x")).unwrap();
    let (msgs, next) = db.recv_message("b", "1").unwrap().unwrap();
    assert!(msgs.is_empty());
    assert_eq!(next, "1");
    let (msgs, next) = db.recv_message("nobody", "0").unwrap().unwrap();
    assert!(msgs.is_empty());
    assert_eq!(next, "0");
}

#[test]
fn message_to_oneself_is_filed_twice() {
    let mut db = database();
    let m = message("me", "me", "note");
    db.send_message(m.clone()).unwrap();
    let (msgs, next) = db.recv_message("me", "0").unwrap().unwrap();
    assert_eq!(msgs, vec![m.clone(), m]);
    assert_eq!(next, "2");
}

#[test]
fn since_with_plus_sign() {
    let mut db = database();
    db.send_message(message("a", "b", "x")).unwrap();
    db.send_message(message("a", "b", "y")).unwrap();
    let (msgs, _) = db.recv_message("b", "+1").unwrap().unwrap();
    assert_eq!(msgs, vec![message("a", "b", "y")]);
}

#[test]
fn names_that_begin_another_name_share_a_range() {
    // the scan is by prefix, so "user1" also sees the indices of "user12"
    let mut db = database();
    db.send_message(message("x", "user12", "for user12")).unwrap();
    let (msgs, next) = db.recv_message("user1", "0").unwrap().unwrap();
    assert_eq!(msgs, vec![message("x", "user12", "for user12")]);
    assert_eq!(next, "0");
}

#[test]
fn sender_reads_own_message_from_old_count() {
    let mut db = database();
    db.send_message(message("alice", "bob", "first")).unwrap();
    let a = db.get_count("alice").unwrap();
    let m = message("alice", "carol", "second");
    db.send_message(m.clone()).unwrap();
    let (msgs, next) = db.recv_message("alice", &a.to_string()).unwrap().unwrap();
    assert_eq!(msgs, vec![m]);
    assert_eq!(next, (a + 1).to_string());
}

#[test]
fn counts_follow_the_history_of_sends() {
    let mut db = database();
    let history = [("a", "b"), ("b", "c"), ("a", "c"), ("c", "c"), ("b", "a")];
    for (s, r) in history {
        db.send_message(message(s, r, "m")).unwrap();
    }
    for u in ["a", "b", "c", "d"] {
        let named = history.iter().filter(|(s, _)| *s == u).count()
            + history.iter().filter(|(_, r)| *r == u).count();
        assert_eq!(db.get_count(u).unwrap(), named as u128);
    }
}

#[test]
fn reads_follow_the_history_of_sends() {
    let mut db = database();
    let history = [
        message("ann", "bob", "1"),
        message("bob", "cat", "2"),
        message("cat", "ann", "3"),
        message("ann", "cat", "4"),
        message("bob", "ann", "5"),
    ];
    for m in history.iter() {
        db.send_message(m.clone()).unwrap();
    }
    for u in ["ann", "bob", "cat"] {
        let mail: Vec<Message> =
            history.iter().filter(|m| m.send == u || m.recv == u).cloned().collect();
        for since in 0..=mail.len() + 1 {
            let (msgs, next) = db.recv_message(u, &since.to_string()).unwrap().unwrap();
            assert_eq!(msgs, mail.iter().skip(since).cloned().collect::<Vec<_>>());
            assert_eq!(next, mail.len().to_string());
        }
    }
}
