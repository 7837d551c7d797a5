use secret_chat::api;
use secret_chat::config::{
    IpAddress, default_address, default_database_backend, default_database_path, default_port, Config,
};
use secret_chat::database::engine::memory::{MemEngine, MemTable};
use secret_chat::database::{build_database, Database};
use secret_chat::service::message::Message;
use secret_chat::utility::error::Error;

fn database() -> Database<MemTable> {
    let config = Config {
        address: default_address(),
        port: default_port(),
        database_backend: default_database_backend(),
        database_path: default_database_path(),
    };
    build_database::<MemEngine>(config).unwrap()
}

fn register(db: &mut Database<MemTable>, name: &str, password: &str) -> String {
    api::user::register::register_route(
        db,
        api::user::register::Body {
            username: name.to_string(),
            password: Some(password.to_string()),
        },
    )
    .unwrap()
    .token
}

fn bad_request(r: Result<impl Sized, Error>) -> &'static str {
    match r {
        Err(Error::BadRequest(msg)) => msg,
        Err(e) => panic!("unexpected error {:?}", e),
        Ok(_) => panic!("expected a refusal"),
    }
}

#[test]
fn ping_pongs() {
    assert_eq!(api::ping(), "pong");
}

#[test]
fn register_then_login() {
    let mut db = database();
    let token = register(&mut db, "alice", "pw");
    assert_eq!(token.len(), 32);
    let login = api::user::login::login_route(
        &mut db,
        api::user::login::Body { username: "alice".to_string(), password: "pw".to_string() },
    )
    .unwrap();
    assert_ne!(login.token, token);
    assert_eq!(db.from_token(login.token.clone()).unwrap(), Some("alice".to_string()));
    assert_eq!(db.from_token(token).unwrap(), None);
}

#[test]
fn login_refusals() {
    let mut db = database();
    register(&mut db, "alice", "pw");
    let wrong = api::user::login::login_route(
        &mut db,
        api::user::login::Body { username: "alice".to_string(), password: "nope".to_string() },
    );
    assert_eq!(bad_request(wrong), "Wrong password.");
    let unknown = api::user::login::login_route(
        &mut db,
        api::user::login::Body { username: "bob".to_string(), password: "pw".to_string() },
    );
    assert_eq!(bad_request(unknown), "Wrong username.");
}

#[test]
fn login_without_password_fails() {
    let mut db = database();
    api::register::register_route(
        &mut db,
        api::register::Body { username: "nopw".to_string(), password: None },
    )
    .unwrap();
    let r = api::user::login::login_route(
        &mut db,
        api::user::login::Body { username: "nopw".to_string(), password: "".to_string() },
    );
    assert_eq!(bad_request(r), "Wrong password.");
}

#[test]
fn register_twice_is_refused() {
    let mut db = database();
    register(&mut db, "alice", "pw");
    let again = api::user::register::register_route(
        &mut db,
        api::user::register::Body { username: "alice".to_string(), password: None },
    );
    assert_eq!(bad_request(again), "this user is exists");
}

#[test]
fn old_register_route_allows_reregistering() {
    let mut db = database();
    register(&mut db, "alice", "pw");
    let again = api::register::register_route(
        &mut db,
        api::register::Body { username: "alice".to_string(), password: Some("new".to_string()) },
    )
    .unwrap();
    assert_eq!(db.from_token(again.token).unwrap(), Some("alice".to_string()));
}

#[test]
fn check_token_names_the_user() {
    let mut db = database();
    let token = register(&mut db, "alice", "pw");
    api::user::check::check_token(&db, token.clone(), api::user::check::Body { name: "alice".to_string() })
        .unwrap();
    let other = api::user::check::check_token(
        &db,
        token,
        api::user::check::Body { name: "bob".to_string() },
    );
    assert_eq!(bad_request(other), "Wrong token.");
    let unknown = api::user::check::check_token(
        &db,
        "x".to_string(),
        api::user::check::Body { name: "alice".to_string() },
    );
    assert_eq!(bad_request(unknown), "Wrong token.");
}

#[test]
fn user_list_leaves_out_the_caller() {
    let mut db = database();
    let token = register(&mut db, "bob", "pw");
    register(&mut db, "alice", "pw");
    register(&mut db, "carol", "pw");
    let users = api::user::users::get_users(&db, token.clone()).unwrap().users;
    assert_eq!(users, vec!["alice".to_string(), "carol".to_string()]);
    let all = api::user::get_users(&db, token).unwrap().users;
    assert_eq!(all, vec!["alice".to_string(), "bob".to_string(), "carol".to_string()]);
    assert_eq!(bad_request(api::user::users::get_users(&db, "bad".to_string())), "Wrong token.");
    assert_eq!(bad_request(api::user::get_users(&db, "bad".to_string())), "Wrong token.");
}

#[test]
fn send_and_receive_through_handlers() {
    let mut db = database();
    let alice = register(&mut db, "alice", "pw");
    let bob = register(&mut db, "bob", "pw");
    let m = Message { send: "alice".to_string(), recv: "bob".to_string(), content: "hi".to_string() };
    api::send::send(&mut db, api::send::Body { token: alice.clone(), message: m.clone() }).unwrap();
    let resp = api::message::recv::recv(
        &db,
        bob.clone(),
        api::message::recv::Body { since: "0".to_string() },
    )
    .unwrap();
    assert_eq!(resp.messages, vec![m.clone()]);
    assert_eq!(resp.next_since, "1");
    let again = api::recv::recv(
        &db,
        api::recv::Body { token: bob.clone(), since: resp.next_since.clone() },
    )
    .unwrap();
    assert!(again.messages.is_empty());
    assert_eq!(again.next_since, "1");
}

#[test]
fn sending_as_someone_else_is_refused() {
    let mut db = database();
    let alice = register(&mut db, "alice", "pw");
    let m = Message { send: "bob".to_string(), recv: "alice".to_string(), content: "hi".to_string() };
    let r = api::send::send(&mut db, api::send::Body { token: alice, message: m.clone() });
    assert_eq!(bad_request(r), "Wrong user.");
    let r = api::send::send(&mut db, api::send::Body { token: "nope".to_string(), message: m });
    assert_eq!(bad_request(r), "Wrong token.");
    assert_eq!(db.get_count("alice").unwrap(), 0);
}

#[test]
fn receive_with_bad_token_is_refused() {
    let db = database();
    let r = api::message::recv::recv(&db, "nope".to_string(), api::message::recv::Body { since: "0".to_string() });
    assert_eq!(bad_request(r), "Wrong token.");
    let r = api::recv::recv(&db, api::recv::Body { token: "nope".to_string(), since: "0".to_string() });
    assert_eq!(bad_request(r), "Wrong token.");
}

#[test]
fn public_key_exchange() {
    let mut db = database();
    let alice = register(&mut db, "alice", "pw");
    let bob = register(&mut db, "bob", "pw");
    api::key::send::send_key(&mut db, alice, api::key::send::Body { public_key: vec![9, 8, 7] }).unwrap();
    let resp = api::key::get::get_key(&db, bob.clone(), api::key::get::Body { username: "alice".to_string() })
        .unwrap();
    assert_eq!(resp.public_key, vec![9, 8, 7]);
    let missing = api::key::get::get_key(&db, bob, api::key::get::Body { username: "carol".to_string() });
    assert_eq!(bad_request(missing), "Wrong username.");
    let unknown = api::key::get::get_key(&db, "x".to_string(), api::key::get::Body { username: "alice".to_string() });
    assert_eq!(bad_request(unknown), "Wrong token.");
    let r = api::key::send::send_key(&mut db, "x".to_string(), api::key::send::Body { public_key: vec![1] });
    assert_eq!(bad_request(r), "Wrong token.");
}

#[test]
fn error_status_codes() {
    assert_eq!(Error::BadRequest("x").status_code(), 400);
    assert_eq!(Error::bad_config("x").status_code(), 500);
    assert_eq!(Error::bad_database("x").status_code(), 500);
    assert_eq!(Error::SqliteError { source: "disk".to_string() }.status_code(), 500);
    assert!(matches!(Error::bad_config("c"), Error::BadConfig("c")));
    assert!(matches!(Error::bad_database("d"), Error::BadDatabase("d")));
}

#[test]
fn error_messages() {
    assert_eq!(Error::BadRequest("Wrong token.").message(), "Wrong token.");
    assert_eq!(Error::bad_config("Database backend not found.").message(), "Database backend not found.");
    assert_eq!(Error::bad_database("broken").message(), "broken");
    assert_eq!(
        Error::SqliteError { source: "disk I/O error".to_string() }.message(),
        "There was a problem with the connection to the sqlite database: disk I/O error"
    );
}

#[test]
fn configuration_text() {
    let config = Config {
        address: default_address(),
        port: 1234,
        database_backend: "sqlite".to_string(),
        database_path: "/tmp".to_string(),
    };
    assert_eq!(
        config.text("127.0.0.1"),
        "Server address: 127.0.0.1\nServer port: 1234\nDatabase backend: sqlite\nDatabase path: /tmp\n"
    );
}

#[test]
fn configuration_defaults() {
    assert_eq!(default_address(), IpAddress::V4([127, 0, 0, 1]));
    assert_eq!(default_port(), 8000);
    assert_eq!(default_database_backend(), "sqlite");
    assert_eq!(default_database_path(), "");
}
