use secret_chat::config::{
    default_address, default_database_backend, default_database_path, default_port, Config,
};
use secret_chat::database::engine::memory::{MemEngine, MemTable};
use secret_chat::database::key_value::OrderedTable;
use secret_chat::database::{build_database, Database};
use secret_chat::utility::error::Error;
use secret_chat::utility::{password_encode, random_string, string_from_bytes};

fn argon2_verify(hash: &str, pwd: &[u8]) -> Option<bool> {
    argon2::verify_encoded(hash, pwd).ok()
}

fn database() -> Database<MemTable> {
    let config = Config {
        address: default_address(),
        port: default_port(),
        database_backend: default_database_backend(),
        database_path: default_database_path(),
    };
    build_database::<MemEngine>(config).unwrap()
}

#[test]
fn user_lifecycle() {
    let mut db = database();
    let user = "@carl:example.com".to_string();

    assert_eq!(db.user_exists(&user).unwrap(), false);
    assert_eq!(db.get_password(&user).unwrap(), None);

    db.set_password(&user, Some("password")).unwrap();
    assert_eq!(
        argon2_verify(&db.get_password(&user).unwrap().unwrap(), "password".as_bytes()),
        Some(true)
    );

    let token = db.set_token(&user).unwrap();
    assert_eq!(db.from_token(token.clone()).unwrap(), Some(user.clone()));
    let new_token = db.set_token(&user).unwrap();
    assert_eq!(db.from_token(new_token).unwrap(), Some(user.clone()));
    assert_eq!(db.from_token(token.clone()).unwrap(), None);

    assert_eq!(db.user_exists(&user).unwrap(), true);

    let users = db.users().unwrap();
    assert_eq!(users.len(), 1);
    assert_eq!(users[0], user);
}

#[test]
fn register_without_password_stores_empty_hash() {
    let mut db = database();
    let user = "nopass".to_string();
    db.set_password(&user, None).unwrap();
    assert_eq!(db.get_password(&user).unwrap(), Some(String::new()));
    assert_eq!(argon2_verify("", b""), None);
}

#[test]
fn wrong_password_does_not_verify() {
    let hash = password_encode("secret").unwrap();
    assert_eq!(argon2_verify(&hash, b"secret"), Some(true));
    assert_eq!(argon2_verify(&hash, b"Secret"), Some(false));
    assert!(hash.starts_with("$argon2"));
}

#[test]
fn two_hashes_of_one_password_differ_by_salt() {
    let a = password_encode("same").unwrap();
    let b = password_encode("same").unwrap();
    assert_ne!(a, b);
}

#[test]
fn tokens_are_alphanumeric() {
    let mut db = database();
    let token = db.set_token(&"u".to_string()).unwrap();
    assert_eq!(token.len(), 32);
    assert!(token.chars().all(|c| c.is_ascii_alphanumeric()));
    let s = random_string(5);
    assert_eq!(s.chars().count(), 5);
    assert!(random_string(0).is_empty());
}

#[test]
fn unknown_token_names_no_one() {
    let db = database();
    assert_eq!(db.from_token("nope".to_string()).unwrap(), None);
}

#[test]
fn users_in_name_order() {
    let mut db = database();
    for name in ["carol", "alice", "bob"] {
        db.set_password(&name.to_string(), None).unwrap();
    }
    assert_eq!(db.users().unwrap(), vec!["alice".to_string(), "bob".to_string(), "carol".to_string()]);
}

#[test]
fn public_keys_read_back() {
    let mut db = database();
    assert_eq!(db.get_key("alice").unwrap(), None);
    db.set_key("alice", vec![0, 1, 2, 250]).unwrap();
    assert_eq!(db.get_key("alice").unwrap(), Some(vec![0, 1, 2, 250]));
    db.set_key("alice", vec![]).unwrap();
    assert_eq!(db.get_key("alice").unwrap(), Some(vec![]));
    assert!(db.validate().unwrap());
}

#[test]
fn checked_key_read_tests_the_stored_text() {
    let mut db = database();
    assert_eq!(db.get_key_checked("alice").unwrap(), Some(None));
    db.set_key("alice", vec![7, 8]).unwrap();
    assert_eq!(db.get_key_checked("alice").unwrap(), Some(Some(vec![7, 8])));
    db.user_key.insert(b"bob", b"not base64!").unwrap();
    assert_eq!(db.get_key_checked("bob").unwrap(), None);
}

#[test]
fn public_key_is_stored_as_base64() {
    let mut db = database();
    db.set_key("k", vec![1, 2, 3]).unwrap();
    assert_eq!(db.user_key.get(b"k").unwrap(), Some(b"AQID".to_vec()));
}

#[test]
fn corrupt_password_hash_is_a_database_error() {
    let mut db = database();
    db.user_password.insert(b"bad", &[0xff, 0xfe]).unwrap();
    match db.get_password(&"bad".to_string()) {
        Err(Error::BadDatabase(msg)) => {
            assert_eq!(msg, "Password hash in db table user-password is not valid string.")
        }
        _ => panic!("expected a database error"),
    }
    assert!(db.validate().unwrap());
    db.user_password.insert(&[0xff], b"x").unwrap();
    assert!(!db.validate().unwrap());
}

#[test]
fn corrupt_token_entry_is_a_database_error() {
    let mut db = database();
    db.token_user.insert(b"tok", &[0xc3]).unwrap();
    match db.from_token("tok".to_string()) {
        Err(Error::BadDatabase(msg)) => assert_eq!(msg, "User ID in token-user is invalid unicode."),
        _ => panic!("expected a database error"),
    }
    db.user_token.insert(b"u", &[0xc3]).unwrap();
    match db.set_token(&"u".to_string()) {
        Err(Error::BadDatabase(msg)) => assert_eq!(msg, "User ID in token-user is invalid unicode."),
        _ => panic!("expected a database error"),
    }
}

#[test]
fn malformed_tables_are_found() {
    let mut db = database();
    db.user_count.insert(b"u", &[1, 2, 3]).unwrap();
    assert!(!db.validate().unwrap());
    let mut db = database();
    db.user_key.insert(b"u", b"not base64!").unwrap();
    assert!(!db.validate().unwrap());
    let mut db = database();
    db.user_messageid.insert(b"u000000", b"missing").unwrap();
    assert!(!db.validate().unwrap());
    let mut db = database();
    db.messageid_message.insert(b"id", &[1]).unwrap();
    assert!(!db.validate().unwrap());
}

#[test]
fn string_from_bytes_checks_utf8() {
    assert_eq!(string_from_bytes(b"abc".to_vec()).unwrap(), "abc");
    assert!(string_from_bytes(vec![0xff]).is_err());
}

#[test]
fn login_verifies_against_the_stored_hash() {
    let mut db = database();
    let user = "dora".to_string();
    db.set_password(&user, Some("correct horse")).unwrap();
    let hash = db.get_password(&user).unwrap().unwrap();
    assert!(hash.starts_with("$argon2i$v=19$m=4096,t=3,p=1$"));
    assert_eq!(argon2_verify(&hash, b"correct horse"), Some(true));
}

#[test]
fn new_token_keeps_other_users_tokens() {
    let mut db = database();
    let w = "w".to_string();
    let u = "u".to_string();
    let tw = db.set_token(&w).unwrap();
    let old = db.set_token(&u).unwrap();
    let new = db.set_token(&u).unwrap();
    assert_eq!(db.from_token(new).unwrap(), Some(u.clone()));
    assert_eq!(db.from_token(old).unwrap(), None);
    assert_eq!(db.from_token(tw).unwrap(), Some(w));
}
