use std::cell::RefCell;
use std::collections::BTreeMap;
use std::rc::Rc;

use secret_chat::config::{
    default_address, default_database_backend, default_database_path, default_port, Config,
};
use secret_chat::database::build_database;
use secret_chat::database::engine::backed::BackedEngine;
use secret_chat::database::engine::DBEngine;
use secret_chat::database::key_value::{Backend, OrderedTable, TupleOfByte, KV};
use secret_chat::service::message::Message;
use secret_chat::utility::error::{Error, Result};

type Rows = Rc<RefCell<BTreeMap<Vec<u8>, Vec<u8>>>>;

/// A store that keeps each table in a sorted map.
struct MapStore(RefCell<BTreeMap<String, Rows>>);

/// A table of a `MapStore`.
struct MapTable(Rows);

impl KV for MapTable {
    fn get(&self, key: &[u8]) -> Result<Option<Vec<u8>>> {
        Ok(self.0.borrow().get(key).cloned())
    }

    fn insert(&self, key: &[u8], value: &[u8]) -> Result<()> {
        self.0.borrow_mut().insert(key.to_vec(), value.to_vec());
        Ok(())
    }

    fn remove(&self, key: &[u8]) -> Result<()> {
        self.0.borrow_mut().remove(key);
        Ok(())
    }

    fn iter(&self) -> Result<Vec<TupleOfByte>> {
        Ok(self.0.borrow().iter().map(|(k, v)| (k.clone(), v.clone())).collect())
    }

    fn iter_form(&self, key_prefix: &str, from: &[u8]) -> Result<Vec<TupleOfByte>> {
        let p = key_prefix.as_bytes();
        Ok(self
            .0
            .borrow()
            .iter()
            .filter(|(k, _)| k.starts_with(p) && &k[p.len()..] >= from)
            .map(|(k, v)| (k.clone(), v.clone()))
            .collect())
    }
}

impl Backend for MapStore {
    type Table = MapTable;

    fn open(_config: &Config) -> Result<Self> {
        Ok(MapStore(RefCell::new(BTreeMap::new())))
    }

    fn open_table(&self, name: &str) -> Result<MapTable> {
        let rows = self.0.borrow_mut().entry(name.to_string()).or_default().clone();
        Ok(MapTable(rows))
    }

    fn flush(&self) -> Result<()> {
        Ok(())
    }
}

/// A store whose opening fails with an error of another kind.
struct BrokenStore;

impl Backend for BrokenStore {
    type Table = MapTable;

    fn open(_config: &Config) -> Result<Self> {
        Err(Error::bad_config("no such store"))
    }

    fn open_table(&self, _name: &str) -> Result<MapTable> {
        Err(Error::bad_config("no such store"))
    }

    fn flush(&self) -> Result<()> {
        Ok(())
    }
}

fn config() -> Config {
    Config {
        address: default_address(),
        port: default_port(),
        database_backend: default_database_backend(),
        database_path: default_database_path(),
    }
}

#[test]
fn backed_table_goes_through_the_backend() {
    let mut engine = BackedEngine::<MapStore>::open(&config()).unwrap();
    let mut t = engine.open_tree("t").unwrap();
    t.insert(b"b", &[2]).unwrap();
    t.insert(b"a", &[1]).unwrap();
    assert_eq!(t.get(b"a").unwrap(), Some(vec![1]));
    assert_eq!(t.iter().unwrap(), vec![(b"a".to_vec(), vec![1]), (b"b".to_vec(), vec![2])]);
    t.remove(b"a").unwrap();
    assert_eq!(t.get(b"a").unwrap(), None);
    assert_eq!(t.iter_form("", b"b").unwrap(), vec![(b"b".to_vec(), vec![2])]);
    assert!(engine.flush().is_ok());
}

#[test]
fn a_table_is_opened_once() {
    let mut engine = BackedEngine::<MapStore>::open(&config()).unwrap();
    assert!(engine.open_tree("t").is_ok());
    assert!(engine.open_tree("u").is_ok());
    match engine.open_tree("t") {
        Err(Error::BadDatabase(msg)) => assert_eq!(msg, "The table is already open."),
        _ => panic!("a second handle on one table was given out"),
    }
    // a table name is compared without regard to case
    match engine.open_tree("T") {
        Err(Error::BadDatabase(msg)) => assert_eq!(msg, "The table is already open."),
        _ => panic!("a second handle on one table was given out"),
    }
    // only plain names are taken
    for name in ["main.t", "", "1t", "t-u", "\"t\""] {
        match engine.open_tree(name) {
            Err(Error::BadDatabase(msg)) => assert_eq!(msg, "The table name is not a plain name."),
            _ => panic!("a name that is not plain was taken"),
        }
    }
    assert!(engine.open_tree("User_Key2").is_ok());
}

#[test]
fn backend_failures_are_storage_errors() {
    match BackedEngine::<BrokenStore>::open(&config()) {
        Err(Error::SqliteError { source }) => assert_eq!(source, "no such store"),
        _ => panic!("expected a storage error"),
    }
}

#[test]
fn database_over_a_backend() {
    let mut db = build_database::<BackedEngine<MapStore>>(config()).unwrap();
    assert!(db.validate().unwrap());
    assert_eq!(db.users().unwrap(), Vec::<String>::new());
    assert_eq!(db.get_count("a").unwrap(), 0);
    let m = Message { send: "a".to_string(), recv: "b".to_string(), content: "c".to_string() };
    db.send_message(m.clone()).unwrap();
    let (msgs, next) = db.recv_message("b", "0").unwrap().unwrap();
    assert_eq!(msgs, vec![m]);
    assert_eq!(next, "1");
    // the message tables are apart from the user tables
    assert_eq!(db.users().unwrap(), Vec::<String>::new());
}
