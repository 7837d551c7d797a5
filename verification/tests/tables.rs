use secret_chat::database::engine::memory::MemTable;
use secret_chat::database::key_value::OrderedTable;

fn entry(key: &str, value: u8) -> (Vec<u8>, Vec<u8>) {
    (key.as_bytes().to_vec(), vec![value])
}

#[test]
fn memory_table_get_insert_remove() {
    let mut table = MemTable::new();
    let key = "test_key".as_bytes();
    assert_eq!(table.get(key).unwrap(), None);
    table.insert(key, &[1]).unwrap();
    let row = table.get(key).unwrap().unwrap();
    assert_eq!(row.len(), 1);
    assert_eq!(row[0], 1);
    table.remove(key).unwrap();
    assert_eq!(table.get(key).unwrap(), None);
}

#[test]
fn memory_table_insert_replaces() {
    let mut table = MemTable::new();
    table.insert(b"k", &[1]).unwrap();
    table.insert(b"k", &[2, 3]).unwrap();
    assert_eq!(table.get(b"k").unwrap(), Some(vec![2, 3]));
    assert_eq!(table.iter().unwrap().len(), 1);
}

#[test]
fn memory_table_remove_missing_key_is_fine() {
    let mut table = MemTable::new();
    table.insert(b"a", &[1]).unwrap();
    table.remove(b"b").unwrap();
    assert_eq!(table.iter().unwrap(), vec![entry("a", 1)]);
}

#[test]
fn memory_table_iterates_in_key_order() {
    let mut table = MemTable::new();
    table.insert("user3".as_bytes(), &[3]).unwrap();
    table.insert("user1".as_bytes(), &[1]).unwrap();
    table.insert("user4".as_bytes(), &[4]).unwrap();
    table.insert("user2".as_bytes(), &[2]).unwrap();
    let all = table.iter().unwrap();
    assert_eq!(
        all,
        vec![entry("user1", 1), entry("user2", 2), entry("user3", 3), entry("user4", 4)]
    );
}

#[test]
fn memory_table_range_scan() {
    let mut table = MemTable::new();
    table.insert("user1".as_bytes(), &[1]).unwrap();
    table.insert("user2".as_bytes(), &[2]).unwrap();
    table.insert("user3".as_bytes(), &[3]).unwrap();
    table.insert("user4".as_bytes(), &[4]).unwrap();
    let from_three = table.iter_form("user", "3".as_bytes()).unwrap();
    assert_eq!(from_three, vec![entry("user3", 3), entry("user4", 4)]);
    let out_of_bound = table.iter_form("user", "5".as_bytes()).unwrap();
    assert!(out_of_bound.is_empty());
}

#[test]
fn memory_table_range_scan_needs_the_prefix() {
    let mut table = MemTable::new();
    table.insert(b"alice000001", &[1]).unwrap();
    table.insert(b"bob000000", &[2]).unwrap();
    table.insert(b"ali", &[3]).unwrap();
    let alice = table.iter_form("alice", b"000000").unwrap();
    assert_eq!(alice, vec![entry("alice000001", 1)]);
    let everything = table.iter_form("", b"").unwrap();
    assert_eq!(everything.len(), 3);
}

#[test]
fn memory_table_shorter_key_sorts_first() {
    let mut table = MemTable::new();
    table.insert(b"ab", &[2]).unwrap();
    table.insert(b"a", &[1]).unwrap();
    table.insert(b"", &[0]).unwrap();
    let keys: Vec<Vec<u8>> = table.iter().unwrap().into_iter().map(|e| e.0).collect();
    assert_eq!(keys, vec![b"".to_vec(), b"a".to_vec(), b"ab".to_vec()]);
}

#[test]
fn later_scan_start_gives_a_tail() {
    let mut table = MemTable::new();
    for (k, v) in [("user1", 1u8), ("user2", 2), ("user3", 3), ("other", 9)] {
        table.insert(k.as_bytes(), &[v]).unwrap();
    }
    let from_one = table.iter_form("user", b"1").unwrap();
    let from_two = table.iter_form("user", b"2").unwrap();
    assert_eq!(from_two.as_slice(), &from_one[1..]);
    let everything = table.iter_form("user", b"").unwrap();
    assert_eq!(everything.len(), 3);
}

#[test]
fn removing_twice_is_removing_once() {
    let mut table = MemTable::new();
    table.insert(b"a", &[1]).unwrap();
    table.insert(b"b", &[2]).unwrap();
    table.remove(b"a").unwrap();
    let once = table.iter().unwrap();
    table.remove(b"a").unwrap();
    assert_eq!(table.iter().unwrap(), once);
    assert_eq!(table.get(b"a").unwrap(), None);
    assert_eq!(table.get(b"b").unwrap(), Some(vec![2]));
}
