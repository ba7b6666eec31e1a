use btree_store::index::SeekBias;
use btree_store::store::{BTreeStore, Registry};

#[derive(Clone, Debug, PartialEq)]
enum Value {
    Str(String),
    U64(u64),
    Bool(bool),
    Person { name: String, age: u64 },
}

fn s(x: &str) -> Value {
    Value::Str(x.to_string())
}

fn u(x: u64) -> Value {
    Value::U64(x)
}

fn k(x: &str) -> Vec<u8> {
    x.as_bytes().to_vec()
}

fn seek_key(store: &BTreeStore, reg: &Registry<Value>, key: &str, bias: SeekBias) -> Option<Vec<u8>> {
    store.seek(reg, key.as_bytes(), bias, true).map(|(_, item)| item.key)
}

#[test]
fn test_btree_store_new() {
    let reg: Registry<Value> = Registry::new();
    let store = BTreeStore::new(b"test_namespace");
    assert_eq!(store.len(&reg), 0);
}

#[test]
fn test_btree_store_insert_and_len() {
    let mut reg = Registry::new();
    let store = BTreeStore::new(b"test");
    store.insert(&mut reg, k("key1"), s("hello")).unwrap();
    store.insert(&mut reg, k("key2"), u(42)).unwrap();
    store.insert(&mut reg, k("key3"), Value::Bool(true)).unwrap();
    assert_eq!(store.len(&reg), 3);
}

#[test]
fn test_btree_store_get_returns_optional() {
    let mut reg = Registry::new();
    let store = BTreeStore::new(b"test");
    assert!(store.get(&reg, b"nonexistent").is_none());
    store.insert(&mut reg, k("key"), u(123)).unwrap();
    assert!(store.get(&reg, b"key").is_some());
}

#[test]
fn test_btree_store_len() {
    let mut reg = Registry::new();
    let store = BTreeStore::new(b"test");
    assert_eq!(store.len(&reg), 0);
    store.insert(&mut reg, k("a"), u(1)).unwrap();
    assert_eq!(store.len(&reg), 1);
    store.insert(&mut reg, k("b"), u(2)).unwrap();
    assert_eq!(store.len(&reg), 2);
    store.insert(&mut reg, k("c"), u(3)).unwrap();
    assert_eq!(store.len(&reg), 3);
}

#[test]
fn test_btree_store_delete() {
    let mut reg = Registry::new();
    let store = BTreeStore::new(b"test");
    store.insert(&mut reg, k("key1"), u(100)).unwrap();
    store.insert(&mut reg, k("key2"), u(200)).unwrap();
    assert_eq!(store.len(&reg), 2);
    let deleted = store.delete(&mut reg, b"key1");
    assert!(deleted.is_some());
    assert_eq!(store.len(&reg), 1);
    assert!(store.get(&reg, b"key1").is_none());
    assert!(store.get(&reg, b"key2").is_some());
}

#[test]
fn test_btree_store_update() {
    let mut reg = Registry::new();
    let store = BTreeStore::new(b"test");
    store.insert(&mut reg, k("key"), s("original")).unwrap();
    assert_eq!(store.len(&reg), 1);
    store.insert(&mut reg, k("key"), s("updated")).unwrap();
    assert_eq!(store.len(&reg), 2);
}

#[test]
fn test_btree_store_seek_first() {
    let mut reg = Registry::new();
    let store = BTreeStore::new(b"test");
    store.insert(&mut reg, k("b"), u(2)).unwrap();
    store.insert(&mut reg, k("a"), u(1)).unwrap();
    store.insert(&mut reg, k("c"), u(3)).unwrap();
    let result = store.seek(&reg, b"", SeekBias::First, true);
    assert!(result.is_some());
    let (_cursor, item) = result.unwrap();
    assert_eq!(item.key, k("a"));
}

#[test]
fn test_btree_store_seek_last() {
    let mut reg = Registry::new();
    let store = BTreeStore::new(b"test");
    store.insert(&mut reg, k("b"), u(2)).unwrap();
    store.insert(&mut reg, k("a"), u(1)).unwrap();
    store.insert(&mut reg, k("c"), u(3)).unwrap();
    let result = store.seek(&reg, b"", SeekBias::Last, false);
    assert!(result.is_some());
    let (_cursor, item) = result.unwrap();
    assert_eq!(item.key, k("c"));
}

#[test]
fn test_btree_store_cursor_iteration() {
    let mut reg = Registry::new();
    let store = BTreeStore::new(b"test");
    store.insert(&mut reg, k("a"), u(1)).unwrap();
    store.insert(&mut reg, k("b"), u(2)).unwrap();
    store.insert(&mut reg, k("c"), u(3)).unwrap();
    let result = store.seek(&reg, b"", SeekBias::First, true);
    assert!(result.is_some());
    let (mut cursor, first_item) = result.unwrap();
    assert_eq!(first_item.key, k("a"));
    let next = cursor.next(&reg);
    assert!(next.is_some());
    assert_eq!(next.unwrap().key, k("b"));
    let next2 = cursor.next(&reg);
    assert!(next2.is_some());
    assert_eq!(next2.unwrap().key, k("c"));
    assert!(cursor.next(&reg).is_none());
}

#[test]
fn test_btree_store_seek_exact() {
    let mut reg = Registry::new();
    let store = BTreeStore::new(b"test");
    store.insert(&mut reg, k("apple"), u(1)).unwrap();
    store.insert(&mut reg, k("banana"), u(2)).unwrap();
    store.insert(&mut reg, k("cherry"), u(3)).unwrap();
    let result = store.seek(&reg, b"banana", SeekBias::Exact, true);
    assert!(result.is_some());
    assert_eq!(result.unwrap().1.key, k("banana"));
    assert!(store.seek(&reg, b"blueberry", SeekBias::Exact, true).is_none());
}

#[test]
fn test_btree_store_seek_greater_or_equal() {
    let mut reg = Registry::new();
    let store = BTreeStore::new(b"test");
    store.insert(&mut reg, k("a"), u(1)).unwrap();
    store.insert(&mut reg, k("c"), u(3)).unwrap();
    store.insert(&mut reg, k("e"), u(5)).unwrap();
    assert_eq!(seek_key(&store, &reg, "b", SeekBias::GreaterOrEqual), Some(k("c")));
    assert_eq!(seek_key(&store, &reg, "c", SeekBias::GreaterOrEqual), Some(k("c")));
}

#[test]
fn test_btree_store_multiple_namespaces() {
    let mut reg = Registry::new();
    let store1 = BTreeStore::new(b"namespace1");
    let store2 = BTreeStore::new(b"namespace2");
    store1.insert(&mut reg, k("key"), u(111)).unwrap();
    store2.insert(&mut reg, k("key"), u(222)).unwrap();
    assert_eq!(store1.get(&reg, b"key"), Some(&u(111)));
    assert_eq!(store2.get(&reg, b"key"), Some(&u(222)));
    assert_eq!(store1.len(&reg), 1);
    assert_eq!(store2.len(&reg), 1);
}

#[test]
fn test_btree_store_cursor_delete() {
    let mut reg = Registry::new();
    let store = BTreeStore::new(b"test");
    store.insert(&mut reg, k("a"), u(1)).unwrap();
    store.insert(&mut reg, k("b"), u(2)).unwrap();
    store.insert(&mut reg, k("c"), u(3)).unwrap();
    let (cursor, item) = store.seek(&reg, b"b", SeekBias::Exact, true).unwrap();
    assert_eq!(item.key, k("b"));
    assert!(cursor.delete(&mut reg));
    assert_eq!(store.len(&reg), 2);
    assert!(store.get(&reg, b"b").is_none());
}

#[test]
fn test_btree_store_empty_seek() {
    let reg: Registry<Value> = Registry::new();
    let store = BTreeStore::new(b"test");
    assert!(store.seek(&reg, b"any", SeekBias::First, true).is_none());
}

#[test]
fn test_btree_store_complex_values() {
    let mut reg = Registry::new();
    let store = BTreeStore::new(b"people");
    let alice = Value::Person { name: "Alice".to_string(), age: 30 };
    let bob = Value::Person { name: "Bob".to_string(), age: 25 };
    store.insert(&mut reg, k("alice"), alice.clone()).unwrap();
    store.insert(&mut reg, k("bob"), bob).unwrap();
    assert_eq!(store.len(&reg), 2);
    let retrieved = store.get(&reg, b"alice");
    assert!(retrieved.is_some());
    assert_eq!(retrieved, Some(&alice));
}

#[test]
fn test_btree_store_bytes_keys() {
    let mut reg = Registry::new();
    let store = BTreeStore::new(b"test");
    store.insert(&mut reg, vec![0u8, 1, 2], u(1)).unwrap();
    store.insert(&mut reg, k("hello world"), u(2)).unwrap();
    store.insert(&mut reg, k("x"), u(3)).unwrap();
    assert_eq!(store.len(&reg), 3);
    assert!(store.get(&reg, &[0u8, 1, 2]).is_some());
    assert!(store.get(&reg, b"hello world").is_some());
    assert!(store.get(&reg, b"x").is_some());
}

#[test]
fn test_btree_store_seek_less_or_equal() {
    let mut reg = Registry::new();
    let store = BTreeStore::new(b"test");
    store.insert(&mut reg, k("a"), u(1)).unwrap();
    store.insert(&mut reg, k("c"), u(3)).unwrap();
    store.insert(&mut reg, k("e"), u(5)).unwrap();
    assert_eq!(seek_key(&store, &reg, "d", SeekBias::LessOrEqual), Some(k("c")));
}

#[test]
fn test_btree_store_descending_iteration() {
    let mut reg = Registry::new();
    let store = BTreeStore::new(b"test");
    store.insert(&mut reg, k("a"), u(1)).unwrap();
    store.insert(&mut reg, k("b"), u(2)).unwrap();
    store.insert(&mut reg, k("c"), u(3)).unwrap();
    let (mut cursor, item) = store.seek(&reg, b"", SeekBias::Last, false).unwrap();
    assert_eq!(item.key, k("c"));
    assert_eq!(cursor.next(&reg).unwrap().key, k("b"));
    assert_eq!(cursor.next(&reg).unwrap().key, k("a"));
    assert!(cursor.next(&reg).is_none());
}

#[test]
fn test_btree_store_delete_nonexistent() {
    let mut reg = Registry::new();
    let store = BTreeStore::new(b"test");
    store.insert(&mut reg, k("key"), u(123)).unwrap();
    assert!(store.delete(&mut reg, b"nonexistent").is_none());
    assert_eq!(store.len(&reg), 1);
    assert!(store.get(&reg, b"key").is_some());
}
