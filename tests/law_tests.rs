use btree_store::index::SeekBias;
use btree_store::keys::{compare_keys, keys_equal};
use btree_store::store::{BTreeStore, Registry, StoreError};
use std::cmp::Ordering;

fn k(x: &str) -> Vec<u8> {
    x.as_bytes().to_vec()
}

fn collect(store: &BTreeStore, reg: &Registry<u64>, ascending: bool) -> Vec<(Vec<u8>, u64)> {
    let bias = if ascending { SeekBias::First } else { SeekBias::Last };
    let mut out = Vec::new();
    if let Some((mut cursor, item)) = store.seek(reg, b"", bias, ascending) {
        out.push((item.key, *item.value));
        while let Some(item) = cursor.next(reg) {
            out.push((item.key, *item.value));
        }
    }
    out
}

fn filled(keys: &[&str]) -> (Registry<u64>, BTreeStore) {
    let mut reg = Registry::new();
    let store = BTreeStore::new(b"ns");
    for (i, key) in keys.iter().enumerate() {
        store.insert(&mut reg, k(key), i as u64).unwrap();
    }
    (reg, store)
}

#[test]
fn compare_keys_orders_bytewise() {
    assert_eq!(compare_keys(b"a", b"b"), Ordering::Less);
    assert_eq!(compare_keys(b"ab", b"a"), Ordering::Greater);
    assert_eq!(compare_keys(b"", b"a"), Ordering::Less);
    assert_eq!(compare_keys(b"abc", b"abc"), Ordering::Equal);
    assert_eq!(compare_keys(&[0xff], &[0x00, 0x01]), Ordering::Greater);
    assert!(keys_equal(b"", b""));
    assert!(!keys_equal(b"a", b"ab"));
}

#[test]
fn count_follows_inserts_and_matched_deletes() {
    let mut reg = Registry::new();
    let store = BTreeStore::new(b"ns");
    store.insert(&mut reg, k("a"), 1u64).unwrap();
    store.insert(&mut reg, k("b"), 2).unwrap();
    store.insert(&mut reg, k("a"), 3).unwrap();
    assert_eq!(store.delete(&mut reg, b"a"), Some(1));
    assert_eq!(store.delete(&mut reg, b"zz"), None);
    store.insert(&mut reg, k("c"), 4).unwrap();
    assert_eq!(store.len(&reg), 3);
}

#[test]
fn duplicate_keys_all_kept_in_insertion_order() {
    let mut reg = Registry::new();
    let store = BTreeStore::new(b"ns");
    store.insert(&mut reg, k("key"), 10u64).unwrap();
    store.insert(&mut reg, k("key"), 20).unwrap();
    assert_eq!(store.len(&reg), 2);
    assert_eq!(store.get(&reg, b"key"), Some(&10));
    assert_eq!(collect(&store, &reg, true), vec![(k("key"), 10), (k("key"), 20)]);
    assert_eq!(store.delete(&mut reg, b"key"), Some(10));
    assert_eq!(store.get(&reg, b"key"), Some(&20));
}

#[test]
fn namespaces_do_not_interact() {
    let mut reg = Registry::new();
    let a = BTreeStore::new(b"ab");
    let b = BTreeStore::new(b"abc");
    a.insert(&mut reg, k("x"), 1u64).unwrap();
    b.insert(&mut reg, k("x"), 2).unwrap();
    b.insert(&mut reg, k("y"), 3).unwrap();
    assert_eq!(a.delete(&mut reg, b"x"), Some(1));
    assert_eq!(a.len(&reg), 0);
    assert_eq!(b.len(&reg), 2);
    assert_eq!(b.get(&reg, b"x"), Some(&2));
    assert_eq!(collect(&b, &reg, true), vec![(k("x"), 2), (k("y"), 3)]);
    let a2 = BTreeStore::new(b"ab");
    a2.insert(&mut reg, k("z"), 9).unwrap();
    assert_eq!(a.get(&reg, b"z"), Some(&9));
}

#[test]
fn traversals_are_sorted_and_reverse() {
    let (reg, store) = filled(&["m", "b", "zz", "b", "a", "ba", "z"]);
    let up = collect(&store, &reg, true);
    let keys: Vec<Vec<u8>> = up.iter().map(|p| p.0.clone()).collect();
    assert_eq!(keys, vec![k("a"), k("b"), k("b"), k("ba"), k("m"), k("z"), k("zz")]);
    assert_eq!(up[1].1, 1);
    assert_eq!(up[2].1, 3);
    let mut down = collect(&store, &reg, false);
    down.reverse();
    assert_eq!(up, down);
}

#[test]
fn bias_correctness() {
    let (reg, store) = filled(&["a", "c", "e"]);
    let key = |x: &str, b: SeekBias| store.seek(&reg, x.as_bytes(), b, true).map(|(_, i)| i.key);
    assert_eq!(key("b", SeekBias::GreaterOrEqual), Some(k("c")));
    assert_eq!(key("d", SeekBias::LessOrEqual), Some(k("c")));
    assert_eq!(key("c", SeekBias::Exact), Some(k("c")));
    assert_eq!(key("z", SeekBias::GreaterOrEqual), None);
    assert_eq!(key("0", SeekBias::LessOrEqual), None);
    assert_eq!(key("z", SeekBias::LessOrEqual), Some(k("e")));
    let (reg2, store2) = filled(&["apple", "banana", "cherry"]);
    assert!(store2.seek(&reg2, b"blueberry", SeekBias::Exact, true).is_none());
}

#[test]
fn seek_on_duplicates_picks_ends_of_the_run() {
    let (reg, store) = filled(&["k", "k", "k"]);
    assert_eq!(*store.seek(&reg, b"k", SeekBias::Exact, true).unwrap().1.value, 0);
    assert_eq!(*store.seek(&reg, b"k", SeekBias::GreaterOrEqual, true).unwrap().1.value, 0);
    assert_eq!(*store.seek(&reg, b"k", SeekBias::LessOrEqual, true).unwrap().1.value, 2);
    assert_eq!(*store.seek(&reg, b"", SeekBias::Last, true).unwrap().1.value, 2);
}

#[test]
fn exhausted_cursor_stays_exhausted() {
    let (reg, store) = filled(&["a"]);
    let (mut cursor, _) = store.seek(&reg, b"", SeekBias::First, true).unwrap();
    assert!(!cursor.is_exhausted());
    assert!(cursor.next(&reg).is_none());
    assert!(cursor.is_exhausted());
    assert!(cursor.next(&reg).is_none());
    assert!(cursor.next(&reg).is_none());
    assert!(cursor.is_ascending());
}

#[test]
fn cursor_delete_keeps_neighbours() {
    let (mut reg, store) = filled(&["a", "b", "c"]);
    let (cursor, item) = store.seek(&reg, b"b", SeekBias::Exact, true).unwrap();
    assert_eq!(item.key, k("b"));
    assert!(cursor.delete(&mut reg));
    assert_eq!(store.len(&reg), 2);
    assert!(store.get(&reg, b"b").is_none());
    assert_eq!(store.get(&reg, b"a"), Some(&0));
    assert_eq!(store.get(&reg, b"c"), Some(&2));
    assert!(!cursor.delete(&mut reg));
    assert_eq!(store.len(&reg), 2);
}

#[test]
fn next_after_cursor_delete_neither_skips_nor_revisits() {
    let (mut reg, store) = filled(&["a", "b", "b", "c"]);
    let (mut up, _) = store.seek(&reg, b"b", SeekBias::Exact, true).unwrap();
    assert!(up.delete(&mut reg));
    let item = up.next(&reg).unwrap();
    assert_eq!((item.key, *item.value), (k("b"), 2));
    let (mut down, _) = store.seek(&reg, b"b", SeekBias::Exact, false).unwrap();
    assert!(down.delete(&mut reg));
    assert_eq!(down.next(&reg).unwrap().key, k("a"));
    assert!(down.next(&reg).is_none());
    assert_eq!(collect(&store, &reg, true), vec![(k("a"), 0), (k("c"), 3)]);
}

#[test]
fn empty_namespace_seek_finds_nothing() {
    let reg: Registry<u64> = Registry::new();
    let store = BTreeStore::new(b"empty");
    for bias in [SeekBias::First, SeekBias::Last, SeekBias::Exact, SeekBias::GreaterOrEqual, SeekBias::LessOrEqual] {
        assert!(store.seek(&reg, b"any", bias, true).is_none());
        assert!(store.seek(&reg, b"", bias, false).is_none());
    }
}

#[test]
fn round_trip_keeps_value() {
    let mut reg = Registry::new();
    let store = BTreeStore::new(b"ns");
    let value = vec![(String::from("name"), String::from("Alice")), (String::from("age"), String::from("30"))];
    store.insert(&mut reg, k("alice"), value.clone()).unwrap();
    assert_eq!(store.get(&reg, b"alice"), Some(&value));
}

#[test]
fn empty_key_is_refused() {
    let mut reg = Registry::new();
    let store = BTreeStore::new(b"ns");
    assert_eq!(store.insert(&mut reg, Vec::new(), 1u64), Err(StoreError::EmptyKey));
    assert_eq!(store.len(&reg), 0);
}

#[test]
fn delete_with_empty_namespace_returns_none() {
    let mut reg: Registry<u64> = Registry::new();
    let store = BTreeStore::new(b"");
    assert_eq!(store.delete(&mut reg, b"a"), None);
    assert_eq!(store.len(&reg), 0);
}
