use storecheck::store::{Cache, Store};

#[test]
fn returns_none_for_unknown_key() {
    let store: Store<()> = Store::new();
    assert_eq!(store.seq, 0);
    assert_eq!(store.read("x"), None);
}

#[test]
fn stores_a_new_value() {
    let mut store = Store::new();
    assert_eq!(store.write("x", None, 'a'), Some(1));
    assert_eq!(store.seq, 1);
    assert_eq!(store.read("x"), Some((1, 'a')));
}

#[test]
fn does_not_update_a_value_without_a_rev() {
    let mut store = Store::new();
    store.write("x", None, 'a');

    assert_eq!(store.write("x", None, 'b'), None);
    assert_eq!(store.seq, 1);
    assert_eq!(store.read("x"), Some((1, 'a')));
}

#[test]
fn does_not_update_a_value_with_a_bad_rev() {
    let mut store = Store::new();
    let rev = store.write("x", None, 'a').unwrap();

    assert_eq!(store.write("x", Some(rev + 1), 'b'), None);
    assert_eq!(store.seq, 1);
    assert_eq!(store.read("x"), Some((1, 'a')));
}

#[test]
fn updates_a_value_with_a_matching_rev() {
    let mut store = Store::new();
    let rev = store.write("x", None, 'a').unwrap();

    assert_eq!(store.write("x", Some(rev), 'b'), Some(2));
    assert_eq!(store.seq, 2);
    assert_eq!(store.read("x"), Some((2, 'b')));
}

#[test]
fn removes_a_value() {
    let mut store = Store::new();
    let rev = store.write("x", None, 'a').unwrap();

    assert_eq!(store.remove("x", Some(rev)), Some(2));
    assert_eq!(store.read("x"), None);
}

#[test]
fn updates_a_different_key() {
    let mut store = Store::new();
    store.write("x", None, 'a').unwrap();

    assert_eq!(store.write("y", None, 'z'), Some(1));
    assert_eq!(store.seq, 2);
    assert_eq!(store.read("x"), Some((1, 'a')));
    assert_eq!(store.read("y"), Some((1, 'z')));
}

#[test]
fn returns_a_copy_of_the_stored_value() {
    let mut store = Store::new();
    store.write("x", None, vec![4, 5, 6]);

    let (_, mut a) = store.read("x").unwrap();
    a.push(7);

    assert_eq!(store.read("x"), Some((1, vec![4, 5, 6])));
}

#[test]
fn returns_all_the_keys_in_the_store() {
    let mut store = Store::new();

    store.write("/", None, 'a');
    store.write("/path/", None, 'b');
    store.write("/z/doc.json", None, 'c');

    let keys: Vec<String> = store.keys();
    assert_eq!(keys, ["/", "/path/", "/z/doc.json"]);
}

#[test]
fn returns_none_for_an_unknown_key() {
    let store: Store<()> = Store::new();
    let mut cache = Cache::new();

    assert_eq!(cache.read(&store, "x"), None);
}

#[test]
fn reads_a_value_from_the_store() {
    let mut store = Store::new();
    let mut cache = Cache::new();

    assert_eq!(store.write("x", None, 'a'), Some(1));
    assert_eq!(cache.read(&store, "x"), Some('a'));
}

#[test]
fn returns_a_copy_of_the_cached_value() {
    let mut store = Store::new();
    let mut cache = Cache::new();

    cache.write(&mut store, "x", vec![4, 5, 6]);

    let mut a = cache.read(&store, "x").unwrap();
    a.push(7);

    assert_eq!(cache.read(&store, "x"), Some(vec![4, 5, 6]));
}

#[test]
fn caches_a_read_that_returns_none() {
    let mut store = Store::new();
    let mut cache = Cache::new();

    assert_eq!(cache.read(&store, "x"), None);
    assert_eq!(store.write("x", None, 'a'), Some(1));
    assert_eq!(cache.read(&store, "x"), None);
}

#[test]
fn writes_a_value_to_the_store() {
    let mut store = Store::new();
    let mut cache = Cache::new();

    assert_eq!(cache.write(&mut store, "x", 'a'), true);

    assert_eq!(store.read("x"), Some((1, 'a')));
    assert_eq!(cache.read(&store, "x"), Some('a'));
}

#[test]
fn updates_a_value_in_the_store() {
    let mut store = Store::new();
    let mut cache = Cache::new();

    assert_eq!(cache.write(&mut store, "x", 'a'), true);
    assert_eq!(cache.write(&mut store, "x", 'b'), true);
    assert_eq!(cache.write(&mut store, "x", 'c'), true);

    assert_eq!(store.read("x"), Some((3, 'c')));
    assert_eq!(cache.read(&store, "x"), Some('c'));
}

#[test]
fn removes_a_value_from_the_store() {
    let mut store = Store::new();
    let mut cache = Cache::new();

    assert_eq!(cache.write(&mut store, "x", 'a'), true);
    assert_eq!(cache.remove(&mut store, "x"), true);

    assert_eq!(store.read("x"), None);
    assert_eq!(cache.read(&store, "x"), None);
}

#[test]
fn fails_to_update_a_doc_it_did_not_read_first() {
    let mut store = Store::new();
    let mut cache = Cache::new();

    assert_eq!(store.write("x", None, 'a'), Some(1));
    assert_eq!(cache.write(&mut store, "x", 'b'), false);

    assert_eq!(store.read("x"), Some((1, 'a')));
    assert_eq!(cache.read(&store, "x"), Some('a'));
}

#[test]
fn fails_to_update_with_a_stale_read() {
    let mut store = Store::new();
    let mut cache = Cache::new();

    assert_eq!(cache.write(&mut store, "x", 'a'), true);

    assert_eq!(store.write("x", Some(1), 'c'), Some(2));
    assert_eq!(cache.write(&mut store, "x", 'b'), false);

    assert_eq!(store.read("x"), Some((2, 'c')));
}

#[test]
fn fails_to_delete_with_a_stale_read() {
    let mut store = Store::new();
    let mut cache = Cache::new();

    assert_eq!(cache.write(&mut store, "x", 'a'), true);

    assert_eq!(store.write("x", Some(1), 'c'), Some(2));
    assert_eq!(cache.remove(&mut store, "x"), false);

    assert_eq!(store.read("x"), Some((2, 'c')));
}

#[test]
fn recovers_after_a_failed_write() {
    let mut store = Store::new();
    let mut cache = Cache::new();

    assert_eq!(cache.write(&mut store, "x", 'a'), true);

    assert_eq!(store.write("x", Some(1), 'c'), Some(2));
    assert_eq!(cache.write(&mut store, "x", 'b'), false);

    assert_eq!(cache.read(&store, "x"), Some('c'));
    assert_eq!(cache.write(&mut store, "x", 'b'), true);

    assert_eq!(store.read("x"), Some((3, 'b')));
    assert_eq!(cache.read(&store, "x"), Some('b'));
}

#[test]
fn allows_multiple_clients_to_mutate_the_store() {
    let mut store = Store::new();
    let mut a = Cache::new();
    let mut b = Cache::new();

    assert_eq!(a.write(&mut store, "x", 'a'), true);
    assert_eq!(b.write(&mut store, "y", 'b'), true);

    assert_eq!(a.write(&mut store, "y", 'a'), false);
    assert_eq!(b.write(&mut store, "x", 'b'), false);

    assert_eq!(a.read(&store, "y"), Some('b'));
    assert_eq!(b.read(&store, "x"), Some('a'));
}

#[test]
fn rewrites_a_key_it_removed_itself() {
    let mut store = Store::new();
    let mut cache = Cache::new();

    assert_eq!(cache.write(&mut store, "x", 'a'), true);
    assert_eq!(cache.remove(&mut store, "x"), true);
    assert_eq!(cache.read(&store, "x"), None);

    // The cache remembers the revision of the tombstone it installed, so
    // the rewrite presents it and succeeds.
    assert_eq!(cache.write(&mut store, "x", 'b'), true);
    assert_eq!(store.read("x"), Some((3, 'b')));
    assert_eq!(cache.read(&store, "x"), Some('b'));
}

#[test]
fn removes_and_rewrites_a_key_it_only_read() {
    let mut store = Store::new();
    let mut cache = Cache::new();

    assert_eq!(store.write("x", None, 'a'), Some(1));
    assert_eq!(cache.read(&store, "x"), Some('a'));
    assert_eq!(cache.remove(&mut store, "x"), true);
    assert_eq!(cache.read(&store, "x"), None);
    assert_eq!(cache.write(&mut store, "x", 'c'), true);
    assert_eq!(store.read("x"), Some((3, 'c')));
}
