use resp_cache::clock::{count_of, Clock};
use resp_cache::store::{Store, StoreEntry};

fn bytes(text: &str) -> Vec<u8> {
    text.as_bytes().to_vec()
}

#[test]
fn a_new_store_holds_nothing() {
    let store = Store::new();
    assert_eq!(store.get(b"", 0), None);
    assert_eq!(store.get(b"foo", 0), None);
    assert_eq!(store.get(b"foo", u64::MAX), None);
}

#[test]
fn a_value_is_read_back_as_written() {
    let mut store = Store::new();
    store.set(bytes("foo"), bytes("bar"), None, 10);
    assert_eq!(store.get(b"foo", 10), Some(&bytes("bar")));
    assert_eq!(store.get(b"foo", 0), Some(&bytes("bar")));
    assert_eq!(store.get(b"foo", u64::MAX), Some(&bytes("bar")));
}

#[test]
fn values_and_keys_may_hold_any_bytes() {
    let mut store = Store::new();
    let key = vec![0u8, 13, 10, 255];
    let value = bytes("line one\r\nline two\r\n\0");
    store.set(key.clone(), value.clone(), None, 0);
    store.set(Vec::new(), Vec::new(), None, 0);
    assert_eq!(store.get(&key, 1), Some(&value));
    assert_eq!(store.get(b"", 1), Some(&Vec::new()));
    assert_eq!(store.get(&[0u8, 13, 10], 1), None);
}

#[test]
fn an_entry_expires_when_its_time_to_live_has_passed() {
    let mut store = Store::new();
    store.set(bytes("k"), bytes("v"), Some(50), 100);
    assert_eq!(store.get(b"k", 100), Some(&bytes("v")));
    assert_eq!(store.get(b"k", 149), Some(&bytes("v")));
    assert_eq!(store.get(b"k", 150), None);
    assert_eq!(store.get(b"k", 151), None);
}

#[test]
fn a_time_to_live_of_nothing_expires_at_once() {
    let mut store = Store::new();
    store.set(bytes("k"), bytes("v"), Some(0), 100);
    assert_eq!(store.get(b"k", 100), None);
    assert_eq!(store.get(b"k", 99), Some(&bytes("v")));
}

#[test]
fn an_instant_beyond_64_bits_is_never_reached() {
    let mut store = Store::new();
    store.set(bytes("k"), bytes("v"), Some(u64::MAX), 1);
    assert_eq!(store.get(b"k", u64::MAX), Some(&bytes("v")));
    store.set(bytes("j"), bytes("w"), Some(u64::MAX), 0);
    assert_eq!(store.get(b"j", u64::MAX - 1), Some(&bytes("w")));
    assert_eq!(store.get(b"j", u64::MAX), None);
}

#[test]
fn a_write_replaces_value_and_time_to_live() {
    let mut store = Store::new();
    store.set(bytes("k"), bytes("v1"), Some(50), 0);
    store.set(bytes("k"), bytes("v2"), None, 10);
    assert_eq!(store.get(b"k", 10), Some(&bytes("v2")));
    assert_eq!(store.get(b"k", 50), Some(&bytes("v2")));
    assert_eq!(store.get(b"k", 1_000_000), Some(&bytes("v2")));
    store.set(bytes("k"), bytes("v3"), Some(5), 20);
    assert_eq!(store.get(b"k", 24), Some(&bytes("v3")));
    assert_eq!(store.get(b"k", 25), None);
}

#[test]
fn a_write_revives_an_expired_key() {
    let mut store = Store::new();
    store.set(bytes("k"), bytes("old"), Some(1), 0);
    assert_eq!(store.get(b"k", 5), None);
    store.set(bytes("k"), bytes("new"), None, 5);
    assert_eq!(store.get(b"k", 5), Some(&bytes("new")));
}

#[test]
fn keys_do_not_touch_each_other() {
    let mut store = Store::new();
    store.set(bytes("a"), bytes("1"), None, 0);
    store.set(bytes("b"), bytes("2"), Some(10), 0);
    store.set(bytes("ab"), bytes("3"), None, 0);
    store.set(bytes("a"), bytes("4"), None, 1);
    assert_eq!(store.get(b"a", 5), Some(&bytes("4")));
    assert_eq!(store.get(b"b", 5), Some(&bytes("2")));
    assert_eq!(store.get(b"ab", 5), Some(&bytes("3")));
    assert_eq!(store.get(b"b", 10), None);
    assert_eq!(store.get(b"A", 5), None);
}

#[test]
fn removing_expired_entries_changes_no_later_lookup() {
    let mut store = Store::new();
    store.set(bytes("a"), bytes("1"), Some(10), 0);
    store.set(bytes("b"), bytes("2"), Some(20), 0);
    store.set(bytes("c"), bytes("3"), None, 0);
    store.set(bytes("d"), bytes("4"), Some(15), 0);
    store.remove_expired(15);
    let two = bytes("2");
    for later in [15u64, 16, 19, 20, 21, 1000] {
        assert_eq!(store.get(b"a", later), None);
        assert_eq!(
            store.get(b"b", later),
            if later < 20 { Some(&two) } else { None }
        );
        assert_eq!(store.get(b"c", later), Some(&bytes("3")));
        assert_eq!(store.get(b"d", later), None);
    }
}

#[test]
fn removing_expired_entries_drops_them_for_good() {
    let mut store = Store::new();
    store.set(bytes("a"), bytes("1"), Some(10), 0);
    store.set(bytes("b"), bytes("2"), Some(20), 0);
    assert_eq!(store.get(b"a", 5), Some(&bytes("1")));
    store.remove_expired(10);
    assert_eq!(store.get(b"a", 5), None);
    assert_eq!(store.get(b"b", 5), Some(&bytes("2")));
    store.remove_expired(u64::MAX);
    assert_eq!(store.get(b"b", 5), None);
    store.remove_expired(0);
    assert_eq!(store.get(b"b", 0), None);
}

#[test]
fn an_entry_tells_whether_it_is_live() {
    let lasting = StoreEntry { value: bytes("v"), expires_at: None };
    assert!(lasting.is_live(0));
    assert!(lasting.is_live(u64::MAX));
    let passing = StoreEntry { value: bytes("v"), expires_at: Some(100) };
    assert!(passing.is_live(99));
    assert!(!passing.is_live(100));
    let far = StoreEntry { value: bytes("v"), expires_at: Some(u64::MAX as u128 + 1) };
    assert!(far.is_live(u64::MAX));
}

#[test]
fn many_keys_are_kept_apart() {
    let mut store = Store::new();
    for i in 0..200u32 {
        store.set(format!("key{}", i).into_bytes(), format!("value{}", i).into_bytes(), None, 0);
    }
    for i in 0..200u32 {
        store.set(format!("key{}", i).into_bytes(), format!("again{}", i).into_bytes(), None, 1);
    }
    for i in 0..200u32 {
        assert_eq!(
            store.get(format!("key{}", i).as_bytes(), 2),
            Some(&format!("again{}", i).into_bytes())
        );
    }
    assert_eq!(store.get(b"key200", 2), None);
}

#[test]
fn the_clock_does_not_run_backwards() {
    let clock = Clock::start();
    let first = clock.now();
    let second = clock.now();
    assert!(first <= second);
    assert!(second < 60_000);
}

#[test]
fn a_count_of_milliseconds_is_cut_to_64_bits() {
    assert_eq!(count_of(0), 0);
    assert_eq!(count_of(1500), 1500);
    assert_eq!(count_of(u64::MAX as u128), u64::MAX);
    assert_eq!(count_of(u64::MAX as u128 + 1), u64::MAX);
    assert_eq!(count_of(u128::MAX), u64::MAX);
}
