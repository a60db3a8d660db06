use resp_store::store::store::{normalize_idx, Store};
use resp_store::store::types::{Entry, StoreError, Value};
use std::collections::VecDeque;

fn strings(items: &[&str]) -> VecDeque<String> {
    items.iter().map(|s| s.to_string()).collect()
}

fn owned(items: &[&str]) -> Vec<String> {
    items.iter().map(|s| s.to_string()).collect()
}

fn text_of(entry: &Entry) -> Option<String> {
    match &entry.value {
        Value::String(s) => Some(s.clone()),
        Value::List(_) => None,
    }
}

#[test]
fn store_set_then_get() {
    let mut store = Store::new();
    assert!(store.set("a".to_string(), "1".to_string(), None).is_none());
    let got = store.get("a").unwrap().map(text_of);
    assert_eq!(got, Some(Some("1".to_string())));
}

#[test]
fn store_set_gives_back_previous_entry() {
    let mut store = Store::new();
    store.set("a".to_string(), "1".to_string(), None);
    let previous = store.set("a".to_string(), "2".to_string(), None).unwrap();
    assert_eq!(text_of(&previous), Some("1".to_string()));
    let got = store.get("a").unwrap().map(text_of);
    assert_eq!(got, Some(Some("2".to_string())));
}

#[test]
fn store_get_missing_key() {
    let mut store = Store::new();
    assert!(store.get("nothing").unwrap().is_none());
}

#[test]
fn store_delete_removes_entry() {
    let mut store = Store::new();
    store.set("a".to_string(), "1".to_string(), None);
    let removed = store.delete("a").unwrap();
    assert_eq!(text_of(&removed), Some("1".to_string()));
    assert!(store.delete("a").is_none());
    assert!(store.get("a").unwrap().is_none());
}

#[test]
fn store_expired_entry_is_removed_on_read() {
    let mut store = Store::new();
    store.set("old".to_string(), "x".to_string(), Some(1));
    assert!(store.get("old").unwrap().is_none());
    assert!(store.delete("old").is_none());
}

#[test]
fn store_entry_with_far_expiry_stays() {
    let mut store = Store::new();
    store.set("k".to_string(), "v".to_string(), Some(u64::MAX));
    let got = store.get("k").unwrap().map(text_of);
    assert_eq!(got, Some(Some("v".to_string())));
}

#[test]
fn store_rpush_appends_and_counts() {
    let mut store = Store::new();
    assert_eq!(store.rpush("l".to_string(), strings(&["a", "b"])), Ok(2));
    assert_eq!(store.rpush("l".to_string(), strings(&["c"])), Ok(3));
    assert_eq!(store.lrange("l", 0, -1), Ok(owned(&["a", "b", "c"])));
    assert_eq!(store.llen("l"), Ok(3));
}

#[test]
fn store_lpush_reverses() {
    let mut store = Store::new();
    assert_eq!(store.lpush("l".to_string(), strings(&["a", "b", "c"])), Ok(3));
    assert_eq!(store.lpush("l".to_string(), strings(&["d"])), Ok(4));
    assert_eq!(store.lrange("l", 0, -1), Ok(owned(&["d", "c", "b", "a"])));
}

#[test]
fn store_push_onto_string_is_refused() {
    let mut store = Store::new();
    store.set("s".to_string(), "x".to_string(), None);
    assert_eq!(store.rpush("s".to_string(), strings(&["a"])), Err(StoreError::KeyTaken));
    assert_eq!(store.lpush("s".to_string(), strings(&["a"])), Err(StoreError::KeyTaken));
    let got = store.get("s").unwrap().map(text_of);
    assert_eq!(got, Some(Some("x".to_string())));
}

#[test]
fn store_lrange_indexes() {
    let mut store = Store::new();
    store.rpush("l".to_string(), strings(&["a", "b", "c", "d", "e"]));
    assert_eq!(store.lrange("l", 1, 1), Ok(owned(&["b"])));
    assert_eq!(store.lrange("l", -2, -1), Ok(owned(&["d", "e"])));
    assert_eq!(store.lrange("l", 1, 100), Ok(owned(&["b", "c", "d", "e"])));
    assert_eq!(store.lrange("l", -100, 1), Ok(owned(&["a", "b"])));
    assert_eq!(store.lrange("l", 3, 1), Ok(owned(&[])));
    assert_eq!(store.lrange("l", 6, 8), Ok(owned(&[])));
    assert_eq!(store.lrange("l", 5, 8), Ok(owned(&["e"])));
    assert_eq!(store.lrange("missing", 0, -1), Ok(owned(&[])));
}

#[test]
fn store_lpop_takes_from_front() {
    let mut store = Store::new();
    store.rpush("l".to_string(), strings(&["a", "b", "c"]));
    assert_eq!(store.lpop("l", 2), Ok(owned(&["a", "b"])));
    assert_eq!(store.lpop("l", 5), Ok(owned(&["c"])));
    assert_eq!(store.llen("l"), Ok(0));
    assert_eq!(store.lpop("l", 1), Ok(owned(&[])));
    assert_eq!(store.lrange("l", 1, 2), Ok(owned(&[])));
    assert_eq!(store.lpop("missing", 1), Ok(owned(&[])));
}

#[test]
fn store_list_reads_of_a_string() {
    let mut store = Store::new();
    store.set("s".to_string(), "x".to_string(), None);
    assert_eq!(store.lrange("s", 0, -1), Err(StoreError::WrongType));
    assert_eq!(store.llen("s"), Err(StoreError::WrongType));
    assert_eq!(store.lpop("s", 1), Err(StoreError::WrongType));
}

#[test]
fn store_count_advances() {
    let mut store = Store::new();
    assert_eq!(store.last_id(), 0);
    assert_eq!(store.count(), 1);
    assert_eq!(store.count(), 2);
    assert_eq!(store.last_id(), 2);
}

#[test]
fn store_push_wakes_least_id_first() {
    let mut store = Store::new();
    let mut rx_late = store.subscribe(7, "k");
    let mut rx_early = store.subscribe(3, "k");
    let mut rx_other = store.subscribe(1, "other");
    store.rpush("k".to_string(), strings(&["x"]));
    assert!(rx_early.try_recv().is_ok());
    assert!(rx_late.try_recv().is_err());
    assert!(rx_other.try_recv().is_err());
    store.lpush("k".to_string(), strings(&["y"]));
    assert!(rx_late.try_recv().is_ok());
}

#[test]
fn store_push_skips_dropped_waiters() {
    let mut store = Store::new();
    let rx_gone = store.subscribe(1, "k");
    let mut rx_kept = store.subscribe(2, "k");
    drop(rx_gone);
    store.rpush("k".to_string(), strings(&["x"]));
    assert!(rx_kept.try_recv().is_ok());
}

#[test]
fn store_unsubscribe_drops_the_waiter() {
    let mut store = Store::new();
    let mut rx = store.subscribe(4, "a");
    let mut rx_b = store.subscribe(4, "b");
    store.unsubscribe(4, &owned(&["a", "b", "c"]));
    store.rpush("a".to_string(), strings(&["x"]));
    assert!(rx.try_recv().is_err());
    assert!(rx_b.try_recv().is_err());
}

#[test]
fn entry_new_has_no_expiry() {
    let entry = Entry::new(Value::String("v".to_string()));
    assert_eq!(entry.expiry, None);
    assert!(!entry.is_expired_at(u64::MAX));
    assert_eq!(entry.is_expired(), Ok(false));
}

#[test]
fn entry_with_expiry_sets_deadline() {
    let mut entry = Entry::new(Value::List(VecDeque::new()));
    entry.with_expiry(100).with_expiry(200);
    assert_eq!(entry.expiry, Some(200));
    assert!(!entry.is_expired_at(200));
    assert!(entry.is_expired_at(201));
    entry.with_expiry(1);
    assert_eq!(entry.is_expired(), Ok(true));
}

#[test]
fn normalize_idx_clamps() {
    assert_eq!(normalize_idx(-1, 5), 4);
    assert_eq!(normalize_idx(-5, 5), 0);
    assert_eq!(normalize_idx(-10, 5), 0);
    assert_eq!(normalize_idx(2, 5), 2);
    assert_eq!(normalize_idx(10, 5), 4);
    assert_eq!(normalize_idx(isize::MIN, 3), 0);
    assert_eq!(normalize_idx(-3, 0), 0);
}

#[test]
fn store_error_messages() {
    assert_eq!(StoreError::InternalError.message(), "internal error");
    assert_eq!(StoreError::KeyTaken.message(), "key already taken");
    assert_eq!(StoreError::WrongType.message(), "wrong type");
    assert_eq!(StoreError::BadRange.message(), "bad range");
}

#[test]
fn store_reads_at_given_times() {
    let mut store = Store::new();
    store.set("k".to_string(), "v".to_string(), Some(1000));
    store.rpush("l".to_string(), strings(&["a", "b"]));
    assert_eq!(store.get_at("k", None).err(), Some(StoreError::InternalError));
    assert_eq!(store.get_at("k", Some(1000)).unwrap().map(text_of), Some(Some("v".to_string())));
    assert_eq!(store.llen_at("l", None), Err(StoreError::InternalError));
    assert_eq!(store.llen_at("missing", None), Ok(0));
    assert_eq!(store.lrange_at("l", 0, -1, None), Err(StoreError::InternalError));
    assert_eq!(store.lrange_at("l", 0, -1, Some(5)), Ok(owned(&["a", "b"])));
    assert_eq!(store.lpop_at("l", 1, None), Err(StoreError::InternalError));
    assert_eq!(store.lpop_at("l", 1, Some(5)), Ok(owned(&["a"])));
    assert!(store.get_at("k", Some(1001)).unwrap().is_none());
    assert!(store.get_at("k", None).unwrap().is_none());
}

#[test]
fn store_list_without_expiry_stays_at_any_time() {
    let mut store = Store::new();
    store.rpush("l".to_string(), strings(&["a"]));
    assert_eq!(store.lpop_at("l", 0, Some(7)), Ok(owned(&[])));
    assert_eq!(store.llen_at("l", Some(u64::MAX)), Ok(1));
}
