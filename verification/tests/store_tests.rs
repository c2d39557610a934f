use channel_lifecycle::model::Timestamp;
use channel_lifecycle::store::{OverrideEntry, OverrideStore};

fn ts(secs: i64) -> Timestamp {
    Timestamp { secs, utc_offset_secs: 0 }
}

#[test]
fn replace_twice_keeps_one_entry_with_second_instant() {
    let mut store = OverrideStore::new();
    store.replace(42, ts(100));
    store.replace(42, ts(200));
    let entries = store.entries();
    assert_eq!(entries.len(), 1);
    assert_eq!(entries[0], OverrideEntry { channel_id: 42, time: ts(200) });
}

#[test]
fn replace_keeps_other_channels() {
    let mut store = OverrideStore::new();
    store.replace(1, ts(10));
    store.replace(2, ts(20));
    store.replace(1, ts(30));
    assert_eq!(store.len(), 2);
    assert_eq!(store.lookup(2), Some(ts(20)));
    assert_eq!(store.lookup(1), Some(ts(30)));
}

#[test]
fn remove_reports_whether_an_entry_went_away() {
    let mut store = OverrideStore::new();
    store.replace(1, ts(10));
    assert!(store.remove(1));
    assert!(!store.remove(1));
    assert_eq!(store.len(), 0);
    assert_eq!(store.lookup(1), None);
}

#[test]
fn contains_compares_whole_entries() {
    let mut store = OverrideStore::new();
    store.replace(1, ts(10));
    assert!(store.contains(&OverrideEntry { channel_id: 1, time: ts(10) }));
    assert!(!store.contains(&OverrideEntry { channel_id: 1, time: ts(11) }));
    assert!(!store.contains(&OverrideEntry { channel_id: 2, time: ts(10) }));
}

#[test]
fn position_of_finds_the_entry() {
    let mut store = OverrideStore::new();
    store.replace(1, ts(10));
    store.replace(2, ts(20));
    assert_eq!(store.position_of(1), Some(0));
    assert_eq!(store.position_of(2), Some(1));
    assert_eq!(store.position_of(3), None);
}
