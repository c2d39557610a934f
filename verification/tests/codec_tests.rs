use channel_lifecycle::codec::{decode_bytes, encode_store, load_store};
use channel_lifecycle::model::Timestamp;
use channel_lifecycle::store::{OverrideEntry, OverrideStore};

fn entry(channel_id: u64, secs: i64, utc_offset_secs: i32) -> OverrideEntry {
    OverrideEntry { channel_id, time: Timestamp { secs, utc_offset_secs } }
}

#[test]
fn encode_layout_is_20_byte_little_endian_records() {
    let mut store = OverrideStore::new();
    store.replace(0x0102030405060708, Timestamp { secs: 2, utc_offset_secs: 3 });
    let bytes = encode_store(&store);
    assert_eq!(bytes.len(), 20);
    // 8-byte little-endian channel id.
    assert_eq!(&bytes[0..8], &[0x08, 0x07, 0x06, 0x05, 0x04, 0x03, 0x02, 0x01]);
    // 8-byte little-endian signed Unix timestamp.
    assert_eq!(&bytes[8..16], &[2, 0, 0, 0, 0, 0, 0, 0]);
    // 4-byte little-endian signed UTC offset.
    assert_eq!(&bytes[16..20], &[3, 0, 0, 0]);
}

#[test]
fn negative_timestamp_and_offset_encode_as_twos_complement() {
    let mut store = OverrideStore::new();
    store.replace(1, Timestamp { secs: -1, utc_offset_secs: -2 });
    let bytes = encode_store(&store);
    assert_eq!(&bytes[8..16], &[0xFF; 8]);
    assert_eq!(&bytes[16..20], &[0xFE, 0xFF, 0xFF, 0xFF]);
    let back = load_store(&bytes);
    assert_eq!(back.entries().as_slice(), &[entry(1, -1, -2)]);
}

#[test]
fn round_trip_reconstructs_the_table() {
    let mut store = OverrideStore::new();
    store.replace(7, Timestamp { secs: 1_600_000_000, utc_offset_secs: 3600 });
    store.replace(9, Timestamp { secs: -12345, utc_offset_secs: -7200 });
    store.replace(u64::MAX, Timestamp { secs: i64::MIN, utc_offset_secs: i32::MAX });
    let bytes = encode_store(&store);
    assert_eq!(bytes.len(), 60);
    let back = load_store(&bytes);
    assert_eq!(back.entries().as_slice(), store.entries().as_slice());
}

#[test]
fn corrupt_length_yields_empty_store() {
    // 21 bytes: not a multiple of the 20-byte record size.
    let bytes = vec![0u8; 21];
    let store = load_store(&bytes);
    assert_eq!(store.len(), 0);
    let short = vec![1u8, 2, 3];
    assert_eq!(load_store(&short).len(), 0);
    assert_eq!(decode_bytes(&short).len(), 0);
}

#[test]
fn empty_file_yields_empty_store() {
    let store = load_store(&Vec::new());
    assert_eq!(store.len(), 0);
}

#[test]
fn duplicate_channel_ids_keep_the_first_record() {
    let mut first = OverrideStore::new();
    first.replace(5, Timestamp { secs: 100, utc_offset_secs: 0 });
    let mut second = OverrideStore::new();
    second.replace(5, Timestamp { secs: 200, utc_offset_secs: 0 });
    let mut bytes = encode_store(&first);
    bytes.extend_from_slice(&encode_store(&second));
    let store = load_store(&bytes);
    assert_eq!(store.entries().as_slice(), &[entry(5, 100, 0)]);
}
