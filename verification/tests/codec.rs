use artifact_store::keys::deserialize_key;
use artifact_store::keys::serialize_key;
use artifact_store::nums::extract_time;
use artifact_store::nums::u128_from_be_bytes;
use artifact_store::nums::u128_to_be_bytes;
use std::time::SystemTime;
use std::time::UNIX_EPOCH;

const NANOSECONDS_PER_SECOND: u128 = 1_000_000_000;

#[test]
fn test_serialize() {
    let key = vec![[0, 0, 0, 0, 0, 0, 0, 0, 23, 122, 45, 94, 28, 92, 20, 192].as_ref()];
    let serialized = serialize_key(key);
    assert_eq!(
        serialized,
        vec![0, 0, 0, 0, 0, 0, 0, 0, 23, 122, 45, 94, 28, 92, 92, 20, 192]
    );
}

#[test]
fn test_deserialize() {
    let key = vec![0, 0, 0, 0, 0, 0, 0, 0, 23, 122, 45, 94, 28, 92, 92, 20, 192];
    let deserialized = deserialize_key(&key);
    assert_eq!(deserialized.len(), 1);
    assert_eq!(
        deserialized[0],
        vec![0, 0, 0, 0, 0, 0, 0, 0, 23, 122, 45, 94, 28, 92, 20, 192]
    );
}

#[test]
fn test_key_simple() {
    let key = serialize_key(vec![
        "repo".as_bytes(),
        "github.com".as_bytes(),
        "owner".as_bytes(),
    ]);
    assert_eq!(key, "repo#github.com#owner".as_bytes());

    let deserialized = deserialize_key(&key);
    assert_eq!(deserialized.len(), 3);
    assert_eq!(deserialized[0], "repo".as_bytes());
    assert_eq!(deserialized[1], "github.com".as_bytes());
    assert_eq!(deserialized[2], "owner".as_bytes());
}

#[test]
fn test_key_separator_escape() {
    let key = serialize_key(vec![
        "repo".as_bytes(),
        "github.com".as_bytes(),
        "owner#with#hashes".as_bytes(),
    ]);
    assert_eq!(key, "repo#github.com#owner\\#with\\#hashes".as_bytes());

    let deserialized = deserialize_key(&key);
    assert_eq!(deserialized.len(), 3);
    assert_eq!(deserialized[0], "repo".as_bytes());
    assert_eq!(deserialized[1], "github.com".as_bytes());
    assert_eq!(deserialized[2], "owner#with#hashes".as_bytes());
}

#[test]
fn test_extract_time() {
    let time = SystemTime::now()
        .duration_since(UNIX_EPOCH)
        .unwrap()
        .as_nanos();
    let time_bytes = time.to_be_bytes().to_vec();
    let extracted = extract_time(&time_bytes);
    assert_eq!(time, extracted);
    assert_eq!(
        time / NANOSECONDS_PER_SECOND,
        extracted / NANOSECONDS_PER_SECOND
    );
}

#[test]
fn test_extract_time_from_key() {
    let time = SystemTime::now()
        .duration_since(UNIX_EPOCH)
        .unwrap()
        .as_nanos();

    let bytes = serialize_key(vec![&time.to_be_bytes()]);
    let deserialized = deserialize_key(&bytes);
    assert_eq!(deserialized.len(), 1);
    assert_eq!(deserialized[0], time.to_be_bytes());

    let extracted = extract_time(deserialized.last().unwrap());
    assert_eq!(time, extracted);
}

#[test]
fn escaped_parts_round_trip() {
    let parts: Vec<&[u8]> = vec![
        "a#b".as_bytes(),
        "c\\d".as_bytes(),
        "##".as_bytes(),
        "plain".as_bytes(),
    ];
    let key = serialize_key(parts);
    let back = deserialize_key(&key);
    assert_eq!(back.len(), 4);
    assert_eq!(back[0], "a#b".as_bytes());
    assert_eq!(back[1], "c\\d".as_bytes());
    assert_eq!(back[2], "##".as_bytes());
    assert_eq!(back[3], "plain".as_bytes());
}

#[test]
fn timestamp_bytes_round_trip() {
    let t: u128 = 0x0102030405060708090a0b0c0d0e0f10;
    let bytes = u128_to_be_bytes(t);
    assert_eq!(bytes.len(), 16);
    assert_eq!(bytes, t.to_be_bytes().to_vec());
    assert_eq!(u128_from_be_bytes(&bytes), t);
}

#[test]
fn timestamp_with_separator_byte_round_trips_through_key() {
    // 0x23 and 0x5c inside the timestamp must be escaped in the key
    let t: u128 = 0x23005c00230000000000000000005c23;
    let bytes = u128_to_be_bytes(t);
    let key = serialize_key(vec![bytes.as_slice()]);
    assert!(key.len() > 16);
    let back = deserialize_key(&key);
    assert_eq!(back.len(), 1);
    assert_eq!(extract_time(&back[0]), t);
}
