use poi_store::codec::STORE_FORMAT_VERSION;
use poi_store::identity::UserId;
use poi_store::store::Storage;

fn id(n: u64) -> UserId {
    UserId { w0: n, w1: 0, w2: 0, w3: 0 }
}

#[test]
fn empty_store_encodes_to_marker_and_two_zero_counts() {
    let s = Storage::new("p".to_string());
    let bytes = s.save_bytes();
    let mut expected = vec![STORE_FORMAT_VERSION];
    expected.extend_from_slice(&0u64.to_le_bytes());
    expected.extend_from_slice(&0u64.to_le_bytes());
    assert_eq!(bytes, expected);
}

#[test]
fn save_then_load_reproduces_the_store() {
    let mut s = Storage::new("p".to_string());
    s.add_user(id(1), "Ada".to_string());
    s.add_user(id(2), "Grace".to_string());
    s.add_message(id(1), 3, "hello".to_string());
    s.add_message(id(2), 3, "h\u{00e9}llo \u{2192} \u{2200}".to_string());
    s.add_message(id(1), 9, "elsewhere".to_string());
    let bytes = s.save_bytes();
    let t = Storage::load("p".to_string(), &bytes);

    let orig3 = s.get_messages(3);
    let back3 = t.get_messages(3);
    assert_eq!(orig3.len(), back3.len());
    for (a, b) in orig3.iter().zip(back3.iter()) {
        assert_eq!(a.sender, b.sender);
        assert_eq!(a.time, b.time);
        assert_eq!(a.message, b.message);
    }
    let orig9 = s.get_messages(9);
    let back9 = t.get_messages(9);
    assert_eq!(orig9.len(), 1);
    assert_eq!(back9.len(), 1);
    assert_eq!(orig9[0].message, back9[0].message);

    let us = s.users();
    let ut = t.users();
    assert_eq!(us.len(), ut.len());
    for (a, b) in us.iter().zip(ut.iter()) {
        assert_eq!(a.name, b.name);
        assert_eq!(a.points, b.points);
        assert_eq!(a.id_public, b.id_public);
    }
}

#[test]
fn encoding_is_deterministic() {
    let mut s = Storage::new("p".to_string());
    s.add_user(id(5), "Ada".to_string());
    s.add_message(id(5), 1, "hi".to_string());
    assert_eq!(s.save_bytes(), s.save_bytes());
}

#[test]
fn garbage_bytes_load_as_empty_store() {
    let t = Storage::load("p".to_string(), &[42u8, 1, 2, 3, 4, 5]);
    assert_eq!(t.users().len(), 0);
    let st = t.stats();
    assert_eq!(st.total_messages, 0);
    assert!(st.last.is_none());
}

#[test]
fn empty_bytes_load_as_empty_store() {
    let t = Storage::load("p".to_string(), &[]);
    assert_eq!(t.users().len(), 0);
    assert_eq!(t.stats().total_messages, 0);
}

#[test]
fn foreign_version_marker_loads_as_empty_store() {
    let mut s = Storage::new("p".to_string());
    s.add_user(id(1), "Ada".to_string());
    let mut bytes = s.save_bytes();
    bytes[0] = bytes[0].wrapping_add(1);
    let t = Storage::load("p".to_string(), &bytes);
    assert_eq!(t.users().len(), 0);
}

#[test]
fn truncated_bytes_load_as_empty_store() {
    let mut s = Storage::new("p".to_string());
    s.add_user(id(1), "Ada".to_string());
    s.add_message(id(1), 2, "hello".to_string());
    let bytes = s.save_bytes();
    let t = Storage::load("p".to_string(), &bytes[..bytes.len() - 1]);
    assert_eq!(t.users().len(), 0);
    assert_eq!(t.stats().total_messages, 0);
}

#[test]
fn trailing_bytes_load_as_empty_store() {
    let mut s = Storage::new("p".to_string());
    s.add_user(id(1), "Ada".to_string());
    let mut bytes = s.save_bytes();
    bytes.push(0);
    let t = Storage::load("p".to_string(), &bytes);
    assert_eq!(t.users().len(), 0);
}

/// A handcrafted file with one user whose points are not zero: loading keeps
/// the points, and re-registering the user overwrites only the name.
#[test]
fn loaded_points_survive_a_name_overwrite() {
    let mut bytes = vec![STORE_FORMAT_VERSION];
    bytes.extend_from_slice(&0u64.to_le_bytes()); // no buckets
    bytes.extend_from_slice(&1u64.to_le_bytes()); // one user
    bytes.extend_from_slice(&5u64.to_le_bytes()); // id word 0
    bytes.extend_from_slice(&0u64.to_le_bytes()); // id word 1
    bytes.extend_from_slice(&0u64.to_le_bytes()); // id word 2
    bytes.extend_from_slice(&0u64.to_le_bytes()); // id word 3
    bytes.extend_from_slice(&3u64.to_le_bytes()); // name byte length
    bytes.extend_from_slice(b"Bob");
    bytes.extend_from_slice(&7u64.to_le_bytes()); // points
    let mut t = Storage::load("p".to_string(), &bytes);
    let users = t.users();
    assert_eq!(users.len(), 1);
    assert_eq!(users[0].name, "Bob");
    assert_eq!(users[0].points, 7);

    t.add_user(id(5), "Robert".to_string());
    let users = t.users();
    assert_eq!(users.len(), 1);
    assert_eq!(users[0].name, "Robert");
    assert_eq!(users[0].points, 7);
}

/// A handcrafted file whose two buckets share one POI index: rejected, since
/// POI indices are unique keys.
#[test]
fn duplicate_poi_buckets_load_as_empty_store() {
    let mut bytes = vec![STORE_FORMAT_VERSION];
    bytes.extend_from_slice(&2u64.to_le_bytes()); // two buckets
    for _ in 0..2 {
        bytes.extend_from_slice(&4u64.to_le_bytes()); // the same POI index
        bytes.extend_from_slice(&0u64.to_le_bytes()); // no messages
    }
    bytes.extend_from_slice(&0u64.to_le_bytes()); // no users
    let t = Storage::load("p".to_string(), &bytes);
    assert_eq!(t.stats().total_messages, 0);
    assert_eq!(t.get_messages(4).len(), 0);
}

/// A handcrafted file whose message carries a POI index other than its
/// bucket's: rejected.
#[test]
fn mismatched_message_poi_loads_as_empty_store() {
    let mut bytes = vec![STORE_FORMAT_VERSION];
    bytes.extend_from_slice(&1u64.to_le_bytes()); // one bucket
    bytes.extend_from_slice(&4u64.to_le_bytes()); // bucket POI 4
    bytes.extend_from_slice(&1u64.to_le_bytes()); // one message
    for w in [9u64, 0, 0, 0] {
        bytes.extend_from_slice(&w.to_le_bytes()); // sender id
    }
    bytes.extend_from_slice(&5u64.to_le_bytes()); // message POI 5 != 4
    bytes.extend_from_slice(&0x8000_0000_0000_0000u64.to_le_bytes()); // time 0
    bytes.extend_from_slice(&2u64.to_le_bytes()); // text byte length
    bytes.extend_from_slice(b"hi");
    bytes.extend_from_slice(&0u64.to_le_bytes()); // no users
    let t = Storage::load("p".to_string(), &bytes);
    assert_eq!(t.stats().total_messages, 0);
}

/// A handcrafted file whose text bytes are not UTF-8: rejected.
#[test]
fn invalid_utf8_name_loads_as_empty_store() {
    let mut bytes = vec![STORE_FORMAT_VERSION];
    bytes.extend_from_slice(&0u64.to_le_bytes()); // no buckets
    bytes.extend_from_slice(&1u64.to_le_bytes()); // one user
    for w in [5u64, 0, 0, 0] {
        bytes.extend_from_slice(&w.to_le_bytes());
    }
    bytes.extend_from_slice(&2u64.to_le_bytes()); // name byte length
    bytes.extend_from_slice(&[0xff, 0xfe]); // not UTF-8
    bytes.extend_from_slice(&0u64.to_le_bytes()); // points
    let t = Storage::load("p".to_string(), &bytes);
    assert_eq!(t.users().len(), 0);
}

/// Timestamps round-trip through the biased encoding, negative ones included.
#[test]
fn negative_timestamps_round_trip() {
    let mut bytes = vec![STORE_FORMAT_VERSION];
    bytes.extend_from_slice(&1u64.to_le_bytes()); // one bucket
    bytes.extend_from_slice(&4u64.to_le_bytes()); // POI 4
    bytes.extend_from_slice(&1u64.to_le_bytes()); // one message
    for w in [9u64, 0, 0, 0] {
        bytes.extend_from_slice(&w.to_le_bytes());
    }
    bytes.extend_from_slice(&4u64.to_le_bytes()); // message POI
    let biased = (0x8000_0000_0000_0000u64).wrapping_sub(250); // time -250
    bytes.extend_from_slice(&biased.to_le_bytes());
    bytes.extend_from_slice(&3u64.to_le_bytes());
    bytes.extend_from_slice(b"old");
    bytes.extend_from_slice(&0u64.to_le_bytes()); // no users
    let t = Storage::load("p".to_string(), &bytes);
    let msgs = t.get_messages(4);
    assert_eq!(msgs.len(), 1);
    assert_eq!(msgs[0].time, -250);
    assert_eq!(t.save_bytes(), bytes);
}
