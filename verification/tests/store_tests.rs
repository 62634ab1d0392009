use poi_store::identity::UserId;
use poi_store::store::Storage;

fn id(n: u64) -> UserId {
    UserId { w0: n, w1: 0, w2: 0, w3: 0 }
}

#[test]
fn end_to_end_single_user_message() {
    let mut s = Storage::new("data/storage.bin".to_string());
    let u = UserId { w0: 1, w1: 2, w2: 3, w3: 4 };
    s.add_user(u, "Ada".to_string());
    s.add_message(u, 3, "hello".to_string());
    let msgs = s.get_messages(3);
    assert_eq!(msgs.len(), 1);
    assert_eq!(msgs[0].sender, "Ada");
    assert_eq!(msgs[0].message, "hello");
    let users = s.users();
    assert_eq!(users.len(), 1);
    assert_eq!(users[0].name, "Ada");
    assert_eq!(users[0].points, 0);
}

#[test]
fn messages_keep_submission_order() {
    let mut s = Storage::new("p".to_string());
    let u = id(9);
    s.add_message(u, 5, "first".to_string());
    s.add_message(u, 5, "second".to_string());
    s.add_message(u, 5, "third".to_string());
    let msgs = s.get_messages(5);
    assert_eq!(msgs.len(), 3);
    assert_eq!(msgs[0].message, "first");
    assert_eq!(msgs[1].message, "second");
    assert_eq!(msgs[2].message, "third");
}

#[test]
fn messages_of_different_pois_do_not_mix() {
    let mut s = Storage::new("p".to_string());
    let u = id(9);
    s.add_message(u, 1, "at one".to_string());
    s.add_message(u, 2, "at two".to_string());
    s.add_message(u, 1, "again at one".to_string());
    let one = s.get_messages(1);
    let two = s.get_messages(2);
    assert_eq!(one.len(), 2);
    assert_eq!(one[0].message, "at one");
    assert_eq!(one[1].message, "again at one");
    assert_eq!(two.len(), 1);
    assert_eq!(two[0].message, "at two");
}

#[test]
fn unknown_poi_yields_empty_not_error() {
    let mut s = Storage::new("p".to_string());
    assert_eq!(s.get_messages(12345).len(), 0);
    s.add_message(id(1), 0, "x".to_string());
    assert_eq!(s.get_messages(12345).len(), 0);
}

#[test]
fn unknown_sender_resolves_to_fallback() {
    let mut s = Storage::new("p".to_string());
    s.add_message(id(77), 4, "anonymous".to_string());
    let msgs = s.get_messages(4);
    assert_eq!(msgs.len(), 1);
    assert_eq!(msgs[0].sender, "Unknown");
}

#[test]
fn add_user_overwrites_name_only() {
    let mut s = Storage::new("p".to_string());
    let u = id(42);
    s.add_user(u, "first name".to_string());
    s.add_user(u, "second name".to_string());
    let users = s.users();
    assert_eq!(users.len(), 1);
    assert_eq!(users[0].name, "second name");
    assert_eq!(users[0].points, 0);
}

#[test]
fn add_user_is_idempotent_on_identical_calls() {
    let mut s = Storage::new("p".to_string());
    let u = id(42);
    s.add_user(u, "Ada".to_string());
    s.add_user(u, "Ada".to_string());
    let users = s.users();
    assert_eq!(users.len(), 1);
    assert_eq!(users[0].name, "Ada");
    assert_eq!(users[0].points, 0);
}

#[test]
fn public_id_is_deterministic_and_differs_from_private() {
    let u = id(7);
    let mut s1 = Storage::new("a".to_string());
    s1.add_user(u, "Ada".to_string());
    let mut s2 = Storage::new("b".to_string());
    s2.add_user(u, "Ada".to_string());
    let p1 = s1.users()[0].id_public;
    let p2 = s2.users()[0].id_public;
    assert_eq!(p1, p2);
    // The derivation is one-way hashing, not the identity map.
    assert_ne!(p1, u);
}

#[test]
fn distinct_private_ids_give_distinct_public_ids() {
    let mut s = Storage::new("p".to_string());
    s.add_user(id(1), "one".to_string());
    s.add_user(id(2), "two".to_string());
    let users = s.users();
    assert_eq!(users.len(), 2);
    assert_ne!(users[0].id_public, users[1].id_public);
}

#[test]
fn add_message_returns_the_stored_message() {
    let mut s = Storage::new("p".to_string());
    let u = id(3);
    let m = s.add_message(u, 8, "body".to_string());
    assert_eq!(m.sender, u);
    assert_eq!(m.poi, 8);
    assert_eq!(m.message, "body");
    let msgs = s.get_messages(8);
    assert_eq!(msgs.len(), 1);
    assert_eq!(msgs[0].time, m.time);
}

#[test]
fn stats_on_empty_store() {
    let s = Storage::new("p".to_string());
    let st = s.stats();
    assert_eq!(st.total_users, 0);
    assert_eq!(st.total_messages, 0);
    assert!(st.last.is_none());
}

#[test]
fn stats_counts_users_and_messages() {
    let mut s = Storage::new("p".to_string());
    s.add_user(id(1), "one".to_string());
    s.add_user(id(2), "two".to_string());
    s.add_message(id(1), 0, "a".to_string());
    s.add_message(id(1), 1, "b".to_string());
    s.add_message(id(2), 1, "c".to_string());
    let st = s.stats();
    assert_eq!(st.total_users, 2);
    assert_eq!(st.total_messages, 3);
    assert!(st.last.is_some());
}

#[test]
fn stats_last_is_the_single_message() {
    let mut s = Storage::new("p".to_string());
    s.add_user(id(1), "Ada".to_string());
    let m = s.add_message(id(1), 6, "only".to_string());
    let st = s.stats();
    let (view, poi) = st.last.expect("one message is stored");
    assert_eq!(poi, 6);
    assert_eq!(view.sender, "Ada");
    assert_eq!(view.message, "only");
    assert_eq!(view.time, m.time);
}

#[test]
fn stats_last_has_the_maximal_timestamp() {
    let mut s = Storage::new("p".to_string());
    s.add_message(id(1), 0, "a".to_string());
    s.add_message(id(1), 3, "b".to_string());
    s.add_message(id(1), 0, "c".to_string());
    let st = s.stats();
    let (view, _) = st.last.expect("messages are stored");
    for poi in [0usize, 3usize] {
        for m in s.get_messages(poi) {
            assert!(m.time <= view.time);
        }
    }
}

#[test]
fn store_remembers_its_path() {
    let s = Storage::new("some/dir/file.bin".to_string());
    assert_eq!(s.path().as_str(), "some/dir/file.bin");
    let t = Storage::load("other.bin".to_string(), &s.save_bytes());
    assert_eq!(t.path().as_str(), "other.bin");
}
