use user_store::store::{User, UserDatabase};

fn user(id: u32, username: &str, email: &str, secret: &str) -> User {
    User {
        id,
        username: username.to_string(),
        email: email.to_string(),
        secret: secret.to_string(),
    }
}

#[test]
fn insert_then_get_round_trip() {
    let mut db = UserDatabase::new();
    db.add_user(user(7, "alice", "alice@example.com", "hunter2"));
    let found = db.get_by_id(7).expect("record must be found");
    assert_eq!(found.id, 7);
    assert_eq!(found.username, "alice");
    assert_eq!(found.email, "alice@example.com");
    assert_eq!(found.secret, "hunter2");
}

#[test]
fn overwrite_replaces_and_does_not_grow() {
    let mut db = UserDatabase::new();
    db.add_user(user(3, "first", "first@example.com", "one"));
    db.add_user(user(4, "other", "other@example.com", "two"));
    assert_eq!(db.len(), 2);
    db.add_user(user(3, "second", "second@example.com", "three"));
    assert_eq!(db.len(), 2);
    let found = db.get_by_id(3).expect("record must be found");
    assert_eq!(found.username, "second");
    assert_eq!(found.email, "second@example.com");
    assert_eq!(found.secret, "three");
}

#[test]
fn find_on_empty_store_is_none() {
    let db = UserDatabase::new();
    assert!(db.find_user_by_username("anyone").is_none());
}

#[test]
fn find_without_match_is_none() {
    let mut db = UserDatabase::new();
    db.add_user(user(1, "alice", "alice@example.com", "a"));
    db.add_user(user(2, "bob", "bob@example.com", "b"));
    assert!(db.find_user_by_username("carol").is_none());
}

#[test]
fn find_with_duplicate_usernames_returns_one_deterministically() {
    let mut db = UserDatabase::new();
    db.add_user(user(1, "dup", "first@example.com", "a"));
    db.add_user(user(2, "dup", "second@example.com", "b"));
    let found = db.find_user_by_username("dup").expect("a record must be found");
    // Exactly one record comes back, and it carries the username asked for.
    assert_eq!(found.username, "dup");
    let id = found.id;
    assert!(id == 1 || id == 2);
    // The store fixes its iteration order, so the first match is returned.
    assert_eq!(id, 1);
    // Repeated calls on an unmodified store return the same record.
    let again = db.find_user_by_username("dup").expect("a record must be found");
    assert_eq!(again.id, id);
    assert_eq!(again.email, found.email);
}

#[test]
fn get_by_id_missing_is_none() {
    let mut db = UserDatabase::new();
    db.add_user(user(1, "alice", "alice@example.com", "a"));
    assert!(db.get_by_id(2).is_none());
}

#[test]
fn password_bytes_view() {
    let mut db = UserDatabase::new();
    db.add_user(user(9, "eve", "eve@example.com", "s3cr3t"));
    let bytes = db.get_user_password(9).expect("record must be found");
    assert_eq!(bytes, "s3cr3t".as_bytes());
    assert!(db.get_user_password(10).is_none());
}

#[test]
fn record_at_follows_insertion_order() {
    let mut db = UserDatabase::new();
    db.add_user(user(5, "one", "one@example.com", "a"));
    db.add_user(user(2, "two", "two@example.com", "b"));
    assert_eq!(db.record_at(0).id, 5);
    assert_eq!(db.record_at(1).id, 2);
}
