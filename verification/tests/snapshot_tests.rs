use user_store::store::{User, UserDatabase};

fn user(id: u32, username: &str, email: &str, secret: &str) -> User {
    User {
        id,
        username: username.to_string(),
        email: email.to_string(),
        secret: secret.to_string(),
    }
}

#[test]
fn empty_snapshot_is_empty_object() {
    let db = UserDatabase::new();
    assert_eq!(db.snapshot_json(), "{}");
    let decoded: serde_json::Value = serde_json::from_str(&db.snapshot_json()).unwrap();
    assert!(decoded.as_object().unwrap().is_empty());
}

#[test]
fn snapshot_exact_text_single_record() {
    let mut db = UserDatabase::new();
    db.add_user(user(1, "admin", "admin@example.com", "password123"));
    let expected = "{\n  \"1\": {\n    \"id\": 1,\n    \"username\": \"admin\",\n    \"email\": \"admin@example.com\",\n    \"secret\": \"password123\"\n  }\n}";
    assert_eq!(db.snapshot_json(), expected);
}

#[test]
fn admin_scenario() {
    let mut db = UserDatabase::new();
    db.add_user(user(1, "admin", "admin@example.com", "password123"));

    let found = db.find_user_by_username("admin").expect("admin must be found");
    assert_eq!(found.id, 1);
    assert_eq!(found.email, "admin@example.com");
    assert_eq!(found.secret, "password123");

    let by_id = db.get_by_id(1).expect("id 1 must be found");
    assert_eq!(by_id.username, "admin");
    assert!(db.get_by_id(2).is_none());

    let decoded: serde_json::Value = serde_json::from_str(&db.snapshot_json()).unwrap();
    let expected: serde_json::Value = serde_json::from_str(
        "{\"1\": {\"id\":1,\"username\":\"admin\",\"email\":\"admin@example.com\",\"secret\":\"password123\"}}",
    )
    .unwrap();
    assert_eq!(decoded, expected);
}

#[test]
fn snapshot_decodes_to_stored_pairs() {
    let mut db = UserDatabase::new();
    db.add_user(user(1, "alice", "alice@example.com", "pw-a"));
    db.add_user(user(42, "bob", "bob@example.com", "pw-b"));
    db.add_user(user(7, "carol", "carol@example.com", "pw-c"));

    let decoded: serde_json::Value = serde_json::from_str(&db.snapshot_json()).unwrap();
    let map = decoded.as_object().unwrap();
    assert_eq!(map.len(), 3);
    for key in ["1", "42", "7"] {
        let id: u32 = key.parse().unwrap();
        let entry = map.get(key).unwrap().as_object().unwrap();
        let stored = db.get_by_id(id).unwrap();
        assert_eq!(entry.get("id").unwrap().as_u64().unwrap(), u64::from(stored.id));
        assert_eq!(entry.get("username").unwrap().as_str().unwrap(), stored.username);
        assert_eq!(entry.get("email").unwrap().as_str().unwrap(), stored.email);
        assert_eq!(entry.get("secret").unwrap().as_str().unwrap(), stored.secret);
    }
}

#[test]
fn snapshot_escapes_special_characters() {
    let mut db = UserDatabase::new();
    db.add_user(user(
        2,
        "quote\"back\\slash",
        "line\nbreak@example.com",
        "tab\tand\rcontrol\u{1}end",
    ));

    let text = db.snapshot_json();
    let decoded: serde_json::Value = serde_json::from_str(&text).unwrap();
    let entry = decoded.as_object().unwrap().get("2").unwrap().as_object().unwrap();
    assert_eq!(entry.get("username").unwrap().as_str().unwrap(), "quote\"back\\slash");
    assert_eq!(entry.get("email").unwrap().as_str().unwrap(), "line\nbreak@example.com");
    assert_eq!(
        entry.get("secret").unwrap().as_str().unwrap(),
        "tab\tand\rcontrol\u{1}end"
    );
}

#[test]
fn snapshot_keeps_largest_id() {
    let mut db = UserDatabase::new();
    db.add_user(user(u32::MAX, "max", "max@example.com", "edge"));
    let decoded: serde_json::Value = serde_json::from_str(&db.snapshot_json()).unwrap();
    let entry = decoded.as_object().unwrap().get("4294967295").unwrap();
    assert_eq!(entry.get("id").unwrap().as_u64().unwrap(), u64::from(u32::MAX));
}
