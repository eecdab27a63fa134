use walzecore::database::User;
use walzecore::users::Users;

fn sample_store() -> Users {
    let mut db = Users::empty();
    let mut user = User::new();
    user.add_namespace("dnd");
    user.namespace_mut("dnd");
    user.alias_mut("$adv", "2d10").unwrap();
    user.add_namespace("w&g");
    user.namespace_mut("w&g");
    user.alias_mut("$ballistics", "7d6, 1d6").unwrap();
    db.add_user(1, user);
    let mut user2 = User::new();
    user2.add_namespace("dnd");
    user2.namespace_mut("dnd");
    user2.alias_mut("$adv", "2d10").unwrap();
    db.add_user(2, user2);
    db
}

#[test]
fn snapshot_round_trips() {
    let db = sample_store();
    let json = db.to_json();
    let back = Users::new(&json).unwrap();
    assert_eq!(back.to_json(), json);

    let user = back.get_user(1).unwrap();
    assert_eq!(user.namespace(), "w&g");
    assert_eq!(user.alias("$ballistics").unwrap(), "7d6, 1d6");
    let names = user.namespaces();
    assert!(names.iter().any(|ns| ns == "default"));
    assert!(names.iter().any(|ns| ns == "dnd"));
    assert!(names.iter().any(|ns| ns == "w&g"));

    let user2 = back.get_user(2).unwrap();
    assert_eq!(user2.namespace(), "dnd");
    assert_eq!(user2.alias("$adv").unwrap(), "2d10");
    assert!(back.get_user(3).is_none());
}

#[test]
fn snapshot_escapes_special_characters() {
    let mut db = Users::empty();
    let mut user = User::new();
    user.alias_mut("$odd", "a\"b\\c\nd\te\u{1}f").unwrap();
    db.add_user(42, user);
    let json = db.to_json();
    let back = Users::new(&json).unwrap();
    assert_eq!(
        back.get_user(42).unwrap().alias("$odd").unwrap(),
        "a\"b\\c\nd\te\u{1}f"
    );
}

#[test]
fn snapshot_keeps_large_identifiers() {
    let mut db = Users::empty();
    db.add_user(u64::MAX, User::new());
    db.add_user(0, User::new());
    let json = db.to_json();
    let back = Users::new(&json).unwrap();
    assert!(back.get_user(u64::MAX).is_some());
    assert!(back.get_user(0).is_some());
}

#[test]
fn empty_store_round_trips() {
    let db = Users::empty();
    let json = db.to_json();
    assert_eq!(json, "{}");
    let back = Users::new(&json).unwrap();
    assert_eq!(back.to_json(), "{}");
}

#[test]
fn malformed_snapshots_fall_back_to_empty() {
    for bad in [
        "",
        "not json",
        "{",
        "[1,2]",
        "{\"1\":{\"namespace\":\"default\"}}",
        "{\"x\":{}}",
        "{\"1\":{\"namespace\":\"gone\",\"alias\":{\"default\":{}}}}",
    ] {
        let back = Users::new(bad).unwrap();
        assert_eq!(back.to_json(), "{}", "input: {bad}");
    }
}

#[test]
fn insignificant_whitespace_is_tolerated() {
    let json = "{\n  \"9\": {\n    \"namespace\": \"dnd\",\n    \"alias\": {\n      \"default\": {},\n      \"dnd\": {\n        \"$adv\": \"2d20kh1\"\n      }\n    }\n  }\n}\n";
    let back = Users::new(json).unwrap();
    let user = back.get_user(9).unwrap();
    assert_eq!(user.namespace(), "dnd");
    assert_eq!(user.alias("$adv").unwrap(), "2d20kh1");
    let empty = Users::new(" \t{ }\r\n").unwrap();
    assert_eq!(empty.to_json(), "{}");
}

#[test]
fn standard_json_escapes_are_accepted() {
    let json = "{\"3\":{\"namespace\":\"default\",\"alias\":{\"default\":{\"$a\":\"x\\ny\\tz\\r\\b\\f\\/\\u0041\\u00e9\"}}}}";
    let back = Users::new(json).unwrap();
    assert_eq!(
        back.get_user(3).unwrap().alias("$a").unwrap(),
        "x\ny\tz\r\u{8}\u{c}/A\u{e9}"
    );
}

#[test]
fn surrogate_escapes_fall_back_to_empty() {
    let json = "{\"3\":{\"namespace\":\"default\",\"alias\":{\"default\":{\"$a\":\"\\ud800\"}}}}";
    let back = Users::new(json).unwrap();
    assert_eq!(back.to_json(), "{}");
}

#[test]
fn well_formed_snapshot_is_parsed() {
    let json = "{\"9\":{\"namespace\":\"dnd\",\"alias\":{\"default\":{},\"dnd\":{\"$adv\":\"2d20kh1\"}}}}";
    let back = Users::new(json).unwrap();
    let user = back.get_user(9).unwrap();
    assert_eq!(user.namespace(), "dnd");
    assert_eq!(user.alias("$adv").unwrap(), "2d20kh1");
}
