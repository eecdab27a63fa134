use walzecore::database::User;
use walzecore::error::Error;
use walzecore::users::Users;

#[test]
fn fresh_user_starts_in_default() {
    let user = User::new();
    assert_eq!(user.namespace(), "default");
    assert!(user.namespaces().iter().any(|ns| ns == "default"));
    assert_eq!(user.namespaces().len(), 1);
    assert!(user.aliases().unwrap().is_empty());
}

#[test]
fn add_then_switch_makes_current() {
    let mut user = User::new();
    user.add_namespace("game-rules");
    user.namespace_mut("game-rules");
    assert_eq!(user.namespace(), "game-rules");
}

#[test]
fn add_namespace_twice_keeps_aliases() {
    let mut user = User::new();
    user.add_namespace("dnd");
    user.namespace_mut("dnd");
    user.alias_mut("$adv", "2d20kh1").unwrap();
    user.add_namespace("dnd");
    assert_eq!(user.alias("$adv").unwrap(), "2d20kh1");
    assert_eq!(user.namespaces().len(), 2);
}

#[test]
fn set_then_get_and_overwrite() {
    let mut user = User::new();
    user.alias_mut("$stealth", "2d6 t4 tt4, 1d6").unwrap();
    assert_eq!(user.alias("$stealth").unwrap(), "2d6 t4 tt4, 1d6");
    user.alias_mut("$stealth", "3d6").unwrap();
    assert_eq!(user.alias("$stealth").unwrap(), "3d6");
    assert_eq!(user.aliases().unwrap().len(), 1);
}

#[test]
fn get_absent_alias_fails() {
    let user = User::new();
    assert!(matches!(user.alias("$nope"), Err(Error::AliasNotFound(_))));
}

#[test]
fn remove_alias_absent_and_present() {
    let mut user = User::new();
    assert!(matches!(
        user.remove_alias("$gone"),
        Err(Error::AliasNotFound(_))
    ));
    user.alias_mut("$adv", "2d20").unwrap();
    let removed = user.remove_alias("$adv").unwrap();
    assert_eq!(removed, "2d20");
    assert!(matches!(user.alias("$adv"), Err(Error::AliasNotFound(_))));
}

#[test]
fn remove_namespace_resets_current_and_returns_aliases() {
    let mut user = User::new();
    user.add_namespace("lmop");
    user.namespace_mut("lmop");
    user.alias_mut("$stealth", "2d6").unwrap();
    user.alias_mut("$sneak", "1d6").unwrap();
    let (name, removed) = user.remove_namespace("lmop").unwrap();
    assert_eq!(name, "lmop");
    assert_eq!(user.namespace(), "default");
    let mut pairs = removed.clone();
    pairs.sort();
    assert_eq!(
        pairs,
        vec![
            ("$sneak".to_string(), "1d6".to_string()),
            ("$stealth".to_string(), "2d6".to_string())
        ]
    );
}

#[test]
fn remove_inactive_namespace_keeps_current() {
    let mut user = User::new();
    user.add_namespace("one");
    user.add_namespace("two");
    user.namespace_mut("one");
    let (name, removed) = user.remove_namespace("two").unwrap();
    assert_eq!(name, "two");
    assert!(removed.is_empty());
    assert_eq!(user.namespace(), "one");
}

#[test]
fn remove_unknown_namespace_fails() {
    let mut user = User::new();
    assert!(matches!(
        user.remove_namespace("ghost"),
        Err(Error::NamespaceNotFound(_))
    ));
}

#[test]
fn switch_to_unknown_namespace_is_a_no_op() {
    let mut user = User::new();
    user.add_namespace("real");
    user.namespace_mut("real");
    user.namespace_mut("nonexistent");
    assert_eq!(user.namespace(), "real");
}

#[test]
fn switch_namespace_reports_unknown_names() {
    let mut user = User::new();
    assert!(matches!(
        user.switch_namespace("nonexistent"),
        Err(Error::NamespaceNotFound(_))
    ));
    assert_eq!(user.namespace(), "default");
    user.add_namespace("known");
    assert!(user.switch_namespace("known").is_ok());
    assert_eq!(user.namespace(), "known");
}

#[test]
fn create_namespace_rejects_duplicates() {
    let mut user = User::new();
    assert!(user.create_namespace("fresh").is_ok());
    assert!(matches!(
        user.create_namespace("fresh"),
        Err(Error::Simple(_))
    ));
    assert!(matches!(
        user.create_namespace("default"),
        Err(Error::Simple(_))
    ));
}

#[test]
fn delete_namespace_protects_default() {
    let mut user = User::new();
    assert!(matches!(
        user.delete_namespace("default"),
        Err(Error::Simple(_))
    ));
    assert!(user.namespaces().iter().any(|ns| ns == "default"));
    user.add_namespace("spare");
    let (name, _) = user.delete_namespace("spare").unwrap();
    assert_eq!(name, "spare");
}

#[test]
fn get_or_create_inserts_once() {
    let mut users = Users::empty();
    assert!(users.get_user(7).is_none());
    {
        let user = users.get_or_create(7);
        user.alias_mut("$adv", "2d20").unwrap();
    }
    let again = users.get_or_create(7);
    assert_eq!(again.alias("$adv").unwrap(), "2d20");
    assert!(users.get_user(7).is_some());
    assert!(users.get_user(8).is_none());
}

#[test]
fn add_user_overwrites() {
    let mut users = Users::empty();
    let mut a = User::new();
    a.alias_mut("$x", "1").unwrap();
    users.add_user(1, a);
    let b = User::new();
    users.add_user(1, b);
    assert!(matches!(
        users.get_user(1).unwrap().alias("$x"),
        Err(Error::AliasNotFound(_))
    ));
}
