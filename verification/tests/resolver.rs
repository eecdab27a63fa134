use walzecore::resolver::{normalize_dice_expr, replace_alias, resolve_aliases, resolve_expression,
    split_dice};

#[test]
fn resolves_alias_then_splits() {
    let aliases = vec![("$adv".to_string(), "2d20kh1".to_string())];
    let parts = resolve_expression("$adv, 1d4+2", &aliases);
    assert_eq!(parts, vec!["2d20kh1".to_string(), "1d4+2".to_string()]);
}

#[test]
fn empty_segments_are_dropped_and_trimmed() {
    let aliases: Vec<(String, String)> = Vec::new();
    let parts = resolve_expression(",, 1d6 ,,", &aliases);
    assert_eq!(parts, vec!["1d6".to_string()]);
}

#[test]
fn sanitizes_emphasis_characters() {
    assert_eq!(normalize_dice_expr("`10`*crit*"), "10crit");
    assert_eq!(normalize_dice_expr("plain"), "plain");
    assert_eq!(normalize_dice_expr("***"), "");
    assert_eq!(normalize_dice_expr(""), "");
}

#[test]
fn split_dice_trims_each_segment() {
    let parts = split_dice("7d6, 1d6");
    assert_eq!(parts, vec!["7d6", "1d6"]);
    let parts = split_dice("  2d8+1  ");
    assert_eq!(parts, vec!["2d8+1"]);
    let empty = split_dice("");
    assert!(empty.is_empty());
    let spaces = split_dice(" , ,  ");
    assert!(spaces.is_empty());
}

#[test]
fn replace_is_literal_and_global() {
    assert_eq!(replace_alias("$a+$a", "$a", "1d6"), "1d6+1d6");
    assert_eq!(replace_alias("aaa", "aa", "b"), "ba");
    assert_eq!(replace_alias("nothing", "$x", "y"), "nothing");
    assert_eq!(replace_alias("abc", "", "y"), "abc");
}

#[test]
fn aliases_apply_in_sequence_without_rescanning_earlier_pairs() {
    let aliases = vec![
        ("$a".to_string(), "$b".to_string()),
        ("$b".to_string(), "2d6".to_string()),
    ];
    assert_eq!(resolve_aliases("$a", &aliases), "2d6");
    let aliases_rev = vec![
        ("$b".to_string(), "2d6".to_string()),
        ("$a".to_string(), "$b".to_string()),
    ];
    assert_eq!(resolve_aliases("$a", &aliases_rev), "$b");
}

#[test]
fn unicode_whitespace_is_trimmed() {
    let parts = split_dice("\u{2003}1d6\u{2003}, 2d4");
    assert_eq!(parts, vec!["1d6", "2d4"]);
}
