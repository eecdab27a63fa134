use walzecore::color::EmbedColor;
use walzecore::resolver::{normalize_dice_expr, resolve_expression};

#[test]
fn resolved_sub_expressions_roll_independently() {
    let aliases = vec![("$one".to_string(), "1d1".to_string())];
    let parts = resolve_expression("$one, 1d1+1", &aliases);
    assert_eq!(parts, vec!["1d1".to_string(), "1d1+1".to_string()]);
    for part in &parts {
        let rolled = caith::Roller::new(part)
            .and_then(|roller| roller.roll())
            .unwrap_or_else(|e| panic!("{part} failed: {e}"))
            .to_string();
        let text = normalize_dice_expr(&rolled);
        assert!(!text.contains('*') && !text.contains('`'), "{text}");
    }
}

#[test]
fn rolled_text_reflects_the_dice() {
    let rolled = caith::Roller::new("1d1")
        .and_then(|roller| roller.roll())
        .unwrap()
        .to_string();
    let text = normalize_dice_expr(&rolled);
    assert!(text.contains('1'), "{text}");
}

#[test]
fn malformed_sub_expression_reports_failure() {
    let rolled = caith::Roller::new("%%%bad%%%").and_then(|roller| roller.roll());
    assert!(rolled.is_err());
}

#[test]
fn embed_colors_match_the_palette() {
    assert_eq!(EmbedColor::Error.value(), 0x00FF_3333);
    assert_eq!(EmbedColor::Okay.value(), 0x0072_A3C3);
}
