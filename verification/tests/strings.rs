use repub::strings::{
    fix_xhtml_content, pad_volume_number, remove_characters, remove_spaces,
    replace_literal, replace_round_brackets, replace_unsafe_symbols, to_half_width,
};

#[test]
fn test_to_half_width() {
    let actual = to_half_width("ａｚ1ＡＺa０９");
    let expected = "az1AZa09";
    assert_eq!(actual, expected)
}

#[test]
fn test_replace_unsafe_symbols() {
    let actual = replace_unsafe_symbols(r#"<>:"/\!?*d"#);
    let expected = "＜＞：＂／￥！？＊d";
    assert_eq!(actual, expected)
}

#[test]
fn test_replace_round_brackets() {
    let actual = replace_round_brackets("（）");
    let expected = "()";
    assert_eq!(actual, expected)
}

#[test]
fn test_pad_volume_number() {
    assert_eq!(pad_volume_number("xxx (1) yyy"), "xxx 01 yyy");
    assert_eq!(pad_volume_number("xxx(1) yyy"), "xxx 01 yyy");
    assert_eq!(pad_volume_number("xxx (1)"), "xxx 01");
    assert_eq!(pad_volume_number("xxx 1 yyy"), "xxx 01 yyy");
    assert_eq!(pad_volume_number("xxx1 yyy"), "xxx 01 yyy");
    assert_eq!(pad_volume_number("xxx 1"), "xxx 01");
    assert_eq!(pad_volume_number("xxx1巻"), "xxx 01");
    assert_eq!(pad_volume_number("xxx第1巻"), "xxx 01");
    assert_eq!(pad_volume_number("xxx1"), "xxx 01");
}

#[test]
fn test_remove_spaces() {
    assert_eq!(remove_spaces("  xxx  yyy  "), "xxx yyy");
}

#[test]
fn half_width_folding_is_idempotent_on_samples() {
    for s in ["ａｚ1ＡＺa０９", "ｈｅｌｌｏ！", "plain", "（７）", ""] {
        let once = to_half_width(s);
        let twice = to_half_width(&once);
        assert_eq!(once, twice);
    }
}

#[test]
fn substitution_is_identity_without_target_characters() {
    for s in ["hello world", "日本語のタイトル", "a.b,c;d", ""] {
        assert_eq!(replace_unsafe_symbols(s), s);
    }
}

#[test]
fn substitution_maps_distinct_targets_to_distinct_replacements() {
    let targets = r#"<>:"/\!?*"#;
    let replaced = replace_unsafe_symbols(targets);
    let mut seen: Vec<char> = Vec::new();
    for c in replaced.chars() {
        assert!(!seen.contains(&c));
        seen.push(c);
    }
}

#[test]
fn padding_is_idempotent_on_canonical_output() {
    assert_eq!(pad_volume_number(" 07"), " 07");
    assert_eq!(pad_volume_number("xxx 01"), "xxx 01");
    assert_eq!(pad_volume_number(&pad_volume_number("xxx (7)")), "xxx 07");
}

#[test]
fn padding_renders_numbers_as_integers() {
    assert_eq!(pad_volume_number("xxx 007"), "xxx 07");
    assert_eq!(pad_volume_number("xxx (100)"), "xxx 100");
    assert_eq!(pad_volume_number("xxx第12巻"), "xxx 12");
    // The marker pattern keeps what stood before it and adds its own
    // leading space; the later space-collapsing stage merges the two.
    assert_eq!(pad_volume_number("xxx 第12巻"), "xxx  12");
}

#[test]
fn space_collapsing_is_idempotent_and_trims() {
    for s in ["  xxx  yyy  ", "a\t\n b", "　全角　空白　", "", "   "] {
        let once = remove_spaces(s);
        let twice = remove_spaces(&once);
        assert_eq!(once, twice);
        assert!(!once.starts_with(' '));
        assert!(!once.ends_with(' '));
    }
    assert_eq!(remove_spaces("a\u{3000}b"), "a b");
}

#[test]
fn remove_characters_removes_every_listed_literal() {
    let patterns = vec!["foo".to_string(), "(x)".to_string()];
    assert_eq!(remove_characters(&patterns, "afoob(x)cfoo"), "abc");
    assert_eq!(remove_characters(&patterns, "unrelated"), "unrelated");
    let empty: Vec<String> = Vec::new();
    assert_eq!(remove_characters(&empty, "same"), "same");
}

#[test]
fn replace_literal_replaces_every_occurrence() {
    assert_eq!(replace_literal("a-b-c", "-", "+"), "a+b+c");
    assert_eq!(replace_literal("aaa", "aa", "b"), "ba");
    assert_eq!(replace_literal("same", "", "x"), "same");
}

#[test]
fn xhtml_patch_rewrites_entities_and_prologue() {
    let patched = fix_xhtml_content("<html><p>a&nbsp;b</p>");
    assert!(patched.starts_with("<?xml version=\"1.0\" encoding=\"utf-8\"?><!DOCTYPE html><html "));
    assert!(patched.ends_with("<p>a&#160;b</p>"));
    assert!(!patched.contains("&nbsp;"));
}
