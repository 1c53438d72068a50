use game_grove::category::{parse_category, TemplateCategory};
use game_grove::lexical::lex_less;
use game_grove::locator::template_name;
use game_grove::path::{child_path, render_path, same_path};

fn path(parts: &[&str]) -> Vec<String> {
    parts.iter().map(|s| s.to_string()).collect()
}

#[test]
fn categories_are_a_closed_set() {
    assert_eq!(parse_category("2d"), Some(TemplateCategory::TwoD));
    assert_eq!(parse_category("3d"), Some(TemplateCategory::ThreeD));
    assert_eq!(parse_category("4d"), None);
    assert_eq!(parse_category("2D"), None);
    assert_eq!(parse_category(""), None);
    assert_eq!(parse_category("2d "), None);
}

#[test]
fn template_names() {
    assert_eq!(template_name(TemplateCategory::TwoD), "2d-game-boilerplate");
    assert_eq!(template_name(TemplateCategory::ThreeD), "3d-game-boilerplate");
}

#[test]
fn rendering_paths() {
    assert_eq!(render_path(&path(&[])), "/");
    assert_eq!(render_path(&path(&["tmp", "ws"])), "/tmp/ws");
    let c = child_path(&path(&["tmp"]), &"ws".to_string());
    assert_eq!(c, path(&["tmp", "ws"]));
    assert!(same_path(&c, &path(&["tmp", "ws"])));
    assert!(!same_path(&c, &path(&["tmp"])));
}

#[test]
fn lexical_order() {
    assert!(lex_less("a", "b"));
    assert!(!lex_less("b", "a"));
    assert!(lex_less("ab", "abc"));
    assert!(!lex_less("abc", "ab"));
    assert!(!lex_less("same", "same"));
    assert!(lex_less("", "x"));
    assert!(lex_less("B", "a"));
}
