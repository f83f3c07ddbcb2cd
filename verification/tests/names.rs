use module_overlay::attr::FileAttr;
use module_overlay::names::is_replace_marker;
use module_overlay::names::join;
use module_overlay::names::name_order;
use module_overlay::names::Rank;

#[test]
fn join_puts_one_slash_between() {
    assert_eq!(join("/system", "bin"), "/system/bin");
    assert_eq!(join("/", "system"), "/system");
    assert_eq!(join("", "system"), "system");
    assert_eq!(join("/system/", "bin"), "/system/bin");
    assert_eq!(join("/system", ""), "/system/");
}

#[test]
fn name_order_is_bytewise() {
    assert_eq!(name_order("a", "b"), Rank::Before);
    assert_eq!(name_order("b", "a"), Rank::After);
    assert_eq!(name_order("abc", "abc"), Rank::Same);
    assert_eq!(name_order("ab", "abc"), Rank::Before);
    assert_eq!(name_order("abc", "ab"), Rank::After);
    assert_eq!(name_order("", ""), Rank::Same);
    assert_eq!(name_order("", "a"), Rank::Before);
    assert_eq!(name_order("Z", "a"), Rank::Before);
    assert_eq!(name_order("z", "\u{e9}"), Rank::Before);
    assert_eq!(name_order("\u{e9}", "\u{4e2d}"), Rank::Before);
}

#[test]
fn replace_marker_is_exact() {
    assert!(is_replace_marker(".replace"));
    assert!(!is_replace_marker("replace"));
    assert!(!is_replace_marker(".replace "));
    assert!(!is_replace_marker(".Replace"));
    assert!(!is_replace_marker(""));
}

#[test]
fn whiteout_is_char_device_zero() {
    assert!(FileAttr { mode: 0o020000, rdev: 0 }.is_whiteout());
    assert!(FileAttr { mode: 0o020644, rdev: 0 }.is_whiteout());
    assert!(!FileAttr { mode: 0o020644, rdev: 259 }.is_whiteout());
    assert!(!FileAttr { mode: 0o060000, rdev: 0 }.is_whiteout());
    assert!(!FileAttr { mode: 0o100644, rdev: 0 }.is_whiteout());
    assert!(!FileAttr { mode: 0o040755, rdev: 0 }.is_whiteout());
}

#[test]
fn char_device_goes_by_type_bits() {
    assert!(FileAttr { mode: 0o020600, rdev: 1 }.is_char_device());
    assert!(!FileAttr { mode: 0o060600, rdev: 1 }.is_char_device());
    assert!(!FileAttr { mode: 0o120777, rdev: 0 }.is_char_device());
    assert!(!FileAttr { mode: 0o000600, rdev: 0 }.is_char_device());
}
