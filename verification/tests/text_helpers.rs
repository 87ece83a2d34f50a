use rapina_mcp::order::name_order;
use rapina_mcp::text::{decimal_string, has_prefix, has_suffix, lex_le_bytes, str_eq, trim_end_matches};

#[test]
fn decimal_strings() {
    assert_eq!(decimal_string(0), "0");
    assert_eq!(decimal_string(7), "7");
    assert_eq!(decimal_string(10), "10");
    assert_eq!(decimal_string(1234), "1234");
    assert_eq!(decimal_string(usize::MAX), usize::MAX.to_string());
}

#[test]
fn trimming_removes_every_trailing_copy() {
    assert_eq!(trim_end_matches("auth.rs", ".rs"), "auth");
    assert_eq!(trim_end_matches("a.rs.rs", ".rs"), "a");
    assert_eq!(trim_end_matches(".rs", ".rs"), "");
    assert_eq!(trim_end_matches("lib", ".rs"), "lib");
    assert_eq!(trim_end_matches("lib", ""), "lib");
}

#[test]
fn prefixes_suffixes_and_equality() {
    assert!(has_prefix("rapina-cli", "rapina"));
    assert!(!has_prefix("rap", "rapina"));
    assert!(has_suffix("x.rs", ".rs"));
    assert!(!has_suffix("x.rsx", ".rs"));
    assert!(str_eq("mod.rs", "mod.rs"));
    assert!(!str_eq("mod.rs", "mod.r"));
}

#[test]
fn order_is_lexicographic() {
    assert!(lex_le_bytes(b"a", b"b"));
    assert!(lex_le_bytes(b"ab", b"ab"));
    assert!(lex_le_bytes(b"ab", b"abc"));
    assert!(!lex_le_bytes(b"abc", b"ab"));
    assert!(lex_le_bytes(b"Z", b"a"));
}

#[test]
fn sort_is_stable() {
    let names: Vec<&[u8]> = vec![&b"b"[..], &b"a"[..], &b"b"[..], &b"a"[..]];
    assert_eq!(name_order(&names), vec![1, 3, 0, 2]);
}
