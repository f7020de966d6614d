use cps_server::str_map::StrMap;
use cps_server::text::{chars_of, join_strings, split_str, str_lt, to_lower_hex};

#[test]
fn split_keeps_empty_pieces() {
    let pieces = split_str("a&b&&c", '&');
    assert_eq!(pieces, vec!["a", "b", "", "c"]);
}

#[test]
fn split_of_empty_text_is_one_empty_piece() {
    assert_eq!(split_str("", '&'), vec![""]);
    assert_eq!(split_str("&", '&'), vec!["", ""]);
}

#[test]
fn join_then_split_round_trip() {
    let text = "x=1&&y=2&";
    let pieces = split_str(text, '&');
    assert_eq!(join_strings(&pieces, "&"), text);
}

#[test]
fn join_of_nothing_is_empty() {
    assert_eq!(join_strings(&Vec::new(), "&"), "");
    assert_eq!(join_strings(&vec!["one".to_string()], "&"), "one");
}

#[test]
fn chars_of_non_ascii_text() {
    assert_eq!(chars_of("aé中"), vec!['a', 'é', '中']);
}

#[test]
fn lexicographic_order() {
    assert!(str_lt("a", "b"));
    assert!(str_lt("ab", "abc"));
    assert!(!str_lt("abc", "ab"));
    assert!(!str_lt("same", "same"));
    assert!(str_lt("", "a"));
    assert!(str_lt("B", "a"));
}

#[test]
fn lower_hex_of_bytes() {
    assert_eq!(to_lower_hex(&[0x00, 0xab, 0x0f, 0xff]), "00ab0fff");
    assert_eq!(to_lower_hex(&[]), "");
}

#[test]
fn map_read_after_write() {
    let mut m: StrMap<String> = StrMap::new();
    m.insert("k".to_string(), "v1".to_string());
    assert_eq!(m.get("k"), Some(&"v1".to_string()));
    m.insert("k".to_string(), "v2".to_string());
    assert_eq!(m.get("k"), Some(&"v2".to_string()));
    assert_eq!(m.len(), 1);
    assert_eq!(m.get("other"), None);
}

#[test]
fn map_lists_entries_in_key_order() {
    let mut m: StrMap<u32> = StrMap::new();
    m.insert("timestamp".to_string(), 3);
    m.insert("appid".to_string(), 1);
    m.insert("method".to_string(), 2);
    let keys: Vec<String> = (0..m.len()).map(|i| m.entry(i).0.clone()).collect();
    assert_eq!(keys, vec!["appid", "method", "timestamp"]);
    assert_eq!(*m.entry(1).1, 2);
}

#[test]
fn map_remove() {
    let mut m: StrMap<u32> = StrMap::new();
    m.insert("a".to_string(), 1);
    m.insert("b".to_string(), 2);
    m.remove("a");
    m.remove("missing");
    assert_eq!(m.get("a"), None);
    assert_eq!(m.get("b"), Some(&2));
    assert_eq!(m.len(), 1);
}
