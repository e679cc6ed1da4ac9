use fleet_suggest::keyed::{find_key_str, group_push, set_string};
use fleet_suggest::text::{
    decimal_string, join_strings, parse_i32, parse_i64, parse_u32, split_chars, split_once_chars, trim_str,
};

fn chars(s: &str) -> Vec<char> {
    s.chars().collect()
}

#[test]
fn trimming_like_str_trim() {
    assert_eq!(trim_str("  a b \t\n"), chars("a b"));
    assert_eq!(trim_str("\u{3000}x\u{a0}"), chars("x"));
    assert_eq!(trim_str("   "), Vec::<char>::new());
}

#[test]
fn splitting_like_str_split() {
    let p = split_chars(&chars("a,,b,"), ',');
    assert_eq!(p, vec![chars("a"), vec![], chars("b"), vec![]]);
    assert_eq!(split_chars(&chars(""), ','), vec![Vec::<char>::new()]);
    assert_eq!(split_once_chars(&chars("1,2,3"), ','), Some((chars("1"), chars("2,3"))));
    assert_eq!(split_once_chars(&chars("12"), ','), None);
}

#[test]
fn joining_and_numbers() {
    assert_eq!(join_strings(&vec!["a".to_string(), "b".to_string(), "c".to_string()], ", "), "a, b, c");
    assert_eq!(join_strings(&vec![], ", "), "");
    assert_eq!(decimal_string(0), "0");
    assert_eq!(decimal_string(18446744073709551615), "18446744073709551615");
}

#[test]
fn integer_parsing_like_str_parse() {
    assert_eq!(parse_i32("42"), Some(42));
    assert_eq!(parse_i32("+7"), Some(7));
    assert_eq!(parse_i32("-2147483648"), Some(i32::MIN));
    assert_eq!(parse_i32("2147483648"), None);
    assert_eq!(parse_i32(" 1"), None);
    assert_eq!(parse_i32("-"), None);
    assert_eq!(parse_i32(""), None);
    assert_eq!(parse_u32("-1"), None);
    assert_eq!(parse_u32("+0"), Some(0));
    assert_eq!(parse_u32("4294967295"), Some(u32::MAX));
    assert_eq!(parse_i64("-9223372036854775808"), Some(i64::MIN));
    assert_eq!(parse_i64("1.5"), None);
}

#[test]
fn keyed_tables() {
    let mut m: Vec<(String, String)> = Vec::new();
    set_string(&mut m, "a".to_string(), "1".to_string());
    set_string(&mut m, "b".to_string(), "2".to_string());
    set_string(&mut m, "a".to_string(), "3".to_string());
    assert_eq!(m, vec![("a".to_string(), "3".to_string()), ("b".to_string(), "2".to_string())]);
    assert_eq!(find_key_str(&m, "b"), Some(1));
    assert_eq!(find_key_str(&m, "c"), None);
    let mut g: Vec<(String, Vec<u32>)> = Vec::new();
    group_push(&mut g, "x".to_string(), 1);
    group_push(&mut g, "y".to_string(), 2);
    group_push(&mut g, "x".to_string(), 3);
    assert_eq!(g, vec![("x".to_string(), vec![1, 3]), ("y".to_string(), vec![2])]);
}
