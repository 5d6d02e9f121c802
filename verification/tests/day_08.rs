use advent_of_code::year_2015::day_08::{escape_string, reformat_string};

#[test]
fn test_reformat_string() {
    let list = vec![r#""""#, r#""abc""#, r#""aaa\"aaa""#, r#""\x27""#];
    let before: usize = list.iter().map(|s| s.len()).sum();
    let after: usize = list.iter().map(|s| reformat_string(s).len()).sum();
    assert_eq!(before, 23);
    assert_eq!(after, 11);
}

#[test]
fn test_escape_string() {
    let list = vec![r#""""#, r#""abc""#, r#""aaa\"aaa""#, r#""\x27""#];
    let before: usize = list.iter().map(|s| s.len()).sum();
    let after: usize = list.iter().map(|s| escape_string(s).len()).sum();
    assert_eq!(before, 23);
    assert_eq!(after, 42);
}

#[test]
fn test_reformat_string_values() {
    assert_eq!(reformat_string(r#""""#), "");
    assert_eq!(reformat_string(r#""abc""#), "abc");
    assert_eq!(reformat_string(r#""aaa\"aaa""#), r#"aaa"aaa"#);
    assert_eq!(reformat_string(r#""\x27""#), "'");
    assert_eq!(reformat_string(r#""\\""#), r"\");
}

#[test]
fn test_escape_string_values() {
    assert_eq!(escape_string(r#""""#), r#""\"\"""#);
    assert_eq!(escape_string(r#""abc""#), r#""\"abc\"""#);
    assert_eq!(escape_string(r#""\x27""#), r#""\"\\x27\"""#);
}
