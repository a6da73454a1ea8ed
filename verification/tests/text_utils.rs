use arnab::text::{
    split_str, str_eq, str_eq_ci, str_starts_with_ci, strip_block_comments_str,
    strip_line_comments_str, trim_str, u64_to_string,
};

#[test]
fn trim_both_ends() {
    assert_eq!(trim_str("  select 1 \n\t"), "select 1");
    assert_eq!(trim_str(""), "");
    assert_eq!(trim_str("   "), "");
    assert_eq!(trim_str("x"), "x");
}

#[test]
fn split_keeps_empty_pieces() {
    let pieces = split_str("a;;b;", ';');
    assert_eq!(pieces, vec!["a", "", "b", ""]);
    assert_eq!(split_str("", ';'), vec![""]);
    assert_eq!(split_str("abc", ';'), vec!["abc"]);
}

#[test]
fn line_comments_are_stripped() {
    let src = "SELECT 1\n-- a comment\n  -- indented comment\nFROM t";
    assert_eq!(strip_line_comments_str(src), "SELECT 1\nFROM t");
}

#[test]
fn block_comments_are_stripped() {
    assert_eq!(strip_block_comments_str("a /* x */ b"), "a  b");
    assert_eq!(strip_block_comments_str("a /* x\ny */ b /* z */c"), "a  b c");
    // non-greedy: each opener is closed by the first following terminator
    assert_eq!(strip_block_comments_str("/*a*/*/"), "*/");
    // an unclosed opener leaves the rest untouched
    assert_eq!(strip_block_comments_str("a /* never closed"), "a /* never closed");
}

#[test]
fn decimal_rendering() {
    assert_eq!(u64_to_string(0), "0");
    assert_eq!(u64_to_string(7), "7");
    assert_eq!(u64_to_string(12345), "12345");
    assert_eq!(u64_to_string(u64::MAX), format!("{}", u64::MAX));
}

#[test]
fn case_insensitive_matching() {
    assert!(str_starts_with_ci("select * from t", "SELECT"));
    assert!(str_starts_with_ci("WiTh cte as", "with"));
    assert!(!str_starts_with_ci("insert into t", "SELECT"));
    assert!(!str_starts_with_ci("sel", "SELECT"));
    assert!(str_eq_ci("TaBlE", "table"));
    assert!(!str_eq_ci("tables", "table"));
    assert!(str_eq("abc", "abc"));
    assert!(!str_eq("abc", "abd"));
}
