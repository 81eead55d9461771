use jobgraph::text::{contains_char, contains_text, remove_char, split_char};

#[test]
fn searching_text() {
    assert!(contains_text("abc sacct: fatal x", "sacct: fatal"));
    assert!(!contains_text("sacct: fata", "sacct: fatal"));
    assert!(contains_text("x", ""));
    assert!(contains_char("12_3", '_'));
    assert!(!contains_char("123", '_'));
}

#[test]
fn removing_quotes() {
    assert_eq!(remove_char("\"c1-[0-1]\"", '"'), "c1-[0-1]");
    assert_eq!(remove_char("a\"\"b\"", '"'), "ab");
    assert_eq!(remove_char("", '"'), "");
}

#[test]
fn splitting_text() {
    assert_eq!(split_char("2023-01-05", '-'), vec!["2023", "01", "05"]);
    assert_eq!(split_char("-a-", '-'), vec!["", "a", ""]);
    assert_eq!(split_char("", '-'), vec![""]);
}
