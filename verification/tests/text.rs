use hot_potato::text::{
    chars_of, contains_exec, decimal_text, insert_sorted, join2, join3, pad_right_exec, same_text,
    take_chars, text_le_exec, text_of,
};

#[test]
fn comparing_and_ordering_texts() {
    assert!(same_text("abc", "abc"));
    assert!(!same_text("abc", "abd"));
    assert!(text_le_exec("abc", "abd"));
    assert!(text_le_exec("ab", "abc"));
    assert!(!text_le_exec("b", "abc"));
    assert!(text_le_exec("Z", "a")); // byte order, as String's Ord
}

#[test]
fn searching_and_cutting_texts() {
    assert!(contains_exec("HTTP 401 Unauthorized", "401"));
    assert!(!contains_exec("40", "401"));
    assert!(contains_exec("x", ""));
    assert_eq!(take_chars("h\u{e9}llo", 2), "h\u{e9}");
    assert_eq!(take_chars("hi", 5), "hi");
    assert_eq!(chars_of("ab"), ['a', 'b']);
}

#[test]
fn building_texts() {
    assert_eq!(text_of("abc"), "abc");
    assert_eq!(join2("a", "b"), "ab");
    assert_eq!(join3("a", "b", "c"), "abc");
    assert_eq!(decimal_text(0), "0");
    assert_eq!(decimal_text(18446744073709551615), "18446744073709551615");
    assert_eq!(pad_right_exec("ab", 4), "ab  ");
    assert_eq!(pad_right_exec("abcdef", 4), "abcdef");
}

#[test]
fn sorted_sets_of_texts() {
    let mut set: Vec<String> = Vec::new();
    assert_eq!(insert_sorted(&mut set, "m"), 0);
    assert_eq!(insert_sorted(&mut set, "a"), 0);
    assert_eq!(insert_sorted(&mut set, "z"), 2);
    assert_eq!(insert_sorted(&mut set, "m"), 1);
    assert_eq!(set, ["a", "m", "z"]);
}
