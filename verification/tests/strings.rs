use nofile::strutil::{contains_str, ends_with_ext, has_prefix, str_contains_char, to_upper_ascii};

#[test]
fn upper_ascii_maps_letters_and_keeps_the_rest() {
    assert_eq!(to_upper_ascii("emu_late9"), "EMU_LATE9");
    assert_eq!(to_upper_ascii("MiXeD"), "MIXED");
    assert_eq!(to_upper_ascii(""), "");
}

#[test]
fn upper_ascii_leaves_non_ascii_alone() {
    assert_eq!(to_upper_ascii("café.c"), "CAFé.C");
}

#[test]
fn ends_with_ext_checks_dot_and_letter() {
    assert!(ends_with_ext("a.c", 'c'));
    assert!(ends_with_ext("dir/x.h", 'h'));
    assert!(!ends_with_ext("a.c", 'h'));
    assert!(!ends_with_ext("ac", 'c'));
    assert!(!ends_with_ext("c", 'c'));
    assert!(!ends_with_ext("", 'c'));
}

#[test]
fn prefix_and_containment_checks() {
    assert!(has_prefix("hello world", "hello"));
    assert!(!has_prefix("hel", "hello"));
    assert!(contains_str("abcde", "bcd"));
    assert!(contains_str("abcde", ""));
    assert!(!contains_str("abcde", "bd"));
    assert!(str_contains_char("a<b", '<'));
    assert!(!str_contains_char("ab", '<'));
}
