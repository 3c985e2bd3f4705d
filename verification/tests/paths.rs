use nofile::maker::{remove_directive, replace_with_c, replace_with_h, scan_directives, FilePath};

fn dline(p: &str) -> String {
    "#inc".to_string() + "lude \"" + p + "\""
}

#[test]
fn parse_splits_at_last_slash() {
    let p = FilePath::new(String::from("dir/sub/x.c"));
    assert_eq!(p.dir_ref(), "dir/sub/");
    assert_eq!(p.file_ref(), "x.c");
    assert_eq!(p.combined(), "dir/sub/x.c");
}

#[test]
fn parse_without_slash_has_empty_dir() {
    let p = FilePath::new(String::from("x.c"));
    assert_eq!(p.dir_ref(), "");
    assert_eq!(p.file_ref(), "x.c");
    assert_eq!(p.combined(), "x.c");
}

#[test]
fn parse_normalizes_leading_dot_slash() {
    let p = FilePath::new(String::from("./x.c"));
    assert_eq!(p.dir_ref(), "");
    assert_eq!(p.file_ref(), "x.c");
    assert_eq!(p.combined(), "x.c");
}

#[test]
fn parse_keeps_deeper_dot_slash_directory() {
    let p = FilePath::new(String::from("./a/x.c"));
    assert_eq!(p.dir_ref(), "./a/");
    assert_eq!(p.combined(), "./a/x.c");
}

#[test]
fn parse_combined_round_trip() {
    for (raw, normalized) in [
        ("a.c", "a.c"),
        ("a/b.c", "a/b.c"),
        ("deep/er/tree/f.h", "deep/er/tree/f.h"),
        ("./z.h", "z.h"),
        ("nested/./x.c", "nested/./x.c"),
    ] {
        let p = FilePath::new(String::from(raw));
        assert_eq!(p.clone().into_combined(), normalized);
        assert_eq!(p.combined(), normalized);
    }
}

#[test]
fn compose_joins_directories_and_takes_lower_file() {
    let base = FilePath::new(String::from("a/b.c"));
    let down = FilePath::new(String::from("sub/c.h"));
    let composed = base.compose_ref(down);
    assert_eq!(composed.dir_ref(), "a/sub/");
    assert_eq!(composed.file_ref(), "c.h");
    assert_eq!(composed.combined(), "a/sub/c.h");
}

#[test]
fn into_items_yields_both_components() {
    let (dir, file) = FilePath::new(String::from("d/e/f.h")).into_items();
    assert_eq!(dir, "d/e/");
    assert_eq!(file, "f.h");
}

#[test]
fn clones_preserve_components() {
    let p = FilePath::new(String::from("q/r.c"));
    assert_eq!(p.dir_clone(), "q/");
    assert_eq!(p.file_clone(), "r.c");
    let c = p.clone();
    assert_eq!(c.combined(), "q/r.c");
}

#[test]
fn replace_with_c_swaps_header_extension() {
    let mut s = String::from("x.h");
    replace_with_c(&mut s);
    assert_eq!(s, "x.c");
}

#[test]
fn replace_with_h_swaps_source_extension() {
    let mut s = String::from("x.c");
    replace_with_h(&mut s);
    assert_eq!(s, "x.h");
}

#[test]
fn extension_swap_is_idempotent_and_round_trips() {
    let mut s = String::from("name.c");
    replace_with_c(&mut s);
    assert_eq!(s, "name.c");
    replace_with_h(&mut s);
    replace_with_h(&mut s);
    assert_eq!(s, "name.h");
    replace_with_c(&mut s);
    assert_eq!(s, "name.c");
}

#[test]
fn file_to_c_and_header_swap_only_the_file() {
    let mut p = FilePath::new(String::from("a/b.h"));
    p.file_to_c();
    assert_eq!(p.combined(), "a/b.c");
    p.file_to_header();
    assert_eq!(p.combined(), "a/b.h");
}

#[test]
fn remove_directive_strips_token_and_quotes() {
    assert_eq!(remove_directive(dline("b.h")), "b.h");
    assert_eq!(remove_directive(dline("sub/c.c")), "sub/c.c");
    assert_eq!(remove_directive("#inc".to_string() + "lude"), "");
}

#[test]
fn scan_finds_local_directives_in_order() {
    let text = format!(
        "{}\nint main() {{}}\n{}\n",
        dline("one.h"),
        dline("two.c")
    );
    let found = scan_directives(&text);
    assert_eq!(found.len(), 2);
    assert_eq!(found[0], "one.h");
    assert_eq!(found[1], "two.c");
}

#[test]
fn scan_skips_system_and_standard_forms() {
    let sys = "#inc".to_string() + "lude <stdio.h>";
    let stdish = "#inc".to_string() + "lude \"mystdlib.h\"";
    let text = format!("{}\n{}\n{}\n", sys, stdish, dline("keep.h"));
    let found = scan_directives(&text);
    assert_eq!(found.len(), 1);
    assert_eq!(found[0], "keep.h");
}

#[test]
fn scan_handles_crlf_line_endings() {
    let text = format!("{}\r\n{}\r\n", dline("a.h"), dline("b.h"));
    let found = scan_directives(&text);
    assert_eq!(found.len(), 2);
    assert_eq!(found[0], "a.h");
    assert_eq!(found[1], "b.h");
}

#[test]
fn scan_of_plain_text_finds_nothing() {
    let found = scan_directives("int main() { return 0; }\n");
    assert!(found.is_empty());
}
