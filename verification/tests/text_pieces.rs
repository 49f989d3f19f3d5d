use typst_extra_docs::text::{
    after_first, chars_of, join_range, same_text, split, starts_with_char,
};

fn strings(parts: &[&str]) -> Vec<String> {
    parts.iter().map(|part| part.to_string()).collect()
}

#[test]
fn split_cuts_at_every_separator() {
    assert_eq!(split("a/b/c.md", '/'), strings(&["a", "b", "c.md"]));
    assert_eq!(split("", '/'), strings(&[""]));
    assert_eq!(split("/", '/'), strings(&["", ""]));
    assert_eq!(split("a//b/", '/'), strings(&["a", "", "b", ""]));
    assert_eq!(split("no separator", '/'), strings(&["no separator"]));
    assert_eq!(split("é/ü", '/'), strings(&["é", "ü"]));
}

#[test]
fn join_range_writes_separators_between_neighbours() {
    let parts = strings(&["a", "b", "c", "d"]);
    assert_eq!(join_range(&parts, 0, 4, "/"), "a/b/c/d");
    assert_eq!(join_range(&parts, 1, 3, "/"), "b/c");
    assert_eq!(join_range(&parts, 2, 3, "/"), "c");
    assert_eq!(join_range(&parts, 2, 2, "/"), "");
    assert_eq!(join_range(&parts, 0, 2, ", "), "a, b");
}

#[test]
fn split_and_join_are_inverse() {
    for text in &["a/b/c", "", "/", "//x//", "plain"] {
        let parts = split(text, '/');
        assert_eq!(join_range(&parts, 0, parts.len(), "/"), *text);
    }
}

#[test]
fn small_helpers_read_characters() {
    assert_eq!(chars_of("a#é"), vec!['a', '#', 'é']);
    assert!(same_text("blob", "blob"));
    assert!(!same_text("blob", "blobs"));
    assert!(starts_with_char("#top", '#'));
    assert!(!starts_with_char("", '#'));
    assert!(!starts_with_char("a#", '#'));
    assert_eq!(after_first("/tests"), "tests");
    assert_eq!(after_first("é"), "");
}
