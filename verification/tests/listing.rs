use untracked_tree::{get_file_list_from, split_by};

fn text(s: &str) -> String {
    String::from(s)
}

#[test]
fn listing_gives_one_entry_per_line() {
    let files = get_file_list_from(&text("a/b/x.txt\na/c/y.txt\nREADME.md\n"));
    assert_eq!(files, vec!["a/b/x.txt", "a/c/y.txt", "README.md"]);
}

#[test]
fn listing_discards_empty_lines() {
    let files = get_file_list_from(&text("\n\nfirst\n\nsecond\n\n\nthird"));
    assert_eq!(files, vec!["first", "second", "third"]);
}

#[test]
fn listing_of_nothing_is_empty() {
    assert!(get_file_list_from(&text("")).is_empty());
    assert!(get_file_list_from(&text("\n")).is_empty());
    assert!(get_file_list_from(&text("\n\n\n")).is_empty());
}

#[test]
fn listing_keeps_a_last_line_without_line_end() {
    assert_eq!(get_file_list_from(&text("only")), vec!["only"]);
}

#[test]
fn listing_keeps_blanks_and_order() {
    let files = get_file_list_from(&text("z\n a b \ny\nz\n"));
    assert_eq!(files, vec!["z", " a b ", "y", "z"]);
}

#[test]
fn split_keeps_empty_pieces() {
    assert_eq!(split_by(&text("a,b,,c"), ','), vec!["a", "b", "", "c"]);
    assert_eq!(split_by(&text(",a,"), ','), vec!["", "a", ""]);
    assert_eq!(split_by(&text(","), ','), vec!["", ""]);
}

#[test]
fn split_of_a_text_without_separator_is_the_text() {
    assert_eq!(split_by(&text("abc"), ','), vec!["abc"]);
    assert_eq!(split_by(&text(""), ','), vec![""]);
}

#[test]
fn split_agrees_with_the_standard_library() {
    let samples = ["", "/", "a", "a/b", "/a/b/", "a//b", "///", "\u{e4}/\u{f6}\u{fc}/x"];
    for sample in samples {
        let expected: Vec<String> = sample.split('/').map(String::from).collect();
        assert_eq!(split_by(&text(sample), '/'), expected);
        assert_eq!(split_by(&text(sample), '/').join("/"), sample);
    }
}
