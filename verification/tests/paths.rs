use untracked_tree::{is_direct_child_path, path_segments, path_trail, SEPARATOR};

fn text(s: &str) -> String {
    String::from(s)
}

#[test]
fn separator_is_the_slash() {
    assert_eq!(SEPARATOR, '/');
}

#[test]
fn segments_end_in_the_file_name() {
    assert_eq!(path_segments(&text("a/b/c.txt")), vec!["a", "b", "c.txt"]);
}

#[test]
fn a_path_without_separator_is_one_segment() {
    assert_eq!(path_segments(&text("README.md")), vec!["README.md"]);
}

#[test]
fn a_trailing_separator_leaves_an_empty_file_name() {
    assert_eq!(path_segments(&text("a/b/")), vec!["a", "b", ""]);
}

#[test]
fn there_is_always_a_segment() {
    assert_eq!(path_segments(&text("")), vec![""]);
}

#[test]
fn trail_lists_the_ancestors_and_the_path() {
    assert_eq!(path_trail(&text("a/b/c.txt")), vec!["a", "a/b", "a/b/c.txt"]);
}

#[test]
fn trail_of_a_file_in_the_root_is_the_file() {
    assert_eq!(path_trail(&text("c.txt")), vec!["c.txt"]);
}

#[test]
fn trail_keeps_empty_segments() {
    assert_eq!(path_trail(&text("/a//b")), vec!["", "/a", "/a/", "/a//b"]);
}

#[test]
fn every_step_of_a_trail_lies_directly_inside_the_step_before() {
    let steps = path_trail(&text("one/two/three/four/five.txt"));
    assert_eq!(steps.len(), 5);
    for k in 1..steps.len() {
        assert!(is_direct_child_path(&steps[k - 1], &steps[k]));
        for j in 0..steps.len() {
            if j + 1 != k {
                assert!(!is_direct_child_path(&steps[j], &steps[k]));
            }
        }
    }
}

#[test]
fn a_file_lies_directly_inside_its_directory_only() {
    let file = text("a/b/c.txt");
    assert!(is_direct_child_path(&text("a/b"), &file));
    assert!(!is_direct_child_path(&text("a"), &file));
    assert!(!is_direct_child_path(&text("a/b/c"), &file));
    assert!(!is_direct_child_path(&text("a/b/c.txt"), &file));
    assert!(!is_direct_child_path(&text(""), &file));
}

#[test]
fn a_name_that_only_starts_alike_is_no_child() {
    assert!(!is_direct_child_path(&text("a"), &text("ab")));
    assert!(!is_direct_child_path(&text("a"), &text("ab/c")));
    assert!(!is_direct_child_path(&text("a/b"), &text("a/bc/d")));
    assert!(!is_direct_child_path(&text("b"), &text("a/b/c")));
    assert!(is_direct_child_path(&text("a"), &text("a/b")));
}

#[test]
fn the_empty_directory_holds_what_starts_with_a_separator() {
    assert!(is_direct_child_path(&text(""), &text("/x")));
    assert!(!is_direct_child_path(&text(""), &text("x")));
    assert!(!is_direct_child_path(&text(""), &text("/x/y")));
    assert!(!is_direct_child_path(&text(""), &text("")));
}

#[test]
fn a_child_may_have_an_empty_name() {
    assert!(is_direct_child_path(&text("a"), &text("a/")));
    assert!(!is_direct_child_path(&text("a"), &text("a//")));
}
