use untracked_tree::{dir_tree_hierarchy, get_dir_hierarchy_matrix, is_direct_child_path};

fn texts(items: &[&str]) -> Vec<String> {
    items.iter().map(|s| String::from(*s)).collect()
}

#[test]
fn matrix_of_two_files_under_one_directory() {
    let matrix = get_dir_hierarchy_matrix(&texts(&["a/b/x.txt", "a/c/y.txt"]));
    assert_eq!(matrix.len(), 2);
    assert_eq!(matrix[0], vec!["a"]);
    assert_eq!(matrix[1], vec!["a/b", "a/c"]);
}

#[test]
fn matrix_holds_no_file() {
    let files = texts(&["a/b/x.txt", "a/c/y.txt", "a/z.txt", "top.txt", "d/e/f/g.txt"]);
    let matrix = get_dir_hierarchy_matrix(&files);
    for level in &matrix {
        for dir in level {
            assert!(!files.contains(dir), "{}", dir);
        }
    }
}

#[test]
fn matrix_of_nothing_is_empty() {
    assert!(get_dir_hierarchy_matrix(&texts(&[])).is_empty());
}

#[test]
fn matrix_of_files_in_the_root_is_empty() {
    assert!(get_dir_hierarchy_matrix(&texts(&["x.txt", "y.txt"])).is_empty());
}

#[test]
fn matrix_is_as_high_as_the_deepest_file_lies_deep() {
    let matrix = get_dir_hierarchy_matrix(&texts(&["a/x", "b/c/d/e/y", "z", "b/c/w"]));
    assert_eq!(matrix.len(), 4);
    assert_eq!(matrix[0], vec!["a", "b"]);
    assert_eq!(matrix[1], vec!["b/c"]);
    assert_eq!(matrix[2], vec!["b/c/d"]);
    assert_eq!(matrix[3], vec!["b/c/d/e"]);
}

#[test]
fn matrix_names_each_directory_once_in_order_of_first_appearance() {
    let matrix = get_dir_hierarchy_matrix(&texts(&[
        "src/b/one.rs",
        "doc/two.md",
        "src/a/three.rs",
        "src/b/four.rs",
        "doc/img/five.png",
        "src/six.rs",
    ]));
    assert_eq!(matrix.len(), 2);
    assert_eq!(matrix[0], vec!["src", "doc"]);
    assert_eq!(matrix[1], vec!["src/b", "src/a", "doc/img"]);
}

#[test]
fn matrix_tells_equal_names_under_different_directories_apart() {
    let matrix = get_dir_hierarchy_matrix(&texts(&["a/x/1", "b/x/2", "x/3"]));
    assert_eq!(matrix[0], vec!["a", "b", "x"]);
    assert_eq!(matrix[1], vec!["a/x", "b/x"]);
}

#[test]
fn every_directory_below_the_top_has_its_parent_one_level_up() {
    let matrix = get_dir_hierarchy_matrix(&texts(&[
        "a/b/c/d.txt",
        "a/e/f.txt",
        "g/h.txt",
        "g/i/j/k/l.txt",
        "m.txt",
    ]));
    for k in 1..matrix.len() {
        for dir in &matrix[k] {
            let parents = matrix[k - 1].iter().filter(|p| is_direct_child_path(p, dir)).count();
            assert_eq!(parents, 1, "{}", dir);
        }
    }
}

#[test]
fn hierarchy_ignores_the_last_entry_of_each_row() {
    let rows = vec![texts(&["p", "q", "file"]), texts(&["p", "r"]), texts(&["s"]), texts(&[])];
    let matrix = dir_tree_hierarchy(&rows);
    assert_eq!(matrix.len(), 2);
    assert_eq!(matrix[0], vec!["p"]);
    assert_eq!(matrix[1], vec!["q"]);
}

#[test]
fn hierarchy_of_no_rows_is_empty() {
    assert!(dir_tree_hierarchy(&Vec::new()).is_empty());
}

#[test]
fn hierarchy_takes_rows_as_they_are() {
    let rows = vec![texts(&["x", "y", "z", "f"]), texts(&["y", "x", "g"]), texts(&["x", "x", "x", "h"])];
    let matrix = dir_tree_hierarchy(&rows);
    assert_eq!(matrix.len(), 3);
    assert_eq!(matrix[0], vec!["x", "y"]);
    assert_eq!(matrix[1], vec!["y", "x"]);
    assert_eq!(matrix[2], vec!["z", "x"]);
}
