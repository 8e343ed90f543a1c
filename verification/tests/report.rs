use untracked_tree::{ascending_order, report_untracked, untracked_tree, File};

fn file(path: &str, byte_size: u64) -> File {
    File { path: String::from(path), byte_size }
}

fn paths(files: &[File]) -> Vec<String> {
    files.iter().map(|f| f.path.clone()).collect()
}

#[test]
fn order_is_ascending() {
    assert_eq!(ascending_order(&vec![30, 10, 20]), vec![1, 2, 0]);
}

#[test]
fn order_keeps_equal_sizes_as_given() {
    assert_eq!(ascending_order(&vec![5, 1, 5, 1, 5, 0]), vec![5, 1, 3, 0, 2, 4]);
}

#[test]
fn order_of_nothing_is_empty() {
    assert!(ascending_order(&Vec::new()).is_empty());
}

#[test]
fn order_of_sorted_sizes_is_their_order() {
    assert_eq!(ascending_order(&vec![0, 0, 1, 2, 2, u64::MAX]), vec![0, 1, 2, 3, 4, 5]);
}

#[test]
fn order_names_every_place_once() {
    let sizes: Vec<u64> = (0..200u64).map(|k| (k * 7919) % 31).collect();
    let order = ascending_order(&sizes);
    let mut seen = vec![false; sizes.len()];
    for place in &order {
        assert!(!seen[*place]);
        seen[*place] = true;
    }
    assert!(seen.iter().all(|s| *s));
    for pair in order.windows(2) {
        let (a, b) = (pair[0], pair[1]);
        assert!(sizes[a] < sizes[b] || (sizes[a] == sizes[b] && a < b));
    }
}

#[test]
fn report_lists_directories_and_files_by_size() {
    let files = vec![
        file("a/b/c/deep.bin", 1000),
        file("a/b/y.txt", 20),
        file("a/b/x.txt", 10),
        file("a/top.txt", 300),
        file("a/d/z.txt", 4),
        file("a/b/c/other.bin", 50000),
        file("root.txt", 7),
    ];
    let tree = untracked_tree(&paths(&files), &files).unwrap();
    let lines = tree.report();
    assert_eq!(
        lines,
        vec![
            "a/d: 4b",
            "    - a/d/z.txt: 4b",
            "a/b/c: 51kb",
            "    - a/b/c/deep.bin: 1kb",
            "    - a/b/c/other.bin: 50kb",
            "a/b: 51.0kb",
            "    - a/b/x.txt: 10b",
            "    - a/b/y.txt: 20b",
            "a: 51.3kb",
            "    - a/top.txt: 300b",
        ]
    );
}

#[test]
fn report_keeps_equal_sizes_in_tree_order() {
    let files = vec![
        file("r/two/b", 5),
        file("r/one/a", 5),
        file("r/one/c", 5),
        file("r/two/d", 5),
    ];
    let lines = report_untracked(&paths(&files), &files);
    assert_eq!(
        lines,
        vec![
            "r/two: 10b",
            "    - r/two/b: 5b",
            "    - r/two/d: 5b",
            "r/one: 10b",
            "    - r/one/a: 5b",
            "    - r/one/c: 5b",
            "r: 20b",
        ]
    );
}

#[test]
fn nothing_to_show_for_an_empty_list() {
    assert_eq!(report_untracked(&Vec::new(), &Vec::new()), vec!["nothing to show"]);
}

#[test]
fn nothing_to_show_for_files_in_the_root_alone() {
    let files = vec![file("x", 1)];
    assert_eq!(report_untracked(&paths(&files), &files), vec!["nothing to show"]);
}

#[test]
fn report_of_the_listed_files_is_the_report_of_their_tree() {
    let files = vec![file("a/b/x", 2_500_000), file("a/y", 1_999)];
    let tree = untracked_tree(&paths(&files), &files).unwrap();
    let lines = report_untracked(&paths(&files), &files);
    assert_eq!(lines, tree.report());
    assert_eq!(lines, vec!["a/b: 2.5mb", "    - a/b/x: 2.5mb", "a: 2.5mb", "    - a/y: 1.9kb"]);
}
