use untracked_tree::{
    get_dir_hierarchy_matrix, get_files_at_dir, sizes_fit, untracked_tree, File, FileTree,
    FileTreeInfo,
};

fn file(path: &str, byte_size: u64) -> File {
    File { path: String::from(path), byte_size }
}

fn paths(files: &[File]) -> Vec<String> {
    files.iter().map(|f| f.path.clone()).collect()
}

fn build(files: &[File]) -> Option<FileTree> {
    let targets: Vec<File> = files.to_vec();
    untracked_tree(&paths(files), &targets)
}

fn names(files: &[File]) -> Vec<&str> {
    files.iter().map(|f| f.path.as_str()).collect()
}

fn dirs(nodes: &[FileTree]) -> Vec<&str> {
    nodes.iter().map(|n| n.dir.as_str()).collect()
}

fn check_sizes(node: &FileTree) {
    let own: u64 = node.files.iter().map(|f| f.byte_size).sum();
    let below: u64 = node.nodes.iter().map(|n| n.size).sum();
    assert_eq!(node.size, own + below, "{}", node.dir);
    for child in &node.nodes {
        check_sizes(child);
    }
}

fn sample() -> Vec<File> {
    vec![
        file("a/b/c/deep.bin", 1000),
        file("a/b/x.txt", 10),
        file("a/b/y.txt", 20),
        file("a/top.txt", 300),
        file("a/d/z.txt", 4),
        file("a/b/c/other.bin", 50000),
        file("root.txt", 7),
    ]
}

#[test]
fn tree_of_three_levels() {
    let tree = build(&sample()).unwrap();
    assert_eq!(tree.dir, "a");
    assert_eq!(names(&tree.files), vec!["a/top.txt"]);
    assert_eq!(dirs(&tree.nodes), vec!["a/b", "a/d"]);
    assert_eq!(tree.size, 51334);

    let b = &tree.nodes[0];
    assert_eq!(names(&b.files), vec!["a/b/x.txt", "a/b/y.txt"]);
    assert_eq!(dirs(&b.nodes), vec!["a/b/c"]);
    assert_eq!(b.size, 51030);

    let c = &b.nodes[0];
    assert_eq!(names(&c.files), vec!["a/b/c/deep.bin", "a/b/c/other.bin"]);
    assert!(c.nodes.is_empty());
    assert_eq!(c.size, 51000);

    let d = &tree.nodes[1];
    assert_eq!(names(&d.files), vec!["a/d/z.txt"]);
    assert!(d.nodes.is_empty());
    assert_eq!(d.size, 4);
}

#[test]
fn every_size_is_own_files_plus_children() {
    check_sizes(&build(&sample()).unwrap());
}

#[test]
fn a_file_sits_in_the_node_of_its_directory_only() {
    let files = vec![file("a/b/c.txt", 5), file("a/b/c/inner.txt", 6), file("a/outer.txt", 7)];
    let tree = build(&files).unwrap();
    assert_eq!(tree.dir, "a");
    assert_eq!(names(&tree.files), vec!["a/outer.txt"]);
    let b = &tree.nodes[0];
    assert_eq!(b.dir, "a/b");
    assert_eq!(names(&b.files), vec!["a/b/c.txt"]);
    let c = &b.nodes[0];
    assert_eq!(c.dir, "a/b/c");
    assert_eq!(names(&c.files), vec!["a/b/c/inner.txt"]);
    assert_eq!((tree.size, b.size, c.size), (18, 11, 6));
}

#[test]
fn a_directory_whose_name_only_starts_alike_is_no_child() {
    let files = vec![file("a/b/1", 1), file("ab/c/2", 20), file("a/bc/3", 300), file("a/b/c/4", 4000)];
    let matrix = get_dir_hierarchy_matrix(&paths(&files));
    assert_eq!(matrix[0], vec!["a", "ab"]);
    assert_eq!(matrix[1], vec!["a/b", "ab/c", "a/bc"]);

    let a = FileTree::new(&matrix, &files, 0, 0).unwrap();
    assert_eq!(dirs(&a.nodes), vec!["a/b", "a/bc"]);
    assert_eq!(a.size, 4301);
    assert_eq!(dirs(&a.nodes[0].nodes), vec!["a/b/c"]);

    let ab = FileTree::new(&matrix, &files, 0, 1).unwrap();
    assert_eq!(dirs(&ab.nodes), vec!["ab/c"]);
    assert_eq!(ab.size, 20);
}

#[test]
fn no_files_no_tree() {
    assert!(build(&[]).is_none());
}

#[test]
fn files_in_the_root_alone_give_no_tree() {
    assert!(build(&[file("x.txt", 1), file("y.txt", 2)]).is_none());
}

#[test]
fn no_node_beyond_the_matrix() {
    let files = vec![file("a/b/x", 1)];
    let matrix = get_dir_hierarchy_matrix(&paths(&files));
    assert_eq!(matrix.len(), 2);
    assert!(FileTree::new(&matrix, &files, 1, 0).is_some());
    assert!(FileTree::new(&matrix, &files, 2, 0).is_none());
    assert!(FileTree::new(&matrix, &files, 3, 5).is_none());
    assert!(FileTree::new(&Vec::new(), &files, 0, 0).is_none());
}

#[test]
fn a_node_of_a_lower_level_is_the_subtree() {
    let files = sample();
    let matrix = get_dir_hierarchy_matrix(&paths(&files));
    let b = FileTree::new(&matrix, &files, 1, 0).unwrap();
    assert_eq!(b.dir, "a/b");
    assert_eq!(b.size, 51030);
    assert_eq!(dirs(&b.nodes), vec!["a/b/c"]);
    let c = FileTree::new(&matrix, &files, 2, 0).unwrap();
    assert_eq!(c.dir, "a/b/c");
    assert_eq!(c.size, 51000);
}

#[test]
fn the_tree_is_that_of_the_first_top_directory() {
    let files = vec![file("second/x", 1), file("first/y", 2), file("second/z/w", 4)];
    let tree = build(&files).unwrap();
    assert_eq!(tree.dir, "second");
    assert_eq!(tree.size, 5);
    assert_eq!(dirs(&tree.nodes), vec!["second/z"]);
}

#[test]
fn a_listed_file_that_is_no_target_keeps_its_directory() {
    let listed: Vec<String> = vec![String::from("a/b/gone.txt"), String::from("a/kept.txt")];
    let targets = vec![file("a/kept.txt", 9)];
    let tree = untracked_tree(&listed, &targets).unwrap();
    assert_eq!(tree.dir, "a");
    assert_eq!(tree.size, 9);
    assert_eq!(dirs(&tree.nodes), vec!["a/b"]);
    assert!(tree.nodes[0].files.is_empty());
    assert_eq!(tree.nodes[0].size, 0);
}

#[test]
fn a_thousand_nested_directories() {
    let levels = 1000;
    let mut dir = String::new();
    let mut files: Vec<File> = Vec::new();
    let mut expected: u64 = 0;
    for k in 0..levels {
        if k > 0 {
            dir.push('/');
        }
        dir.push_str(&format!("d{}", k));
        if k % 100 == 99 {
            files.push(file(&format!("{}/f{}.bin", dir, k), (k as u64) * 1_000_000));
            expected += (k as u64) * 1_000_000;
        }
    }
    let tree = build(&files).unwrap();
    assert_eq!(tree.dir, "d0");
    assert_eq!(tree.size, expected);
    let mut node = &tree;
    let mut depth = 1;
    while let Some(child) = node.nodes.first() {
        assert_eq!(node.nodes.len(), 1);
        node = child;
        depth += 1;
    }
    assert_eq!(depth, levels);
    assert_eq!(node.size, 999 * 1_000_000);
    assert_eq!(names(&node.files), vec![format!("{}/f999.bin", dir)]);

    let mut infos: Vec<FileTreeInfo> = Vec::new();
    tree.flatten(&mut infos);
    assert_eq!(infos.len(), levels);
    assert_eq!(infos[0].size, expected);
    assert_eq!(infos[levels - 1].dir, dir);

    let lines = tree.report();
    assert_eq!(lines.len(), levels + files.len());
    assert_eq!(lines[0], format!("{}: 999mb", infos[900].dir));
    assert_eq!(lines[99], format!("{}: 999mb", dir));
    assert_eq!(lines[100], format!("    - {}/f999.bin: 999mb", dir));
    assert_eq!(lines[lines.len() - 1], format!("    - {}/f99.bin: 99mb", infos[99].dir));
    assert_eq!(lines[lines.len() - 2], format!("{}: 5.4gb", infos[99].dir));
    assert_eq!(lines[lines.len() - 101], "d0: 5.4gb");
}

#[test]
fn files_at_a_directory_are_picked_by_path() {
    let files = sample();
    assert_eq!(names(&get_files_at_dir(&files, &String::from("a/b"))), vec!["a/b/x.txt", "a/b/y.txt"]);
    assert_eq!(names(&get_files_at_dir(&files, &String::from("a"))), vec!["a/top.txt"]);
    assert!(get_files_at_dir(&files, &String::from("a/b/c/deep.bin")).is_empty());
    assert!(get_files_at_dir(&files, &String::from("nowhere")).is_empty());
    assert!(get_files_at_dir(&files, &String::from("")).is_empty());
}

#[test]
fn sizes_fit_until_they_pass_the_largest_size() {
    assert!(sizes_fit(&Vec::new()));
    assert!(sizes_fit(&vec![file("a/x", u64::MAX)]));
    assert!(sizes_fit(&vec![file("a/x", u64::MAX - 5), file("a/y", 5)]));
    assert!(!sizes_fit(&vec![file("a/x", u64::MAX - 5), file("a/y", 6)]));
    assert!(!sizes_fit(&vec![file("a/x", u64::MAX), file("a/y", 0), file("b/z", 1)]));
}

#[test]
fn the_largest_sizes_are_added_without_loss() {
    let files = vec![file("a/x", u64::MAX - 5), file("a/b/y", 5)];
    let tree = build(&files).unwrap();
    assert_eq!(tree.size, u64::MAX);
}

#[test]
fn flatten_lists_the_root_first_then_each_subtree() {
    let tree = build(&sample()).unwrap();
    let mut infos: Vec<FileTreeInfo> = Vec::new();
    tree.flatten(&mut infos);
    let listed: Vec<(&str, u64, usize)> =
        infos.iter().map(|i| (i.dir.as_str(), i.size, i.files.len())).collect();
    assert_eq!(listed, vec![("a", 51334, 1), ("a/b", 51030, 2), ("a/b/c", 51000, 2), ("a/d", 4, 1)]);
}

#[test]
fn flatten_appends() {
    let tree = build(&[file("a/x", 3)]).unwrap();
    let mut infos: Vec<FileTreeInfo> = Vec::new();
    tree.flatten(&mut infos);
    tree.flatten(&mut infos);
    assert_eq!(infos.len(), 2);
    assert_eq!(infos[0].dir, "a");
    assert_eq!(infos[1].dir, "a");
}

#[test]
fn info_copies_the_root() {
    let tree = build(&sample()).unwrap();
    let info = FileTreeInfo::from(&tree);
    assert_eq!(info.dir, "a");
    assert_eq!(info.size, 51334);
    assert_eq!(names(&info.files), vec!["a/top.txt"]);
    assert_eq!(info.files[0].byte_size, 300);
}
