//! The directory tree: what a node holds, what the tree over a depth matrix
//! is, and what holds of every node of such a tree.

use vstd::prelude::*;
use crate::path::{is_direct_child, is_direct_child_path, lemma_one_parent};

verus! {

/// A listed file and its size in bytes.
#[derive(Debug)]
pub struct File {
    pub path: String,
    pub byte_size: u64,
}

/// What a [`File`] stands for.
pub struct FileView {
    pub path: Seq<char>,
    pub byte_size: nat,
}

impl View for File {
    type V = FileView;

    open spec fn view(&self) -> FileView {
        FileView { path: self.path@, byte_size: self.byte_size as nat }
    }
}

impl Clone for File {
    fn clone(&self) -> (copy: Self)
        ensures
            copy@ == self@,
    {
        File { path: self.path.clone(), byte_size: self.byte_size }
    }
}

/// A directory with the files directly inside it, the directories directly
/// below it, and the bytes of everything under it.
#[derive(Debug)]
pub struct FileTree {
    pub dir: String,
    pub files: Vec<File>,
    pub nodes: Vec<FileTree>,
    pub size: u64,
}

/// What a [`FileTree`] stands for.
pub struct TreeView {
    pub dir: Seq<char>,
    pub files: Seq<FileView>,
    pub nodes: Seq<TreeView>,
    pub size: nat,
}

impl FileTree {
    /// What this tree stands for: the same tree, with every text and every
    /// list as a sequence and every size as a natural number.
    pub open spec fn model(&self) -> TreeView
        decreases self,
    {
        TreeView {
            dir: self.dir@,
            files: file_views(self.files@),
            nodes: Seq::new(
                self.nodes@.len(),
                |i: int|
                    if 0 <= i < self.nodes@.len() {
                        self.nodes@[i].model()
                    } else {
                        arbitrary()
                    },
            ),
            size: self.size as nat,
        }
    }
}

impl View for FileTree {
    type V = TreeView;

    open spec fn view(&self) -> TreeView {
        self.model()
    }
}

/// The views of a vector of files, in order.
pub open spec fn file_views(files: Seq<File>) -> Seq<FileView> {
    Seq::new(files.len(), |i: int| files[i]@)
}

/// The views of a vector of trees, in order.
pub open spec fn tree_views(nodes: Seq<FileTree>) -> Seq<TreeView> {
    Seq::new(nodes.len(), |i: int| nodes[i]@)
}

/// The bytes of `files` together.
pub open spec fn total_bytes(files: Seq<FileView>) -> nat
    decreases files.len(),
{
    if files.len() == 0 {
        0
    } else {
        total_bytes(files.drop_last()) + files.last().byte_size
    }
}

/// The aggregate sizes of `nodes` together.
pub open spec fn total_size(nodes: Seq<TreeView>) -> nat
    decreases nodes.len(),
{
    if nodes.len() == 0 {
        0
    } else {
        total_size(nodes.drop_last()) + nodes.last().size
    }
}

/// The test for "this file lies directly inside `dir`".
pub open spec fn lies_in(dir: Seq<char>) -> spec_fn(FileView) -> bool {
    |file: FileView| is_direct_child(dir, file.path)
}

/// The files of `targets` that lie directly inside `dir`, in their order.
pub open spec fn files_in(targets: Seq<FileView>, dir: Seq<char>) -> Seq<FileView> {
    targets.filter(lies_in(dir))
}

/// The number of entries at level `h` of a matrix; none beyond its height.
pub open spec fn level_len(matrix: Seq<Seq<Seq<char>>>, h: int) -> nat {
    if 0 <= h < matrix.len() {
        matrix[h].len()
    } else {
        0
    }
}

/// The node for entry `w` of level `h`: the directory named there, the
/// targets directly inside it, the nodes of the next level's entries that lie
/// directly inside it, and the bytes of all of that.
pub open spec fn tree_at(
    matrix: Seq<Seq<Seq<char>>>,
    targets: Seq<FileView>,
    h: int,
    w: int,
) -> TreeView
    decreases matrix.len() - h, level_len(matrix, h + 1) + 1,
{
    let dir = matrix[h][w];
    let files = files_in(targets, dir);
    let nodes = children_upto(matrix, targets, h, dir, level_len(matrix, h + 1));
    TreeView { dir, files, nodes, size: total_bytes(files) + total_size(nodes) }
}

/// The nodes of those among the first `n` entries of level `h + 1` that lie
/// directly inside `dir`, in the order of the level.
pub open spec fn children_upto(
    matrix: Seq<Seq<Seq<char>>>,
    targets: Seq<FileView>,
    h: int,
    dir: Seq<char>,
    n: nat,
) -> Seq<TreeView>
    decreases matrix.len() - h, n,
{
    if 0 <= h && 0 < n <= level_len(matrix, h + 1) {
        let before = children_upto(matrix, targets, h, dir, (n - 1) as nat);
        if is_direct_child(dir, matrix[h + 1][n - 1]) {
            before.push(tree_at(matrix, targets, h + 1, n - 1))
        } else {
            before
        }
    } else {
        Seq::<TreeView>::empty()
    }
}

/// Whether `holds` is true of `tree` and of every node below it.
pub open spec fn every_node(tree: TreeView, holds: spec_fn(TreeView) -> bool) -> bool
    decreases tree,
{
    &&& holds(tree)
    &&& forall|i: int| 0 <= i < tree.nodes.len() ==> every_node(#[trigger] tree.nodes[i], holds)
}

/// The size of a node is the bytes of its own files plus the sizes of the
/// nodes directly below it.
pub open spec fn size_adds_up() -> spec_fn(TreeView) -> bool {
    |node: TreeView| node.size == total_bytes(node.files) + total_size(node.nodes)
}

/// The files of a node are the targets that lie directly inside its
/// directory: all of them, and no others.
pub open spec fn holds_its_files(targets: Seq<FileView>) -> spec_fn(TreeView) -> bool {
    |node: TreeView| node.files == files_in(targets, node.dir)
}

/// The nodes directly below a node name directories directly inside it.
pub open spec fn nests_directly() -> spec_fn(TreeView) -> bool {
    |node: TreeView|
        forall|i: int|
            0 <= i < node.nodes.len() ==> is_direct_child(node.dir, (#[trigger] node.nodes[i]).dir)
}

impl FileTree {
    /// Whether this tree is put together as a tree should be: at every node
    /// the size is the bytes of the node's files plus the sizes of the nodes
    /// directly below it, and these name directories directly inside the
    /// node's directory.
    pub open spec fn well_formed(&self) -> bool {
        &&& every_node(self@, size_adds_up())
        &&& every_node(self@, nests_directly())
    }
}

/// A node is what `tree_at` gives for some entry of the matrix.
pub open spec fn built_over(
    matrix: Seq<Seq<Seq<char>>>,
    targets: Seq<FileView>,
) -> spec_fn(TreeView) -> bool {
    |node: TreeView| exists|h: int, w: int| node == tree_at(matrix, targets, h, w)
}

/// What holds of every node, and implies something else, makes that hold of
/// every node too.
pub proof fn lemma_every_node_implied(
    tree: TreeView,
    given: spec_fn(TreeView) -> bool,
    wanted: spec_fn(TreeView) -> bool,
)
    requires
        every_node(tree, given),
        forall|node: TreeView| #[trigger] given(node) ==> wanted(node),
    ensures
        every_node(tree, wanted),
    decreases tree,
{
    assert forall|i: int| 0 <= i < tree.nodes.len() implies every_node(
        #[trigger] tree.nodes[i],
        wanted,
    ) by {
        lemma_every_node_implied(tree.nodes[i], given, wanted);
    }
}

/// Whether `node` is the node of one of the first `limit` entries of level
/// `level`.
pub open spec fn is_node_of_level(
    matrix: Seq<Seq<Seq<char>>>,
    targets: Seq<FileView>,
    level: int,
    limit: int,
    node: TreeView,
) -> bool {
    exists|w: int| 0 <= w < limit && node == #[trigger] tree_at(matrix, targets, level, w)
}

/// The children found below a directory lie directly inside it, and each is
/// the node of an entry of the next level.
pub proof fn lemma_children(
    matrix: Seq<Seq<Seq<char>>>,
    targets: Seq<FileView>,
    h: int,
    dir: Seq<char>,
    n: nat,
)
    ensures
        forall|i: int|
            0 <= i < children_upto(matrix, targets, h, dir, n).len() ==> {
                let child = #[trigger] children_upto(matrix, targets, h, dir, n)[i];
                &&& is_direct_child(dir, child.dir)
                &&& is_node_of_level(matrix, targets, h + 1, level_len(matrix, h + 1) as int, child)
            },
    decreases n,
{
    if 0 <= h && 0 < n <= level_len(matrix, h + 1) {
        lemma_children(matrix, targets, h, dir, (n - 1) as nat);
        let before = children_upto(matrix, targets, h, dir, (n - 1) as nat);
        let now = children_upto(matrix, targets, h, dir, n);
        assert forall|i: int| 0 <= i < now.len() implies {
            let child = #[trigger] now[i];
            &&& is_direct_child(dir, child.dir)
            &&& is_node_of_level(matrix, targets, h + 1, level_len(matrix, h + 1) as int, child)
        } by {
            if i < before.len() {
                assert(now[i] == before[i]);
            } else {
                assert(now[i] == tree_at(matrix, targets, h + 1, n - 1));
            }
        }
    }
}

/// Every node of a built tree is the node of some entry of the matrix.
pub proof fn lemma_every_node_built(
    matrix: Seq<Seq<Seq<char>>>,
    targets: Seq<FileView>,
    h: int,
    w: int,
)
    ensures
        every_node(tree_at(matrix, targets, h, w), built_over(matrix, targets)),
    decreases matrix.len() - h,
{
    let tree = tree_at(matrix, targets, h, w);
    lemma_children(matrix, targets, h, tree.dir, level_len(matrix, h + 1));
    assert(built_over(matrix, targets)(tree));
    assert forall|i: int| 0 <= i < tree.nodes.len() implies every_node(
        #[trigger] tree.nodes[i],
        built_over(matrix, targets),
    ) by {
        let below = h + 1;
        let kids = children_upto(matrix, targets, h, tree.dir, level_len(matrix, below));
        assert(is_node_of_level(matrix, targets, below, level_len(matrix, below) as int, kids[i]));
        let v = choose|v: int|
            0 <= v < level_len(matrix, below) && tree.nodes[i] == #[trigger] tree_at(
                matrix,
                targets,
                below,
                v,
            );
        lemma_every_node_built(matrix, targets, below, v);
    }
}

/// At every node of a built tree, the size is the bytes of the node's own
/// files plus the sizes of the nodes directly below it.
pub proof fn lemma_sizes_add_up(
    matrix: Seq<Seq<Seq<char>>>,
    targets: Seq<FileView>,
    h: int,
    w: int,
)
    ensures
        every_node(tree_at(matrix, targets, h, w), size_adds_up()),
{
    lemma_every_node_built(matrix, targets, h, w);
    lemma_every_node_implied(
        tree_at(matrix, targets, h, w),
        built_over(matrix, targets),
        size_adds_up(),
    );
}

/// Every node of a built tree holds the targets that lie directly inside
/// its directory, and no other file.
pub proof fn lemma_files_sit_in_their_directory(
    matrix: Seq<Seq<Seq<char>>>,
    targets: Seq<FileView>,
    h: int,
    w: int,
)
    ensures
        every_node(tree_at(matrix, targets, h, w), holds_its_files(targets)),
{
    lemma_every_node_built(matrix, targets, h, w);
    lemma_every_node_implied(
        tree_at(matrix, targets, h, w),
        built_over(matrix, targets),
        holds_its_files(targets),
    );
}

/// In a built tree, the nodes directly below a node name directories
/// directly inside that node's directory.
pub proof fn lemma_nodes_nest_directly(
    matrix: Seq<Seq<Seq<char>>>,
    targets: Seq<FileView>,
    h: int,
    w: int,
)
    ensures
        every_node(tree_at(matrix, targets, h, w), nests_directly()),
{
    lemma_every_node_built(matrix, targets, h, w);
    assert forall|node: TreeView| #[trigger]
        built_over(matrix, targets)(node) implies nests_directly()(node) by {
        let (k, v) = choose|k: int, v: int| node == tree_at(matrix, targets, k, v);
        lemma_children(matrix, targets, k, node.dir, level_len(matrix, k + 1));
        let kids = children_upto(matrix, targets, k, node.dir, level_len(matrix, k + 1));
        assert forall|i: int| 0 <= i < node.nodes.len() implies is_direct_child(
            node.dir,
            (#[trigger] node.nodes[i]).dir,
        ) by {
            assert(is_direct_child(node.dir, kids[i].dir));
        }
    }
    lemma_every_node_implied(
        tree_at(matrix, targets, h, w),
        built_over(matrix, targets),
        nests_directly(),
    );
}

/// A file is among the files of a directory exactly if it is a target and
/// lies directly inside that directory.
pub proof fn lemma_files_in(targets: Seq<FileView>, dir: Seq<char>, file: FileView)
    ensures
        files_in(targets, dir).contains(file) <==> targets.contains(file) && is_direct_child(
            dir,
            file.path,
        ),
{
    let kept = files_in(targets, dir);
    if kept.contains(file) {
        targets.lemma_filter_contains_rev(lies_in(dir), file);
        let k = choose|k: int| 0 <= k < kept.len() && kept[k] == file;
        targets.lemma_filter_pred(lies_in(dir), k);
    }
    if targets.contains(file) && is_direct_child(dir, file.path) {
        let i = choose|i: int| 0 <= i < targets.len() && targets[i] == file;
        targets.lemma_filter_contains(lies_in(dir), i);
    }
}

/// A file sits in one directory only: two nodes that each hold the targets
/// directly inside their directory, and both hold `file`, are nodes of the
/// same directory.
pub proof fn lemma_file_in_one_directory(
    targets: Seq<FileView>,
    first: TreeView,
    second: TreeView,
    file: FileView,
)
    requires
        holds_its_files(targets)(first),
        holds_its_files(targets)(second),
        first.files.contains(file),
        second.files.contains(file),
    ensures
        first.dir == second.dir,
        is_direct_child(first.dir, file.path),
{
    lemma_files_in(targets, first.dir, file);
    lemma_files_in(targets, second.dir, file);
    lemma_one_parent(first.dir, second.dir, file.path);
}

/// The bytes of some of the files are no more than the bytes of all.
pub proof fn lemma_total_bytes_grows(files: Seq<FileView>, n: int)
    requires
        0 <= n <= files.len(),
    ensures
        total_bytes(files.take(n)) <= total_bytes(files),
    decreases files.len(),
{
    if n == files.len() {
        assert(files.take(n) == files);
    } else {
        lemma_total_bytes_grows(files.drop_last(), n);
        assert(files.drop_last().take(n) == files.take(n));
    }
}

/// The files of `targets` that lie directly inside `dir_path`.
///
/// Membership is decided from the paths alone; the directory is not listed.
pub fn get_files_at_dir(untracked_files: &Vec<File>, dir_path: &String) -> (files: Vec<File>)
    ensures
        file_views(files@) == files_in(file_views(untracked_files@), dir_path@),
{
    let mut files: Vec<File> = Vec::new();
    let mut i: usize = 0;
    let ghost targets = file_views(untracked_files@);
    proof {
        reveal(Seq::filter);
    }
    while i < untracked_files.len()
        invariant
            i <= untracked_files.len(),
            targets == file_views(untracked_files@),
            file_views(files@) == files_in(targets.take(i as int), dir_path@),
        decreases untracked_files.len() - i,
    {
        proof {
            let done = targets.take(i as int);
            assert(targets.take(i + 1) == done.push(untracked_files@[i as int]@));
            Seq::lemma_filter_push(done, untracked_files@[i as int]@, lies_in(dir_path@));
        }
        if is_direct_child_path(dir_path, &untracked_files[i].path) {
            files.push(untracked_files[i].clone());
        }
        i += 1;
    }
    assert(targets.take(i as int) == targets);
    files
}

/// The bytes of `files` together.
pub(crate) fn sum_bytes(files: &Vec<File>) -> (sum: u64)
    requires
        total_bytes(file_views(files@)) <= u64::MAX,
    ensures
        sum == total_bytes(file_views(files@)),
{
    let mut sum: u64 = 0;
    let mut i: usize = 0;
    let ghost all = file_views(files@);
    while i < files.len()
        invariant
            i <= files.len(),
            all == file_views(files@),
            total_bytes(all) <= u64::MAX,
            sum == total_bytes(all.take(i as int)),
        decreases files.len() - i,
    {
        proof {
            assert(all.take(i + 1).drop_last() == all.take(i as int));
            lemma_total_bytes_grows(all, i + 1);
        }
        sum = sum + files[i].byte_size;
        i += 1;
    }
    assert(all.take(i as int) == all);
    sum
}

} // verus!
