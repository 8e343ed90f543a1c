//! Building the tree over a depth matrix.
//!
//! The tree is as deep as the deepest listed path, which whoever fills the
//! working directory decides. The builder therefore keeps the nodes that are
//! under construction on a stack of its own and never calls itself.

use vstd::prelude::*;
use crate::aggregate::{
    all_listed, bytes_where, lemma_size_is_all_inside, lemma_size_within_targets, lies_under,
};
use crate::hierarchy::{
    get_dir_hierarchy_matrix, grid, hierarchy, lemma_levels_are_inhabited, trails,
};
use crate::path::{is_direct_child, is_direct_child_path};
use crate::text::views;
use crate::tree::{
    children_upto, every_node, file_views, files_in, get_files_at_dir, holds_its_files,
    lemma_files_sit_in_their_directory, lemma_nodes_nest_directly, lemma_sizes_add_up, level_len,
    sum_bytes, total_bytes, total_size, tree_at, tree_views, File, FileTree, FileView, TreeView,
};

verus! {

/// A node under construction: the entry of the matrix it is built for, how
/// far the next level has been searched for its children, and what has been
/// gathered so far.
struct Frame {
    depth: usize,
    index: usize,
    next: usize,
    dir: String,
    files: Vec<File>,
    nodes: Vec<FileTree>,
    size: u64,
}

/// The steps it takes to build the node for entry `w` of level `h`.
spec fn effort(matrix: Seq<Seq<Seq<char>>>, h: int, w: int) -> nat
    decreases matrix.len() - h, level_len(matrix, h + 1) + 1,
{
    1 + rest(matrix, h, matrix[h][w], 0)
}

/// The steps it takes to search level `h + 1` from entry `next` on for the
/// children of `dir`, and to build those that are found.
spec fn rest(matrix: Seq<Seq<Seq<char>>>, h: int, dir: Seq<char>, next: int) -> nat
    decreases matrix.len() - h, level_len(matrix, h + 1) - next,
{
    if 0 <= h && 0 <= next < level_len(matrix, h + 1) {
        let found: nat = if is_direct_child(dir, matrix[h + 1][next]) {
            effort(matrix, h + 1, next)
        } else {
            0
        };
        1 + found + rest(matrix, h, dir, next + 1)
    } else {
        0
    }
}

/// The steps that the frames of `stack` still need, once the node above
/// each of them is done.
spec fn backlog(stack: Seq<Frame>, matrix: Seq<Seq<Seq<char>>>) -> nat
    decreases stack.len(),
{
    if stack.len() == 0 {
        0
    } else {
        backlog(stack.drop_last(), matrix) + stack.last().left(matrix)
    }
}

impl Frame {
    /// The frame belongs to an entry of the matrix, holds that entry's files,
    /// and its size is the bytes of what it has gathered.
    spec fn sound(&self, matrix: Seq<Seq<Seq<char>>>, targets: Seq<FileView>) -> bool {
        &&& self.depth < matrix.len()
        &&& self.index < matrix[self.depth as int].len()
        &&& self.dir@ == matrix[self.depth as int][self.index as int]
        &&& file_views(self.files@) == files_in(targets, self.dir@)
        &&& self.next <= level_len(matrix, self.depth + 1)
        &&& self.size == total_bytes(file_views(self.files@)) + total_size(tree_views(self.nodes@))
        &&& tree_at(matrix, targets, self.depth as int, self.index as int).size <= u64::MAX
    }

    /// The frame holds the finished nodes of all its children among the
    /// entries searched so far.
    spec fn ready(&self, matrix: Seq<Seq<Seq<char>>>, targets: Seq<FileView>) -> bool {
        tree_views(self.nodes@) == children_upto(
            matrix,
            targets,
            self.depth as int,
            self.dir@,
            self.next as nat,
        )
    }

    /// The frame waits for the node of the entry it searched last, which is
    /// entry `index` of level `depth`.
    spec fn awaits(
        &self,
        matrix: Seq<Seq<Seq<char>>>,
        targets: Seq<FileView>,
        depth: int,
        index: int,
    ) -> bool {
        &&& self.next >= 1
        &&& depth == self.depth + 1
        &&& index == self.next - 1
        &&& is_direct_child(self.dir@, matrix[depth][index])
        &&& tree_views(self.nodes@) == children_upto(
            matrix,
            targets,
            self.depth as int,
            self.dir@,
            (self.next - 1) as nat,
        )
    }

    /// The steps this frame still needs.
    spec fn left(&self, matrix: Seq<Seq<Seq<char>>>) -> nat {
        1 + rest(matrix, self.depth as int, self.dir@, self.next as int)
    }

    /// Starts the node for entry `index` of level `depth`.
    fn open(
        dir_matrix: &Vec<Vec<String>>,
        target_files: &Vec<File>,
        depth: usize,
        index: usize,
    ) -> (frame: Frame)
        requires
            depth < dir_matrix@.len(),
            index < dir_matrix@[depth as int]@.len(),
            tree_at(
                grid(dir_matrix@),
                file_views(target_files@),
                depth as int,
                index as int,
            ).size <= u64::MAX,
        ensures
            frame.depth == depth,
            frame.index == index,
            frame.next == 0,
            frame.sound(grid(dir_matrix@), file_views(target_files@)),
            frame.ready(grid(dir_matrix@), file_views(target_files@)),
    {
        let dir = dir_matrix[depth][index].clone();
        let files = get_files_at_dir(target_files, &dir);
        let size: u64 = sum_bytes(&files);
        let frame = Frame { depth, index, next: 0, dir, files, nodes: Vec::new(), size };
        assert(tree_views(frame.nodes@) == Seq::<TreeView>::empty());
        frame
    }
}

/// The sizes of the children found among fewer entries are no more than
/// those found among more.
proof fn lemma_children_grow(
    matrix: Seq<Seq<Seq<char>>>,
    targets: Seq<FileView>,
    h: int,
    dir: Seq<char>,
    n: nat,
    k: nat,
)
    requires
        0 <= h,
        n <= k <= level_len(matrix, h + 1),
    ensures
        total_size(children_upto(matrix, targets, h, dir, n)) <= total_size(
            children_upto(matrix, targets, h, dir, k),
        ),
    decreases k,
{
    if n < k {
        lemma_children_grow(matrix, targets, h, dir, n, (k - 1) as nat);
        let before = children_upto(matrix, targets, h, dir, (k - 1) as nat);
        if is_direct_child(dir, matrix[h + 1][k - 1]) {
            let child = tree_at(matrix, targets, h + 1, k - 1);
            assert(before.push(child).drop_last() == before);
        }
    }
}

/// A child is no larger than the node it lies in.
proof fn lemma_child_fits(
    matrix: Seq<Seq<Seq<char>>>,
    targets: Seq<FileView>,
    h: int,
    w: int,
    i: int,
)
    requires
        0 <= h,
        0 <= i < level_len(matrix, h + 1),
        is_direct_child(matrix[h][w], matrix[h + 1][i]),
    ensures
        tree_at(matrix, targets, h + 1, i).size <= tree_at(matrix, targets, h, w).size,
{
    let dir = matrix[h][w];
    lemma_children_grow(matrix, targets, h, dir, (i + 1) as nat, level_len(matrix, h + 1));
}

impl FileTree {
    /// Builds the node for entry `w_index` of level `h_index` of the matrix,
    /// with everything below it. A level beyond the matrix has no nodes.
    ///
    /// The files of each node are taken from `target_files` by their paths.
    /// The aggregate size of the node must fit its type.
    pub fn new(
        dir_matrix: &Vec<Vec<String>>,
        target_files: &Vec<File>,
        h_index: usize,
        w_index: usize,
    ) -> (tree: Option<FileTree>)
        requires
            h_index < dir_matrix@.len() ==> w_index < dir_matrix@[h_index as int]@.len(),
            h_index < dir_matrix@.len() ==> tree_at(
                grid(dir_matrix@),
                file_views(target_files@),
                h_index as int,
                w_index as int,
            ).size <= u64::MAX,
        ensures
            tree is Some <==> h_index < dir_matrix@.len(),
            tree matches Some(built) ==> {
                &&& built@ == tree_at(
                    grid(dir_matrix@),
                    file_views(target_files@),
                    h_index as int,
                    w_index as int,
                )
                &&& built.well_formed()
                &&& every_node(built@, holds_its_files(file_views(target_files@)))
            },
    {
        if h_index >= dir_matrix.len() {
            return None;
        }
        let ghost matrix = grid(dir_matrix@);
        let ghost targets = file_views(target_files@);
        let height: usize = dir_matrix.len();
        let mut stack: Vec<Frame> = Vec::new();
        let mut cur = Frame::open(dir_matrix, target_files, h_index, w_index);
        loop
            invariant
                height == dir_matrix@.len(),
                matrix == grid(dir_matrix@),
                targets == file_views(target_files@),
                cur.sound(matrix, targets),
                cur.ready(matrix, targets),
                forall|k: int| 0 <= k < stack@.len() ==> (#[trigger] stack@[k]).sound(matrix, targets),
                forall|k: int|
                    0 <= k < stack@.len() - 1 ==> (#[trigger] stack@[k]).awaits(
                        matrix,
                        targets,
                        stack@[k + 1].depth as int,
                        stack@[k + 1].index as int,
                    ),
                stack@.len() > 0 ==> stack@.last().awaits(
                    matrix,
                    targets,
                    cur.depth as int,
                    cur.index as int,
                ),
                stack@.len() > 0 ==> stack@[0].depth == h_index && stack@[0].index == w_index,
                stack@.len() == 0 ==> cur.depth == h_index && cur.index == w_index,
            decreases backlog(stack@, matrix) + cur.left(matrix),
        {
            let below: usize = cur.depth + 1;
            if below < height && cur.next < dir_matrix[below].len() {
                let i: usize = cur.next;
                let inside = is_direct_child_path(&cur.dir, &dir_matrix[below][i]);
                let ghost found: nat = if inside {
                    effort(matrix, below as int, i as int)
                } else {
                    0
                };
                assert(rest(matrix, cur.depth as int, cur.dir@, i as int) == 1 + found + rest(
                    matrix,
                    cur.depth as int,
                    cur.dir@,
                    i + 1,
                ));
                cur.next = i + 1;
                if inside {
                    proof {
                        lemma_child_fits(matrix, targets, cur.depth as int, cur.index as int, i as int);
                    }
                    let child = Frame::open(dir_matrix, target_files, below, i);
                    let ghost before = stack@;
                    stack.push(cur);
                    assert(stack@.drop_last() == before);
                    cur = child;
                }
            } else {
                let ghost finished = cur;
                let node = FileTree { dir: cur.dir, files: cur.files, nodes: cur.nodes, size: cur.size };
                proof {
                    let model = tree_at(matrix, targets, finished.depth as int, finished.index as int);
                    assert(node@.nodes == model.nodes);
                }
                match stack.pop() {
                    None => {
                        proof {
                            lemma_sizes_add_up(matrix, targets, h_index as int, w_index as int);
                            lemma_files_sit_in_their_directory(
                                matrix,
                                targets,
                                h_index as int,
                                w_index as int,
                            );
                            lemma_nodes_nest_directly(matrix, targets, h_index as int, w_index as int);
                        }
                        return Some(node);
                    },
                    Some(parent) => {
                        let ghost waiting = parent;
                        cur = parent;
                        proof {
                            let found = children_upto(
                                matrix,
                                targets,
                                cur.depth as int,
                                cur.dir@,
                                (cur.next - 1) as nat,
                            );
                            assert(found.push(node@).drop_last() == found);
                            lemma_children_grow(
                                matrix,
                                targets,
                                cur.depth as int,
                                cur.dir@,
                                cur.next as nat,
                                level_len(matrix, cur.depth + 1),
                            );
                        }
                        cur.size = cur.size + node.size;
                        cur.nodes.push(node);
                        assert(tree_views(cur.nodes@) == tree_views(waiting.nodes@).push(node@));
                    },
                }
            }
        }
    }
}

/// The depth matrix of the listed files.
pub open spec fn listed_matrix(file_list: Seq<Seq<char>>) -> Seq<Seq<Seq<char>>> {
    hierarchy(trails(file_list))
}

/// The tree of the listed files: the node of the first directory of the top
/// level, where a listed file lies in a directory at all.
pub open spec fn listed_tree(file_list: Seq<Seq<char>>, targets: Seq<FileView>) -> Option<TreeView> {
    if listed_matrix(file_list).len() == 0 {
        None
    } else {
        Some(tree_at(listed_matrix(file_list), targets, 0, 0))
    }
}

/// Whether the sizes of the given files can be added up.
pub fn sizes_fit(target_files: &Vec<File>) -> (fit: bool)
    ensures
        fit == (total_bytes(file_views(target_files@)) <= u64::MAX),
{
    let mut sum: u64 = 0;
    let mut i: usize = 0;
    let ghost all = file_views(target_files@);
    while i < target_files.len()
        invariant
            i <= target_files.len(),
            all == file_views(target_files@),
            sum == total_bytes(all.take(i as int)),
        decreases target_files.len() - i,
    {
        assert(all.take(i + 1).drop_last() == all.take(i as int));
        match sum.checked_add(target_files[i].byte_size) {
            Some(more) => {
                sum = more;
            },
            None => {
                proof {
                    crate::tree::lemma_total_bytes_grows(all, i + 1);
                }
                return false;
            },
        }
        i += 1;
    }
    assert(all.take(i as int) == all);
    true
}

/// Builds the tree of the listed files. Its shape comes from the paths of
/// `file_list`, its files and sizes from `target_files`: a listed file that
/// is no target leaves its directories in the tree and adds no bytes.
/// Where every target is listed, the size of the tree is the bytes of all
/// targets inside its directory.
///
/// The sizes of the targets together must fit the type of a size.
pub fn untracked_tree(file_list: &Vec<String>, target_files: &Vec<File>) -> (tree: Option<FileTree>)
    requires
        total_bytes(file_views(target_files@)) <= u64::MAX,
    ensures
        match tree {
            Some(built) => {
                &&& Some(built@) == listed_tree(views(file_list@), file_views(target_files@))
                &&& built.well_formed()
                &&& every_node(built@, holds_its_files(file_views(target_files@)))
                &&& all_listed(views(file_list@), file_views(target_files@)) ==> built@.size
                    == bytes_where(file_views(target_files@), lies_under(built@.dir))
            },
            None => listed_tree(views(file_list@), file_views(target_files@)) is None,
        },
{
    let dir_matrix = get_dir_hierarchy_matrix(file_list);
    proof {
        let matrix = grid(dir_matrix@);
        let targets = file_views(target_files@);
        if matrix.len() > 0 {
            lemma_levels_are_inhabited(trails(views(file_list@)), 0);
            lemma_size_within_targets(matrix, targets, 0, 0);
            if all_listed(views(file_list@), targets) {
                lemma_size_is_all_inside(views(file_list@), targets, 0, 0);
            }
        }
    }
    FileTree::new(&dir_matrix, target_files, 0, 0)
}

} // verus!
