//! The report: every directory of a tree with its aggregate size, smallest
//! first, and under each its own files, smallest first.

use vstd::prelude::*;
use vstd::std_specs::convert::FromSpecImpl;
use vstd::string::StringExecFns;
use crate::order::{arranged, as_ints, as_nats, ascending_order, ascending_order_of, is_ascending_order};
use crate::size::{size_str, size_text};
use crate::text::views;
use crate::builder::{listed_tree, untracked_tree};
use crate::tree::{file_views, total_bytes, File, FileTree, FileView, TreeView};

verus! {

/// One directory of a tree on its own: its path, its files and its
/// aggregate size, without the directories below it.
#[derive(Debug)]
pub struct FileTreeInfo {
    pub dir: String,
    pub files: Vec<File>,
    pub size: u64,
}

/// What a [`FileTreeInfo`] stands for.
pub struct InfoView {
    pub dir: Seq<char>,
    pub files: Seq<FileView>,
    pub size: nat,
}

impl View for FileTreeInfo {
    type V = InfoView;

    open spec fn view(&self) -> InfoView {
        InfoView { dir: self.dir@, files: file_views(self.files@), size: self.size as nat }
    }
}

/// The views of a vector of records, in order.
pub open spec fn info_views(infos: Seq<FileTreeInfo>) -> Seq<InfoView> {
    Seq::new(infos.len(), |i: int| infos[i]@)
}

/// The record of the root of `tree`.
pub open spec fn info_of(tree: TreeView) -> InfoView {
    InfoView { dir: tree.dir, files: tree.files, size: tree.size }
}

/// The records of all nodes of `tree`: that of the root, then those of each
/// subtree in turn.
pub open spec fn flat(tree: TreeView) -> Seq<InfoView>
    decreases tree,
{
    seq![info_of(tree)] + flat_all(tree.nodes)
}

/// The records of all nodes of `trees`, tree after tree.
pub open spec fn flat_all(trees: Seq<TreeView>) -> Seq<InfoView>
    decreases trees,
{
    if trees.len() == 0 {
        Seq::<InfoView>::empty()
    } else {
        flat_all(trees.drop_last()) + flat(trees.last())
    }
}

/// The aggregate sizes of records, in order.
pub open spec fn record_sizes(infos: Seq<InfoView>) -> Seq<nat> {
    Seq::new(infos.len(), |i: int| infos[i].size)
}

/// The sizes of files, in order.
pub open spec fn file_sizes(files: Seq<FileView>) -> Seq<nat> {
    Seq::new(files.len(), |i: int| files[i].byte_size)
}

/// What stands between a path and its size.
pub open spec fn colon() -> Seq<char> {
    seq![':', ' ']
}

/// What stands before the path of a file.
pub open spec fn bullet() -> Seq<char> {
    seq![' ', ' ', ' ', ' ', '-', ' ']
}

/// The line for a directory: its path, a colon and its size.
pub open spec fn dir_line(info: InfoView) -> Seq<char> {
    info.dir + colon() + size_text(info.size)
}

/// The line for a file: indented, its path, a colon and its size.
pub open spec fn file_line(file: FileView) -> Seq<char> {
    bullet() + file.path + colon() + size_text(file.byte_size)
}

/// The lines for the given files, in the order given.
pub open spec fn file_lines(files: Seq<FileView>) -> Seq<Seq<char>> {
    Seq::new(files.len(), |i: int| file_line(files[i]))
}

/// The lines for one directory: its own line, then its files by ascending
/// size.
pub open spec fn record_lines(info: InfoView) -> Seq<Seq<char>> {
    seq![dir_line(info)] + file_lines(
        arranged(info.files, ascending_order_of(file_sizes(info.files))),
    )
}

/// The lines for the given records, in the order given.
pub open spec fn lines_of(infos: Seq<InfoView>) -> Seq<Seq<char>>
    decreases infos.len(),
{
    if infos.len() == 0 {
        Seq::<Seq<char>>::empty()
    } else {
        lines_of(infos.drop_last()) + record_lines(infos.last())
    }
}

/// The report on `tree`: its directories by ascending aggregate size, each
/// with its files by ascending size.
pub open spec fn report_lines(tree: TreeView) -> Seq<Seq<char>> {
    lines_of(arranged(flat(tree), ascending_order_of(record_sizes(flat(tree)))))
}

/// A record is a copy of the root's fields, equal to them in what they
/// stand for and not as values, so `from` answers to no `from_spec`. What it
/// returns is stated in its own contract.
impl FromSpecImpl<&FileTree> for FileTreeInfo {
    open spec fn obeys_from_spec() -> bool {
        false
    }

    open spec fn from_spec(file_tree: &FileTree) -> Self {
        arbitrary()
    }
}

impl From<&FileTree> for FileTreeInfo {
    /// The record of the root of `file_tree`.
    fn from(file_tree: &FileTree) -> (info: Self)
        ensures
            info@ == info_of(file_tree@),
    {
        let mut files: Vec<File> = Vec::new();
        let mut i: usize = 0;
        while i < file_tree.files.len()
            invariant
                i <= file_tree.files.len(),
                file_views(files@) == file_views(file_tree.files@).take(i as int),
            decreases file_tree.files.len() - i,
        {
            let ghost before = file_views(files@);
            files.push(file_tree.files[i].clone());
            assert(file_views(files@) == before.push(file_tree.files@[i as int]@));
            i += 1;
        }
        assert(file_views(file_tree.files@).take(i as int) == file_views(file_tree.files@));
        FileTreeInfo { dir: file_tree.dir.clone(), files, size: file_tree.size }
    }
}

/// The records that are out once the first `next` subtrees of `tree` have
/// been gone through: that of the root and those of these subtrees.
spec fn gone_through(tree: TreeView, next: int) -> Seq<InfoView> {
    seq![info_of(tree)] + flat_all(tree.nodes.take(next))
}

/// The records that are out for the nodes on the way down to the node at
/// hand: for each, what is out once the subtrees before the one that was
/// entered have been gone through.
spec fn out_above(way: Seq<(&FileTree, usize)>) -> Seq<InfoView>
    decreases way.len(),
{
    if way.len() == 0 {
        Seq::<InfoView>::empty()
    } else {
        out_above(way.drop_last()) + gone_through(way.last().0@, way.last().1 - 1)
    }
}

/// The steps it takes to go through `tree`.
spec fn walk(tree: TreeView) -> nat
    decreases tree, tree.nodes.len() + 1,
{
    1 + walk_from(tree, 0)
}

/// The steps it takes to go through the subtrees of `tree` from the one at
/// place `next` on.
spec fn walk_from(tree: TreeView, next: int) -> nat
    decreases tree, tree.nodes.len() - next,
{
    if 0 <= next < tree.nodes.len() {
        1 + walk(tree.nodes[next]) + walk_from(tree, next + 1)
    } else {
        0
    }
}

/// The steps that are left for the nodes on the way down, once the subtree
/// entered from each is done.
spec fn walk_above(way: Seq<(&FileTree, usize)>) -> nat
    decreases way.len(),
{
    if way.len() == 0 {
        0
    } else {
        walk_above(way.drop_last()) + 1 + walk_from(way.last().0@, way.last().1 as int)
    }
}

impl FileTree {
    /// Appends the records of all nodes of this tree to `tree_info`: that of
    /// the root first, then those of each subtree in turn.
    ///
    /// The way down to the node at hand is kept on a stack, so a deep tree
    /// costs memory and no call depth.
    pub fn flatten(&self, tree_info: &mut Vec<FileTreeInfo>)
        ensures
            info_views(final(tree_info)@) == info_views(old(tree_info)@) + flat(self@),
    {
        let ghost before = info_views(tree_info@);
        let mut way: Vec<(&FileTree, usize)> = Vec::new();
        let mut node: &FileTree = self;
        let mut next: usize = 0;
        tree_info.push(FileTreeInfo::from(node));
        loop
            invariant
                before == info_views(old(tree_info)@),
                next <= node.nodes@.len(),
                info_views(tree_info@) == before + out_above(way@) + gone_through(node@, next as int),
                forall|k: int|
                    0 <= k < way@.len() ==> 1 <= (#[trigger] way@[k]).1 <= way@[k].0.nodes@.len(),
                forall|k: int|
                    0 <= k < way@.len() - 1 ==> (#[trigger] way@[k]).0.nodes@[way@[k].1 - 1]
                        == way@[k + 1].0,
                way@.len() > 0 ==> way@.last().0.nodes@[way@.last().1 - 1] == node,
                way@.len() > 0 ==> way@[0].0 == self,
                way@.len() == 0 ==> node == self,
            decreases walk_above(way@) + 1 + walk_from(node@, next as int),
        {
            let ghost out = info_views(tree_info@);
            let ghost above = way@;
            if next < node.nodes.len() {
                let child = &node.nodes[next];
                assert(walk_from(node@, next as int) == 1 + walk(child@) + walk_from(
                    node@,
                    next + 1,
                ));
                way.push((node, next + 1));
                assert(way@.drop_last() == above);
                tree_info.push(FileTreeInfo::from(child));
                assert(info_views(tree_info@) == out.push(info_of(child@)));
                node = child;
                next = 0;
            } else {
                assert(node@.nodes.take(next as int) == node@.nodes);
                match way.pop() {
                    None => {
                        return ;
                    },
                    Some((parent, resume)) => {
                        proof {
                            let done = parent@.nodes.take(resume as int);
                            assert(done.drop_last() == parent@.nodes.take(resume - 1));
                            assert(gone_through(parent@, resume as int) == gone_through(
                                parent@,
                                resume - 1,
                            ) + flat(node@));
                        }
                        node = parent;
                        next = resume;
                    },
                }
            }
        }
    }

    /// The lines of the report on this tree.
    pub fn report(&self) -> (lines: Vec<String>)
        ensures
            views(lines@) == report_lines(self@),
    {
        let mut infos: Vec<FileTreeInfo> = Vec::new();
        self.flatten(&mut infos);
        let mut sizes: Vec<u64> = Vec::new();
        let mut i: usize = 0;
        while i < infos.len()
            invariant
                i <= infos.len(),
                sizes@.len() == i,
                forall|j: int| 0 <= j < i ==> sizes@[j] == infos@[j].size,
            decreases infos.len() - i,
        {
            sizes.push(infos[i].size);
            i += 1;
        }
        assert(as_nats(sizes@) == record_sizes(flat(self@)));
        let order = ascending_order(&sizes);
        let ghost sorted = arranged(flat(self@), as_ints(order@));
        let mut lines: Vec<String> = Vec::new();
        let mut i: usize = 0;
        while i < order.len()
            invariant
                i <= order.len(),
                order@.len() == infos@.len(),
                info_views(infos@) == flat(self@),
                is_ascending_order(record_sizes(flat(self@)), as_ints(order@)),
                sorted == arranged(flat(self@), as_ints(order@)),
                views(lines@) == lines_of(sorted.take(i as int)),
            decreases order.len() - i,
        {
            assert(0 <= as_ints(order@)[i as int] < infos@.len());
            let info = &infos[order[i]];
            proof {
                assert(sorted.take(i + 1).drop_last() == sorted.take(i as int));
            }
            append_record(&mut lines, info);
            i += 1;
        }
        assert(sorted.take(i as int) == sorted);
        lines
    }
}

/// What is reported where no listed file lies in a directory.
pub open spec fn nothing_to_show() -> Seq<char> {
    "nothing to show"@
}

/// The report on the listed files: the report on their tree, or the one
/// line that there is nothing to show.
pub open spec fn untracked_report(
    file_list: Seq<Seq<char>>,
    targets: Seq<FileView>,
) -> Seq<Seq<char>> {
    match listed_tree(file_list, targets) {
        Some(tree) => report_lines(tree),
        None => seq![nothing_to_show()],
    }
}

/// The lines to print for the listed files: the report on their tree, or
/// one line saying that there is nothing to show.
///
/// The sizes of the targets together must fit the type of a size.
pub fn report_untracked(file_list: &Vec<String>, target_files: &Vec<File>) -> (lines: Vec<String>)
    requires
        total_bytes(file_views(target_files@)) <= u64::MAX,
    ensures
        views(lines@) == untracked_report(views(file_list@), file_views(target_files@)),
{
    match untracked_tree(file_list, target_files) {
        Some(tree) => tree.report(),
        None => {
            let mut lines: Vec<String> = Vec::new();
            lines.push(String::from_str("nothing to show"));
            lines
        },
    }
}

/// Appends the lines for one directory to `lines`.
fn append_record(lines: &mut Vec<String>, info: &FileTreeInfo)
    ensures
        views(final(lines)@) == views(old(lines)@) + record_lines(info@),
{
    let ghost before = views(lines@);
    let mut head = info.dir.clone();
    head.append(": ");
    head.append(size_str(info.size).as_str());
    proof {
        reveal_strlit(": ");
        assert(": "@ == colon());
    }
    lines.push(head);
    let mut sizes: Vec<u64> = Vec::new();
    let mut i: usize = 0;
    while i < info.files.len()
        invariant
            i <= info.files.len(),
            sizes@.len() == i,
            forall|j: int| 0 <= j < i ==> sizes@[j] == info.files@[j].byte_size,
        decreases info.files.len() - i,
    {
        sizes.push(info.files[i].byte_size);
        i += 1;
    }
    assert(as_nats(sizes@) == file_sizes(info@.files));
    let order = ascending_order(&sizes);
    let ghost sorted = arranged(info@.files, as_ints(order@));
    let mut i: usize = 0;
    while i < order.len()
        invariant
            i <= order.len(),
            order@.len() == info.files@.len(),
            is_ascending_order(file_sizes(info@.files), as_ints(order@)),
            sorted == arranged(info@.files, as_ints(order@)),
            views(lines@) == before.push(dir_line(info@)) + file_lines(sorted).take(i as int),
        decreases order.len() - i,
    {
        assert(0 <= as_ints(order@)[i as int] < info.files@.len());
        let file = &info.files[order[i]];
        let mut line = String::new();
        line.append("    - ");
        line.append(file.path.as_str());
        line.append(": ");
        line.append(size_str(file.byte_size).as_str());
        proof {
            reveal_strlit(": ");
            reveal_strlit("    - ");
            assert(line@ == file_line(file@));
        }
        let ghost so_far = views(lines@);
        lines.push(line);
        assert(views(lines@) == so_far.push(file_line(file@)));
        i += 1;
    }
}

} // verus!
