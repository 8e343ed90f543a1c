//! What the size of a node amounts to.
//!
//! Over a matrix whose levels name no directory twice, every target is
//! counted at most once in the size of a node: in the node it lies directly
//! inside, or not at all. So the size of a node is never more than the bytes
//! of all targets together. Over the depth matrix of a listing that names
//! every target, each target inside a node's directory is counted exactly
//! once, and the size of the node is the bytes of all targets inside its
//! directory.

use vstd::prelude::*;
use crate::hierarchy::{hierarchy, lemma_hierarchy_of_trails, runs_through, trails};
use crate::path::{
    is_direct_child, is_under, lemma_trail, lemma_trail_entry_depth, lemma_trail_entry_holds_path,
    lemma_trail_holds_directory, lemma_under_child_is_under, trail, SEPARATOR,
};
use crate::tree::{
    children_upto, files_in, level_len, lies_in, total_bytes, total_size, tree_at, FileView,
};

verus! {

/// The test for "this file lies somewhere inside `dir`".
pub open spec fn lies_under(dir: Seq<char>) -> spec_fn(FileView) -> bool {
    |file: FileView| is_under(dir, file.path)
}

/// The test for "this file lies somewhere inside one of the first `n`
/// directories of `level` that lie directly inside `dir`".
pub open spec fn lies_under_a_child(
    level: Seq<Seq<char>>,
    dir: Seq<char>,
    n: int,
) -> spec_fn(FileView) -> bool {
    |file: FileView|
        exists|j: int|
            0 <= j < n && j < level.len() && is_direct_child(dir, #[trigger] level[j]) && is_under(
                level[j],
                file.path,
            )
}

/// The bytes of those of `files` that pass `test`.
pub open spec fn bytes_where(files: Seq<FileView>, test: spec_fn(FileView) -> bool) -> nat
    decreases files.len(),
{
    if files.len() == 0 {
        0
    } else {
        let before = bytes_where(files.drop_last(), test);
        if test(files.last()) {
            before + files.last().byte_size
        } else {
            before
        }
    }
}

/// Whether no level of `matrix` names a directory twice.
pub open spec fn levels_are_distinct(matrix: Seq<Seq<Seq<char>>>) -> bool {
    forall|k: int| 0 <= k < matrix.len() ==> (#[trigger] matrix[k]).no_duplicates()
}

/// The files that pass a test weigh no more than all files.
pub proof fn lemma_bytes_where_bounded(files: Seq<FileView>, test: spec_fn(FileView) -> bool)
    ensures
        bytes_where(files, test) <= total_bytes(files),
    decreases files.len(),
{
    if files.len() > 0 {
        lemma_bytes_where_bounded(files.drop_last(), test);
    }
}

/// Two tests that no file passes both, and a third that every file passes
/// which passes one of them: what passes the first and what passes the
/// second weigh together no more than what passes the third.
pub proof fn lemma_disjoint_parts(
    files: Seq<FileView>,
    first: spec_fn(FileView) -> bool,
    second: spec_fn(FileView) -> bool,
    whole: spec_fn(FileView) -> bool,
)
    requires
        forall|file: FileView| !(#[trigger] first(file) && #[trigger] second(file)),
        forall|file: FileView| #[trigger] first(file) ==> whole(file),
        forall|file: FileView| #[trigger] second(file) ==> whole(file),
    ensures
        bytes_where(files, first) + bytes_where(files, second) <= bytes_where(files, whole),
    decreases files.len(),
{
    if files.len() > 0 {
        lemma_disjoint_parts(files.drop_last(), first, second, whole);
    }
}

/// The files of a directory weigh what of the targets passes the test for
/// lying directly inside it.
pub proof fn lemma_own_bytes(targets: Seq<FileView>, dir: Seq<char>)
    ensures
        total_bytes(files_in(targets, dir)) == bytes_where(targets, lies_in(dir)),
    decreases targets.len(),
{
    reveal(Seq::filter);
    if targets.len() > 0 {
        let front = targets.drop_last();
        lemma_own_bytes(front, dir);
        if lies_in(dir)(targets.last()) {
            assert(files_in(targets, dir).drop_last() == files_in(front, dir));
        }
    }
}

/// What lies inside two directories of the same parent lies inside one
/// directory: the two are the same.
pub proof fn lemma_siblings_share_nothing(
    dir: Seq<char>,
    first: Seq<char>,
    second: Seq<char>,
    path: Seq<char>,
)
    requires
        is_direct_child(dir, first),
        is_direct_child(dir, second),
        is_under(first, path),
        is_under(second, path),
    ensures
        first == second,
{
    let start = dir.len() as int + 1;
    if first.len() < second.len() {
        assert(second.skip(start)[first.len() - start] == SEPARATOR);
    } else if second.len() < first.len() {
        assert(first.skip(start)[second.len() - start] == SEPARATOR);
    }
}

/// What lies directly inside a directory lies inside none of the
/// directories below it.
pub proof fn lemma_own_files_lie_under_no_child(dir: Seq<char>, child: Seq<char>, path: Seq<char>)
    requires
        is_direct_child(dir, path),
        is_direct_child(dir, child),
    ensures
        !is_under(child, path),
{
    let start = dir.len() as int + 1;
    if is_under(child, path) {
        assert(path.skip(start)[child.len() - start] == SEPARATOR);
    }
}

/// The children found below a directory weigh no more than the targets
/// that lie inside them.
proof fn lemma_children_within(
    matrix: Seq<Seq<Seq<char>>>,
    targets: Seq<FileView>,
    h: int,
    dir: Seq<char>,
    n: nat,
)
    requires
        levels_are_distinct(matrix),
    ensures
        total_size(children_upto(matrix, targets, h, dir, n)) <= bytes_where(
            targets,
            lies_under_a_child(matrix[h + 1], dir, n as int),
        ),
    decreases matrix.len() - h, n,
{
    if 0 <= h && 0 < n <= level_len(matrix, h + 1) {
        let level = matrix[h + 1];
        let before = children_upto(matrix, targets, h, dir, (n - 1) as nat);
        let earlier = lies_under_a_child(level, dir, n - 1);
        let now = lies_under_a_child(level, dir, n as int);
        lemma_children_within(matrix, targets, h, dir, (n - 1) as nat);
        if is_direct_child(dir, level[n - 1]) {
            let child = tree_at(matrix, targets, h + 1, n - 1);
            let here = lies_under(level[n - 1]);
            lemma_node_within(matrix, targets, h + 1, n - 1);
            assert(before.push(child).drop_last() == before);
            assert forall|file: FileView| !(#[trigger] earlier(file) && #[trigger] here(file)) by {
                if earlier(file) && here(file) {
                    let j = choose|j: int|
                        0 <= j < n - 1 && j < level.len() && is_direct_child(dir, #[trigger] level[j])
                            && is_under(level[j], file.path);
                    lemma_siblings_share_nothing(dir, level[j], level[n - 1], file.path);
                }
            }
            assert forall|file: FileView| #[trigger] earlier(file) implies now(file) by {}
            assert forall|file: FileView| #[trigger] here(file) implies now(file) by {}
            lemma_disjoint_parts(targets, earlier, here, now);
        } else {
            let nothing = |file: FileView| false;
            assert forall|file: FileView| #[trigger] earlier(file) implies now(file) by {}
            lemma_disjoint_parts(targets, earlier, nothing, now);
        }
    }
}

/// A node weighs no more than the targets that lie inside its directory.
proof fn lemma_node_within(
    matrix: Seq<Seq<Seq<char>>>,
    targets: Seq<FileView>,
    h: int,
    w: int,
)
    requires
        levels_are_distinct(matrix),
    ensures
        tree_at(matrix, targets, h, w).size <= bytes_where(targets, lies_under(matrix[h][w])),
    decreases matrix.len() - h, level_len(matrix, h + 1) + 1,
{
    let dir = matrix[h][w];
    let level = matrix[h + 1];
    let n = level_len(matrix, h + 1);
    let own = lies_in(dir);
    let deeper = lies_under_a_child(level, dir, n as int);
    let whole = lies_under(dir);
    lemma_children_within(matrix, targets, h, dir, n);
    lemma_own_bytes(targets, dir);
    assert forall|file: FileView| !(#[trigger] own(file) && #[trigger] deeper(file)) by {
        if own(file) && deeper(file) {
            let j = choose|j: int|
                0 <= j < n && j < level.len() && is_direct_child(dir, #[trigger] level[j])
                    && is_under(level[j], file.path);
            lemma_own_files_lie_under_no_child(dir, level[j], file.path);
        }
    }
    assert forall|file: FileView| #[trigger] deeper(file) implies whole(file) by {
        let j = choose|j: int|
            0 <= j < n && j < level.len() && is_direct_child(dir, #[trigger] level[j]) && is_under(
                level[j],
                file.path,
            );
        lemma_under_child_is_under(dir, level[j], file.path);
    }
    assert forall|file: FileView| #[trigger] own(file) implies whole(file) by {}
    lemma_disjoint_parts(targets, own, deeper, whole);
}

/// Over a matrix whose levels name no directory twice, the size of a node
/// is no more than the bytes of all targets together.
pub proof fn lemma_size_within_targets(
    matrix: Seq<Seq<Seq<char>>>,
    targets: Seq<FileView>,
    h: int,
    w: int,
)
    requires
        levels_are_distinct(matrix),
    ensures
        tree_at(matrix, targets, h, w).size <= total_bytes(targets),
{
    lemma_node_within(matrix, targets, h, w);
    lemma_bytes_where_bounded(targets, lies_under(matrix[h][w]));
}

/// Whether every target is one of the listed files.
pub open spec fn all_listed(file_list: Seq<Seq<char>>, targets: Seq<FileView>) -> bool {
    forall|i: int| 0 <= i < targets.len() ==> file_list.contains((#[trigger] targets[i]).path)
}

/// Two tests that none of the files passes both, and a third that a file
/// passes exactly if it passes one of them: what passes the first and what
/// passes the second weigh together what passes the third.
pub proof fn lemma_partition(
    files: Seq<FileView>,
    first: spec_fn(FileView) -> bool,
    second: spec_fn(FileView) -> bool,
    whole: spec_fn(FileView) -> bool,
)
    requires
        forall|i: int| 0 <= i < files.len() ==> !(first(#[trigger] files[i]) && second(files[i])),
        forall|i: int|
            0 <= i < files.len() ==> (whole(#[trigger] files[i]) <==> first(files[i]) || second(
                files[i],
            )),
    ensures
        bytes_where(files, first) + bytes_where(files, second) == bytes_where(files, whole),
    decreases files.len(),
{
    if files.len() > 0 {
        let front = files.drop_last();
        assert forall|i: int| 0 <= i < front.len() implies !(first(#[trigger] front[i]) && second(
            front[i],
        )) by {}
        assert forall|i: int| 0 <= i < front.len() implies (whole(#[trigger] front[i]) <==> first(
            front[i],
        ) || second(front[i])) by {}
        lemma_partition(front, first, second, whole);
    }
}

/// A listed file that lies inside a directory of the matrix, and not
/// directly, lies inside one of the directories of the next level that lie
/// directly inside it.
proof fn lemma_deeper_target(file_list: Seq<Seq<char>>, h: int, w: int, path: Seq<char>)
    requires
        0 <= h < hierarchy(trails(file_list)).len(),
        0 <= w < hierarchy(trails(file_list))[h].len(),
        file_list.contains(path),
        is_under(hierarchy(trails(file_list))[h][w], path),
        !is_direct_child(hierarchy(trails(file_list))[h][w], path),
    ensures
        h + 1 < hierarchy(trails(file_list)).len(),
        exists|j: int|
            0 <= j < hierarchy(trails(file_list))[h + 1].len() && is_direct_child(
                hierarchy(trails(file_list))[h][w],
                #[trigger] hierarchy(trails(file_list))[h + 1][j],
            ) && is_under(hierarchy(trails(file_list))[h + 1][j], path),
{
    let matrix = hierarchy(trails(file_list));
    let dir = matrix[h][w];
    lemma_hierarchy_of_trails(file_list);
    assert(matrix[h].contains(dir));
    let g = choose|g: int| 0 <= g < file_list.len() && runs_through(#[trigger] file_list[g], h, dir);
    lemma_trail_entry_depth(file_list[g], h);
    lemma_trail_holds_directory(dir, path);
    lemma_trail(path);
    let child = trail(path)[h + 1];
    let below = h + 1;
    assert(matrix[below].contains(child));
    lemma_trail_entry_holds_path(path, h + 1);
}

/// Over the depth matrix of a listing that names every target, the children
/// found below a directory weigh what of the targets lies inside them.
proof fn lemma_children_weigh_their_targets(
    file_list: Seq<Seq<char>>,
    targets: Seq<FileView>,
    h: int,
    dir: Seq<char>,
    n: nat,
)
    requires
        all_listed(file_list, targets),
        0 <= h,
        n <= level_len(hierarchy(trails(file_list)), h + 1),
    ensures
        total_size(children_upto(hierarchy(trails(file_list)), targets, h, dir, n)) == bytes_where(
            targets,
            lies_under_a_child(hierarchy(trails(file_list))[h + 1], dir, n as int),
        ),
    decreases hierarchy(trails(file_list)).len() - h, n,
{
    let matrix = hierarchy(trails(file_list));
    let level = matrix[h + 1];
    let now = lies_under_a_child(level, dir, n as int);
    let nothing = |file: FileView| false;
    lemma_hierarchy_of_trails(file_list);
    if 0 < n {
        let before = children_upto(matrix, targets, h, dir, (n - 1) as nat);
        let earlier = lies_under_a_child(level, dir, n - 1);
        lemma_children_weigh_their_targets(file_list, targets, h, dir, (n - 1) as nat);
        assert forall|file: FileView| #[trigger] earlier(file) implies now(file) by {
            let j = choose|j: int|
                0 <= j < n - 1 && j < level.len() && is_direct_child(dir, #[trigger] level[j])
                    && is_under(level[j], file.path);
            assert(0 <= j < n && is_direct_child(dir, level[j]));
        }
        if is_direct_child(dir, level[n - 1]) {
            let child = tree_at(matrix, targets, h + 1, n - 1);
            let here = lies_under(level[n - 1]);
            lemma_node_weighs_its_targets(file_list, targets, h + 1, n - 1);
            assert(before.push(child).drop_last() == before);
            assert forall|file: FileView| !(#[trigger] earlier(file) && #[trigger] here(file)) by {
                if earlier(file) && here(file) {
                    let j = choose|j: int|
                        0 <= j < n - 1 && j < level.len() && is_direct_child(dir, #[trigger] level[j])
                            && is_under(level[j], file.path);
                    lemma_siblings_share_nothing(dir, level[j], level[n - 1], file.path);
                }
            }
            assert forall|file: FileView| #[trigger] now(file) implies earlier(file) || here(file) by {
                let j = choose|j: int|
                    0 <= j < n && j < level.len() && is_direct_child(dir, #[trigger] level[j])
                        && is_under(level[j], file.path);
                if j < n - 1 {
                    assert(earlier(file));
                }
            }
            assert forall|file: FileView| #[trigger] here(file) implies now(file) by {
                assert(is_direct_child(dir, level[n - 1]) && is_under(level[n - 1], file.path));
            }
            lemma_partition(targets, earlier, here, now);
        } else {
            assert forall|file: FileView| #[trigger] now(file) implies earlier(file) by {
                let j = choose|j: int|
                    0 <= j < n && j < level.len() && is_direct_child(dir, #[trigger] level[j])
                        && is_under(level[j], file.path);
                assert(j < n - 1);
            }
            lemma_partition(targets, earlier, nothing, now);
            lemma_nothing_weighs_nothing(targets);
        }
    } else {
        assert forall|file: FileView| !#[trigger] now(file) by {
            if now(file) {
                let j = choose|j: int|
                    0 <= j < n && j < level.len() && is_direct_child(dir, #[trigger] level[j])
                        && is_under(level[j], file.path);
            }
        }
        lemma_partition(targets, nothing, nothing, now);
        lemma_nothing_weighs_nothing(targets);
    }
}

/// What passes a test that nothing passes weighs nothing.
proof fn lemma_nothing_weighs_nothing(files: Seq<FileView>)
    ensures
        bytes_where(files, |file: FileView| false) == 0,
    decreases files.len(),
{
    if files.len() > 0 {
        lemma_nothing_weighs_nothing(files.drop_last());
    }
}

/// Over the depth matrix of a listing that names every target, a node
/// weighs what of the targets lies inside its directory.
proof fn lemma_node_weighs_its_targets(
    file_list: Seq<Seq<char>>,
    targets: Seq<FileView>,
    h: int,
    w: int,
)
    requires
        all_listed(file_list, targets),
        0 <= h < hierarchy(trails(file_list)).len(),
        0 <= w < hierarchy(trails(file_list))[h].len(),
    ensures
        tree_at(hierarchy(trails(file_list)), targets, h, w).size == bytes_where(
            targets,
            lies_under(hierarchy(trails(file_list))[h][w]),
        ),
    decreases hierarchy(trails(file_list)).len() - h, level_len(hierarchy(trails(file_list)), h + 1) + 1,
{
    let matrix = hierarchy(trails(file_list));
    let dir = matrix[h][w];
    let level = matrix[h + 1];
    let n = level_len(matrix, h + 1);
    let own = lies_in(dir);
    let deeper = lies_under_a_child(level, dir, n as int);
    let whole = lies_under(dir);
    lemma_children_weigh_their_targets(file_list, targets, h, dir, n);
    lemma_own_bytes(targets, dir);
    assert forall|i: int| 0 <= i < targets.len() implies !(own(#[trigger] targets[i]) && deeper(
        targets[i],
    )) by {
        let file = targets[i];
        if own(file) && deeper(file) {
            let j = choose|j: int|
                0 <= j < n && j < level.len() && is_direct_child(dir, #[trigger] level[j])
                    && is_under(level[j], file.path);
            lemma_own_files_lie_under_no_child(dir, level[j], file.path);
        }
    }
    assert forall|i: int| 0 <= i < targets.len() implies (whole(#[trigger] targets[i]) <==> own(
        targets[i],
    ) || deeper(targets[i])) by {
        let file = targets[i];
        if deeper(file) {
            let j = choose|j: int|
                0 <= j < n && j < level.len() && is_direct_child(dir, #[trigger] level[j])
                    && is_under(level[j], file.path);
            lemma_under_child_is_under(dir, level[j], file.path);
        }
        if whole(file) && !own(file) {
            lemma_deeper_target(file_list, h, w, file.path);
        }
    }
    lemma_partition(targets, own, deeper, whole);
}

/// Where the listing names every target, the size of a node over its depth
/// matrix is the bytes of all targets that lie inside the node's directory,
/// at any depth.
pub proof fn lemma_size_is_all_inside(
    file_list: Seq<Seq<char>>,
    targets: Seq<FileView>,
    h: int,
    w: int,
)
    requires
        all_listed(file_list, targets),
        0 <= h < hierarchy(trails(file_list)).len(),
        0 <= w < hierarchy(trails(file_list))[h].len(),
    ensures
        tree_at(hierarchy(trails(file_list)), targets, h, w).size == bytes_where(
            targets,
            lies_under(hierarchy(trails(file_list))[h][w]),
        ),
{
    lemma_node_weighs_its_targets(file_list, targets, h, w);
}

} // verus!
