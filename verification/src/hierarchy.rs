//! The depth matrix: for every depth, the distinct directories that the
//! listed files lie under at that depth.

use vstd::prelude::*;
use vstd::hash_set::StringHashSet;
use crate::path::{is_direct_child, lemma_trail, path_trail, trail};
use crate::text::views;

verus! {

/// The views of a vector of rows of strings.
pub open spec fn grid(rows: Seq<Vec<String>>) -> Seq<Seq<Seq<char>>> {
    Seq::new(rows.len(), |r: int| views(rows[r]@))
}

/// The entries at position `k` of the rows that run through a directory
/// there, in row order. The last entry of a row is a file and never counts.
pub open spec fn column(rows: Seq<Seq<Seq<char>>>, k: int) -> Seq<Seq<char>>
    decreases rows.len(),
{
    if rows.len() == 0 {
        Seq::<Seq<char>>::empty()
    } else {
        let before = column(rows.drop_last(), k);
        let row = rows.last();
        if 0 <= k < row.len() - 1 {
            before.push(row[k])
        } else {
            before
        }
    }
}

/// `items` without repetitions: each entry where it first occurs.
pub open spec fn distinct(items: Seq<Seq<char>>) -> Seq<Seq<char>>
    decreases items.len(),
{
    if items.len() == 0 {
        Seq::<Seq<char>>::empty()
    } else {
        let before = distinct(items.drop_last());
        if before.contains(items.last()) {
            before
        } else {
            before.push(items.last())
        }
    }
}

/// The number of directories that the longest row runs through.
pub open spec fn depth(rows: Seq<Seq<Seq<char>>>) -> nat
    decreases rows.len(),
{
    if rows.len() == 0 {
        0
    } else {
        let before = depth(rows.drop_last());
        let here = rows.last().len() - 1;
        if here > before {
            here as nat
        } else {
            before
        }
    }
}

/// The depth matrix of `rows`: level `k` holds the distinct directories at
/// position `k`, in the order in which the rows first name them.
pub open spec fn hierarchy(rows: Seq<Seq<Seq<char>>>) -> Seq<Seq<Seq<char>>> {
    Seq::new(depth(rows), |k: int| distinct(column(rows, k)))
}

/// The trails of the given paths, one row per path.
pub open spec fn trails(files: Seq<Seq<char>>) -> Seq<Seq<Seq<char>>> {
    Seq::new(files.len(), |i: int| trail(files[i]))
}

/// No row is deeper than the depth, so beyond it every column is empty.
pub proof fn lemma_column_beyond_depth(rows: Seq<Seq<Seq<char>>>, k: int)
    requires
        depth(rows) <= k,
    ensures
        column(rows, k) == Seq::<Seq<char>>::empty(),
    decreases rows.len(),
{
    if rows.len() > 0 {
        lemma_column_beyond_depth(rows.drop_last(), k);
    }
}

/// What `distinct` keeps: exactly the entries of the input, each once.
pub proof fn lemma_distinct(items: Seq<Seq<char>>)
    ensures
        distinct(items).no_duplicates(),
        forall|x: Seq<char>| distinct(items).contains(x) <==> items.contains(x),
    decreases items.len(),
{
    if items.len() > 0 {
        let front = items.drop_last();
        lemma_distinct(front);
        let before = distinct(front);
        assert forall|x: Seq<char>| distinct(items).contains(x) <==> items.contains(x) by {
            if items.contains(x) {
                let j = choose|j: int| 0 <= j < items.len() && items[j] == x;
                if j < front.len() {
                    assert(front[j] == x);
                    assert(front.contains(x));
                    let m = choose|m: int| 0 <= m < before.len() && before[m] == x;
                    assert(distinct(items)[m] == x);
                } else if !before.contains(items.last()) {
                    assert(distinct(items)[before.len() as int] == x);
                }
            }
            if distinct(items).contains(x) {
                let m = choose|m: int| 0 <= m < distinct(items).len() && distinct(items)[m] == x;
                if m < before.len() {
                    assert(front.contains(x));
                }
            }
        }
    }
}

/// What a column holds: exactly the directory entries at that position.
pub proof fn lemma_column(rows: Seq<Seq<Seq<char>>>, k: int)
    ensures
        forall|x: Seq<char>|
            column(rows, k).contains(x) <==> exists|r: int|
                0 <= r < rows.len() && 0 <= k < rows[r].len() - 1 && #[trigger] rows[r][k] == x,
    decreases rows.len(),
{
    if rows.len() > 0 {
        let front = rows.drop_last();
        lemma_column(front, k);
        let before = column(front, k);
        assert forall|x: Seq<char>| column(rows, k).contains(x) <==> exists|r: int|
            0 <= r < rows.len() && 0 <= k < rows[r].len() - 1 && #[trigger] rows[r][k] == x by {
            if column(rows, k).contains(x) {
                let m = choose|m: int| 0 <= m < column(rows, k).len() && column(rows, k)[m] == x;
                if m < before.len() {
                    assert(before.contains(x));
                }
            }
            if exists|r: int|
                0 <= r < rows.len() && 0 <= k < rows[r].len() - 1 && #[trigger] rows[r][k] == x {
                let r = choose|r: int|
                    0 <= r < rows.len() && 0 <= k < rows[r].len() - 1 && #[trigger] rows[r][k] == x;
                if r < front.len() {
                    assert(front[r][k] == x);
                    assert(before.contains(x));
                    let m = choose|m: int| 0 <= m < before.len() && before[m] == x;
                    assert(column(rows, k)[m] == x);
                } else {
                    assert(column(rows, k)[before.len() as int] == x);
                }
            }
        }
    }
}

/// The depth is reached by some row and exceeded by none.
pub proof fn lemma_depth(rows: Seq<Seq<Seq<char>>>)
    ensures
        forall|r: int| 0 <= r < rows.len() ==> (#[trigger] rows[r]).len() - 1 <= depth(rows),
        depth(rows) > 0 ==> exists|r: int|
            0 <= r < rows.len() && (#[trigger] rows[r]).len() - 1 == depth(rows),
    decreases rows.len(),
{
    if rows.len() > 0 {
        let front = rows.drop_last();
        lemma_depth(front);
        assert forall|r: int| 0 <= r < rows.len() implies (#[trigger] rows[r]).len() - 1 <= depth(
            rows,
        ) by {
            if r < front.len() {
                assert(front[r] == rows[r]);
            }
        }
        if depth(rows) > 0 {
            if rows.last().len() - 1 > depth(front) {
                assert(rows[rows.len() - 1].len() - 1 == depth(rows));
            } else {
                let r = choose|r: int|
                    0 <= r < front.len() && (#[trigger] front[r]).len() - 1 == depth(front);
                assert(rows[r] == front[r]);
            }
        }
    }
}

/// No level of a depth matrix is empty.
pub proof fn lemma_levels_are_inhabited(rows: Seq<Seq<Seq<char>>>, k: int)
    requires
        0 <= k < hierarchy(rows).len(),
    ensures
        hierarchy(rows)[k].len() > 0,
{
    lemma_depth(rows);
    let r = choose|r: int| 0 <= r < rows.len() && (#[trigger] rows[r]).len() - 1 == depth(rows);
    let dir = rows[r][k];
    lemma_column(rows, k);
    assert(column(rows, k).contains(dir));
    lemma_distinct(column(rows, k));
}

/// Whether `matrix` has the shape of a depth matrix: no level names a
/// directory twice, and every directory below the top level lies directly
/// inside one of the level above.
pub open spec fn is_depth_matrix(matrix: Seq<Seq<Seq<char>>>) -> bool {
    &&& forall|k: int| 0 <= k < matrix.len() ==> (#[trigger] matrix[k]).no_duplicates()
    &&& forall|k: int, j: int|
        1 <= k < matrix.len() && 0 <= j < matrix[k].len() ==> has_parent_in(
            matrix[k - 1],
            #[trigger] matrix[k][j],
        )
}

/// Whether `dir` lies directly inside one of the directories of `level`.
pub open spec fn has_parent_in(level: Seq<Seq<char>>, dir: Seq<char>) -> bool {
    exists|i: int| 0 <= i < level.len() && is_direct_child(#[trigger] level[i], dir)
}

/// Whether `dir` is the directory that `path` runs through at depth `k`.
pub open spec fn runs_through(path: Seq<char>, k: int, dir: Seq<char>) -> bool {
    0 <= k < trail(path).len() - 1 && trail(path)[k] == dir
}

/// What the depth matrix of listed files holds.
///
/// It is as high as the deepest file lies deep. Level `k` names exactly the
/// directories that some file runs through at depth `k`, so never a file,
/// and each of them once. The whole has the shape of a depth matrix.
pub proof fn lemma_hierarchy_of_trails(files: Seq<Seq<char>>)
    ensures
        is_depth_matrix(hierarchy(trails(files))),
        forall|i: int|
            0 <= i < files.len() ==> trail(#[trigger] files[i]).len() - 1 <= hierarchy(
                trails(files),
            ).len(),
        hierarchy(trails(files)).len() > 0 ==> exists|i: int|
            0 <= i < files.len() && trail(#[trigger] files[i]).len() - 1 == hierarchy(
                trails(files),
            ).len(),
        forall|k: int, dir: Seq<char>|
            0 <= k < hierarchy(trails(files)).len() ==> (#[trigger] hierarchy(trails(files))[k].contains(
                dir,
            ) <==> exists|i: int| 0 <= i < files.len() && runs_through(#[trigger] files[i], k, dir)),
{
    let rows = trails(files);
    let matrix = hierarchy(rows);
    lemma_depth(rows);
    assert forall|k: int, dir: Seq<char>| 0 <= k < matrix.len() implies (#[trigger] matrix[k].contains(
        dir,
    ) <==> exists|i: int| 0 <= i < files.len() && runs_through(#[trigger] files[i], k, dir)) by {
        lemma_level_entries(files, k, dir);
    }
    assert forall|k: int| 0 <= k < matrix.len() implies (#[trigger] matrix[k]).no_duplicates() by {
        lemma_distinct(column(rows, k));
    }
    assert forall|k: int, j: int|
        1 <= k < matrix.len() && 0 <= j < matrix[k].len() implies has_parent_in(
        matrix[k - 1],
        #[trigger] matrix[k][j],
    ) by {
        let dir = matrix[k][j];
        assert(matrix[k].contains(dir));
        lemma_level_entries(files, k, dir);
        let f = choose|f: int| 0 <= f < files.len() && runs_through(#[trigger] files[f], k, dir);
        let above = trail(files[f])[k - 1];
        lemma_trail(files[f]);
        assert(is_direct_child(trail(files[f])[k - 1], trail(files[f])[k - 1 + 1]));
        assert(runs_through(files[f], k - 1, above));
        lemma_level_entries(files, k - 1, above);
        let upper = matrix[k - 1];
        assert(upper.contains(above));
        let i = choose|i: int| 0 <= i < upper.len() && upper[i] == above;
        assert(is_direct_child(upper[i], matrix[k][j]));
    }
    if matrix.len() > 0 {
        let r = choose|r: int| 0 <= r < rows.len() && (#[trigger] rows[r]).len() - 1 == depth(rows);
        assert(trail(files[r]).len() - 1 == matrix.len());
    }
    assert forall|i: int| 0 <= i < files.len() implies trail(#[trigger] files[i]).len() - 1
        <= matrix.len() by {
        assert(rows[i].len() - 1 <= depth(rows));
    }
}

/// Whether some listed file bears the name of a directory that a listed
/// file lies in. On disk nothing is a file and a directory at once.
pub open spec fn a_file_is_a_directory(files: Seq<Seq<char>>) -> bool {
    exists|i: int, j: int, k: int|
        0 <= i < files.len() && 0 <= j < files.len() && #[trigger] runs_through(
            files[j],
            k,
            files[i],
        )
}

/// Where no listed file bears the name of a directory, no level of the
/// depth matrix names a listed file.
pub proof fn lemma_no_level_names_a_file(files: Seq<Seq<char>>)
    requires
        !a_file_is_a_directory(files),
    ensures
        forall|k: int, i: int|
            0 <= k < hierarchy(trails(files)).len() && 0 <= i < files.len() ==> !(
            #[trigger] hierarchy(trails(files))[k]).contains(#[trigger] files[i]),
{
    let matrix = hierarchy(trails(files));
    assert forall|k: int, i: int| 0 <= k < matrix.len() && 0 <= i < files.len() implies !(
    #[trigger] matrix[k]).contains(#[trigger] files[i]) by {
        lemma_level_entries(files, k, files[i]);
        if matrix[k].contains(files[i]) {
            let j = choose|j: int| 0 <= j < files.len() && runs_through(#[trigger] files[j], k, files[i]);
            assert(runs_through(files[j], k, files[i]));
        }
    }
}

/// Level `k` names `dir` exactly where some file runs through it at depth
/// `k`.
proof fn lemma_level_entries(files: Seq<Seq<char>>, k: int, dir: Seq<char>)
    requires
        0 <= k < hierarchy(trails(files)).len(),
    ensures
        hierarchy(trails(files))[k].contains(dir) <==> exists|i: int|
            0 <= i < files.len() && runs_through(#[trigger] files[i], k, dir),
{
    let rows = trails(files);
    lemma_distinct(column(rows, k));
    lemma_column(rows, k);
    if column(rows, k).contains(dir) {
        let r = choose|r: int|
            0 <= r < rows.len() && 0 <= k < rows[r].len() - 1 && #[trigger] rows[r][k] == dir;
        assert(runs_through(files[r], k, dir));
    }
    if exists|i: int| 0 <= i < files.len() && runs_through(#[trigger] files[i], k, dir) {
        let i = choose|i: int| 0 <= i < files.len() && runs_through(#[trigger] files[i], k, dir);
        assert(rows[i][k] == dir);
    }
}

/// A sequence with one more entry holds what it held before, and that entry.
proof fn lemma_contains_after_push(items: Seq<Seq<char>>, item: Seq<char>, x: Seq<char>)
    ensures
        items.push(item).contains(x) <==> items.contains(x) || x == item,
{
    let grown = items.push(item);
    if items.contains(x) {
        let j = choose|j: int| 0 <= j < items.len() && items[j] == x;
        assert(grown[j] == x);
    }
    if x == item {
        assert(grown[items.len() as int] == x);
    }
    if grown.contains(x) {
        let j = choose|j: int| 0 <= j < grown.len() && grown[j] == x;
        if j < items.len() {
            assert(items[j] == x);
        }
    }
}

/// Whether each of `seen` holds what the level of the same number holds.
spec fn seen_matches(seen: Seq<StringHashSet>, levels: Seq<Seq<Seq<char>>>) -> bool {
    &&& seen.len() == levels.len()
    &&& forall|k: int, x: Seq<char>|
        0 <= k < seen.len() ==> (#[trigger] seen[k]@.contains(x) <==> levels[k].contains(x))
}

/// Builds the depth matrix of `input`. Each row lists what a path runs
/// through, outermost first, and ends in the file itself; level `k` of the
/// result holds every directory found at position `k`, once.
pub fn dir_tree_hierarchy(input: &Vec<Vec<String>>) -> (output: Vec<Vec<String>>)
    ensures
        grid(output@) == hierarchy(grid(input@)),
{
    let mut output: Vec<Vec<String>> = Vec::new();
    let mut seen: Vec<StringHashSet> = Vec::new();
    let ghost rows = grid(input@);
    let mut r: usize = 0;
    while r < input.len()
        invariant
            r <= input.len(),
            rows == grid(input@),
            grid(output@) == hierarchy(rows.take(r as int)),
            seen_matches(seen@, grid(output@)),
        decreases input.len() - r,
    {
        let row = &input[r];
        let n: usize = row.len();
        let ghost done = rows.take(r as int);
        let ghost this = views(row@);
        assert(rows.take(r + 1) == done.push(this));
        assert(done.push(this).drop_last() == done);
        if n >= 1 {
            let mut i: usize = 0;
            proof {
                let short = done.push(this.take(1));
                assert(short.drop_last() == done);
                assert forall|k: int| 0 <= k < depth(short) implies distinct(column(short, k))
                    == distinct(column(done, k)) by {}
            }
            while i < n - 1
                invariant
                    i <= n - 1,
                    n == row@.len(),
                    this == views(row@),
                    grid(output@) == hierarchy(done.push(this.take(i + 1))),
                    seen_matches(seen@, grid(output@)),
                decreases n - 1 - i,
            {
                let item = row[i].clone();
                let ghost now = done.push(this.take(i + 1));
                let ghost next = done.push(this.take(i + 2));
                proof {
                    assert(now.drop_last() == done);
                    assert(next.drop_last() == done);
                    assert(column(next, i as int).drop_last() == column(done, i as int));
                    assert forall|k: int| k != i implies column(next, k) == column(now, k) by {}
                }
                let ghost old_grid = grid(output@);
                if i < output.len() {
                    let is_new = seen[i].insert(item.clone());
                    if is_new {
                        output[i].push(item);
                        assert(views(output@[i as int]@) == old_grid[i as int].push(item@));
                        assert(grid(output@) == old_grid.update(
                            i as int,
                            old_grid[i as int].push(item@),
                        ));
                    }
                    assert forall|k: int, x: Seq<char>| 0 <= k < seen@.len() implies (
                    #[trigger] seen@[k]@.contains(x) <==> grid(output@)[k].contains(x)) by {
                        if k == i {
                            if is_new {
                                lemma_contains_after_push(old_grid[k], item@, x);
                            }
                        }
                    }
                } else {
                    proof {
                        lemma_column_beyond_depth(done, i as int);
                    }
                    let mut set = StringHashSet::new();
                    set.insert(item.clone());
                    seen.push(set);
                    let mut level: Vec<String> = Vec::new();
                    level.push(item);
                    output.push(level);
                    assert(views(output@.last()@) == seq![item@]);
                    assert(grid(output@) == old_grid.push(seq![item@]));
                    assert forall|k: int, x: Seq<char>| 0 <= k < seen@.len() implies (
                    #[trigger] seen@[k]@.contains(x) <==> grid(output@)[k].contains(x)) by {
                        if k == i {
                            lemma_contains_after_push(Seq::<Seq<char>>::empty(), item@, x);
                        }
                    }
                    assert(distinct(Seq::<Seq<char>>::empty()) == Seq::<Seq<char>>::empty());
                }
                i += 1;
            }
            assert(this.take(n as int) == this);
        } else {
            proof {
                let grown = done.push(this);
                assert forall|k: int| 0 <= k < depth(grown) implies distinct(column(grown, k))
                    == distinct(column(done, k)) by {}
            }
        }
        r += 1;
    }
    assert(rows.take(r as int) == rows);
    output
}

/// Builds the depth matrix of the listed files: level `k` holds, once each
/// and in order of first appearance, the directories at depth `k` that some
/// file lies under.
pub fn get_dir_hierarchy_matrix(files: &Vec<String>) -> (matrix: Vec<Vec<String>>)
    ensures
        grid(matrix@) == hierarchy(trails(views(files@))),
        is_depth_matrix(grid(matrix@)),
{
    proof {
        lemma_hierarchy_of_trails(views(files@));
    }
    let mut paths: Vec<Vec<String>> = Vec::new();
    let mut i: usize = 0;
    while i < files.len()
        invariant
            i <= files.len(),
            grid(paths@) == trails(views(files@)).take(i as int),
        decreases files.len() - i,
    {
        let ghost before = grid(paths@);
        let steps = path_trail(&files[i]);
        paths.push(steps);
        assert(grid(paths@) == before.push(trail(files@[i as int]@)));
        i += 1;
    }
    assert(trails(views(files@)).take(i as int) == trails(views(files@)));
    dir_tree_hierarchy(&paths)
}

} // verus!
