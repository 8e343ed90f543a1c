//! Relative paths as text: their segments, the directories that lead to
//! them, and the test for "lies directly inside".
//!
//! Everything here is syntactic. No path is ever looked up on disk.

use vstd::prelude::*;
use vstd::string::StringExecFns;
use crate::text::{
    chars_of, join, lemma_join_split, lemma_split_around_separator, lemma_split_join,
    lemma_split_nonempty, lemma_split_pieces_hold_no_separator, split, split_by, views,
};

verus! {

/// The character that separates the segments of a relative path.
pub const SEPARATOR: char = '/';

/// The segments of a path: the names of the directories it runs through and,
/// last, the name of the file.
pub open spec fn segments(path: Seq<char>) -> Seq<Seq<char>> {
    split(path, SEPARATOR)
}

/// The paths that the first, the first two, ... and finally all of `segs`
/// spell out.
pub open spec fn cumulative(segs: Seq<Seq<char>>) -> Seq<Seq<char>> {
    Seq::new(segs.len(), |k: int| join(segs.take(k + 1), SEPARATOR))
}

/// The trail of a path: its ancestor directories from the outermost inward,
/// then the path itself.
pub open spec fn trail(path: Seq<char>) -> Seq<Seq<char>> {
    cumulative(segments(path))
}

/// `path` names something directly inside the directory `dir`: it is `dir`,
/// one separator, and one more segment.
pub open spec fn is_direct_child(dir: Seq<char>, path: Seq<char>) -> bool {
    &&& dir.len() < path.len()
    &&& path.take(dir.len() as int) == dir
    &&& path[dir.len() as int] == SEPARATOR
    &&& !path.skip(dir.len() as int + 1).contains(SEPARATOR)
}

/// `path` names something inside the directory `dir`, at any depth: it
/// starts with `dir` and a separator.
pub open spec fn is_under(dir: Seq<char>, path: Seq<char>) -> bool {
    &&& dir.len() < path.len()
    &&& path.take(dir.len() as int) == dir
    &&& path[dir.len() as int] == SEPARATOR
}

/// A directory, a separator and a name without separator spell a direct
/// child of that directory.
pub proof fn lemma_direct_child_built(dir: Seq<char>, name: Seq<char>)
    requires
        !name.contains(SEPARATOR),
    ensures
        is_direct_child(dir, dir.push(SEPARATOR) + name),
{
    let path = dir.push(SEPARATOR) + name;
    assert(path.take(dir.len() as int) == dir);
}

/// A path lies directly inside at most one directory.
pub proof fn lemma_one_parent(first: Seq<char>, second: Seq<char>, path: Seq<char>)
    requires
        is_direct_child(first, path),
        is_direct_child(second, path),
    ensures
        first == second,
{
    if first.len() < second.len() {
        let rest = path.skip(first.len() as int + 1);
        assert(rest[second.len() - first.len() - 1] == SEPARATOR);
    } else if second.len() < first.len() {
        let rest = path.skip(second.len() as int + 1);
        assert(rest[first.len() - second.len() - 1] == SEPARATOR);
    }
}

/// A trail has one entry per segment, ends in the path itself, and each
/// entry lies directly inside the one before it.
pub proof fn lemma_trail(path: Seq<char>)
    ensures
        trail(path).len() == segments(path).len(),
        trail(path).len() >= 1,
        trail(path).last() == path,
        forall|k: int|
            0 <= k < trail(path).len() - 1 ==> is_direct_child(
                #[trigger] trail(path)[k],
                trail(path)[k + 1],
            ),
{
    let segs = segments(path);
    lemma_split_nonempty(path, SEPARATOR);
    lemma_join_split(path, SEPARATOR);
    lemma_split_pieces_hold_no_separator(path, SEPARATOR);
    assert(segs.take(segs.len() as int) == segs);
    assert forall|k: int| 0 <= k < trail(path).len() - 1 implies is_direct_child(
        #[trigger] trail(path)[k],
        trail(path)[k + 1],
    ) by {
        let longer = segs.take(k + 2);
        assert(longer.drop_last() == segs.take(k + 1));
        lemma_direct_child_built(trail(path)[k], segs[k + 1]);
    }
}

/// What lies inside a directory's child lies inside the directory.
pub proof fn lemma_under_child_is_under(dir: Seq<char>, child: Seq<char>, path: Seq<char>)
    requires
        is_direct_child(dir, child),
        is_under(child, path),
    ensures
        is_under(dir, path),
{
    assert(path.take(dir.len() as int) == child.take(dir.len() as int));
}

/// A path lies inside every directory of its trail.
pub proof fn lemma_trail_entry_holds_path(path: Seq<char>, k: int)
    requires
        0 <= k < trail(path).len() - 1,
    ensures
        is_under(trail(path)[k], path),
    decreases trail(path).len() - k,
{
    lemma_trail(path);
    if k + 1 < trail(path).len() - 1 {
        lemma_trail_entry_holds_path(path, k + 1);
        lemma_under_child_is_under(trail(path)[k], trail(path)[k + 1], path);
    }
}

/// The directory at depth `k` of a trail has `k + 1` segments.
pub proof fn lemma_trail_entry_depth(path: Seq<char>, k: int)
    requires
        0 <= k < trail(path).len(),
    ensures
        segments(trail(path)[k]).len() == k + 1,
{
    let segs = segments(path);
    let upto = segs.take(k + 1);
    lemma_split_pieces_hold_no_separator(path, SEPARATOR);
    assert forall|j: int| 0 <= j < upto.len() implies !(#[trigger] upto[j]).contains(SEPARATOR) by {}
    lemma_split_join(upto, SEPARATOR);
}

/// A directory that a path lies inside stands in the path's trail, at the
/// depth that its own segments give.
pub proof fn lemma_trail_holds_directory(dir: Seq<char>, path: Seq<char>)
    requires
        is_under(dir, path),
    ensures
        segments(dir).len() - 1 < trail(path).len() - 1,
        trail(path)[segments(dir).len() - 1] == dir,
{
    let rest = path.skip(dir.len() as int + 1);
    assert(path == dir.push(SEPARATOR) + rest);
    lemma_split_around_separator(dir, rest, SEPARATOR);
    lemma_split_nonempty(dir, SEPARATOR);
    lemma_split_nonempty(rest, SEPARATOR);
    lemma_join_split(dir, SEPARATOR);
    let k = segments(dir).len() as int;
    assert(segments(path).take(k) == segments(dir));
}

/// Splits a path into its segments. The last one is the file's name,
/// whatever it is; a path without separator is a single segment.
pub fn path_segments(path: &String) -> (segs: Vec<String>)
    ensures
        views(segs@) == segments(path@),
        segs@.len() >= 1,
{
    proof {
        lemma_split_nonempty(path@, SEPARATOR);
    }
    split_by(path, SEPARATOR)
}

/// The trail of a path: each of its ancestor directories, outermost first,
/// and the path itself at the end.
pub fn path_trail(path: &String) -> (steps: Vec<String>)
    ensures
        views(steps@) == trail(path@),
{
    let segs = path_segments(path);
    let mut steps: Vec<String> = Vec::new();
    let mut so_far = String::new();
    let mut k: usize = 0;
    while k < segs.len()
        invariant
            k <= segs.len(),
            views(segs@) == segments(path@),
            so_far@ == join(views(segs@).take(k as int), SEPARATOR),
            views(steps@) == trail(path@).take(k as int),
        decreases segs.len() - k,
    {
        proof {
            let longer = views(segs@).take(k + 1);
            assert(longer.drop_last() == views(segs@).take(k as int));
        }
        if k > 0 {
            so_far.push(SEPARATOR);
        }
        so_far.append(segs[k].as_str());
        steps.push(so_far.clone());
        assert(trail(path@).take(k + 1) == trail(path@).take(k as int).push(trail(path@)[k as int]));
        k += 1;
    }
    steps
}

/// Whether `path` lies directly inside `dir`.
pub fn is_direct_child_path(dir: &String, path: &String) -> (inside: bool)
    ensures
        inside == is_direct_child(dir@, path@),
{
    let d = chars_of(dir.as_str());
    let p = chars_of(path.as_str());
    if p.len() <= d.len() {
        return false;
    }
    let mut i: usize = 0;
    while i < d.len()
        invariant
            i <= d.len() < p.len(),
            d@ == dir@,
            p@ == path@,
            forall|j: int| 0 <= j < i ==> p@[j] == d@[j],
        decreases d.len() - i,
    {
        if p[i] != d[i] {
            return false;
        }
        i += 1;
    }
    assert(path@.take(dir@.len() as int) == dir@);
    if p[i] != SEPARATOR {
        return false;
    }
    i += 1;
    let ghost start = i as int;
    while i < p.len()
        invariant
            start <= i <= p.len(),
            start == d.len() + 1,
            d@ == dir@,
            p@ == path@,
            forall|j: int| start <= j < i ==> p@[j] != SEPARATOR,
        decreases p.len() - i,
    {
        if p[i] == SEPARATOR {
            assert(path@.skip(start)[i - start] == SEPARATOR);
            return false;
        }
        i += 1;
    }
    assert forall|j: int| 0 <= j < path@.skip(start).len() implies path@.skip(start)[j]
        != SEPARATOR by {}
    true
}

} // verus!
