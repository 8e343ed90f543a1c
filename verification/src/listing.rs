//! Reading the list of files out of the text a version-control tool printed.

use vstd::prelude::*;
use crate::text::{split, split_by, views};

verus! {

/// The character that ends a line of the listing.
pub const LINE_END: char = '\n';

/// Whether a line of the listing names a file: every line but the empty ones.
pub open spec fn names_a_file() -> spec_fn(Seq<char>) -> bool {
    |line: Seq<char>| line.len() > 0
}

/// The file names in a listing: its lines, in order, without the empty ones.
pub open spec fn file_list(std_out: Seq<char>) -> Seq<Seq<char>> {
    split(std_out, LINE_END).filter(names_a_file())
}

/// Splits the output of the listing command into one entry per file,
/// discarding empty lines.
pub fn get_file_list_from(std_out: &String) -> (files: Vec<String>)
    ensures
        views(files@) == file_list(std_out@),
{
    let lines = split_by(std_out, LINE_END);
    let mut files: Vec<String> = Vec::new();
    let mut i: usize = 0;
    while i < lines.len()
        invariant
            i <= lines.len(),
            views(files@) == views(lines@).take(i as int).filter(names_a_file()),
        decreases lines.len() - i,
    {
        proof {
            let done = views(lines@).take(i as int);
            assert(views(lines@).take(i + 1) == done.push(lines@[i as int]@));
            Seq::lemma_filter_push(done, lines@[i as int]@, names_a_file());
        }
        if !lines[i].as_str().is_empty() {
            files.push(lines[i].clone());
        }
        i += 1;
    }
    assert(views(lines@).take(i as int) == views(lines@));
    files
}

} // verus!
