//! Splitting and joining of character sequences, and the few string
//! primitives the rest of the crate is built on.

use vstd::prelude::*;

verus! {

/// `String::push` appends one character to the end of the string and leaves
/// what was there before untouched.
pub assume_specification[ String::push ](s: &mut String, ch: char)
    ensures
        final(s)@ == old(s)@.push(ch),
;

/// The pieces of `s` between the occurrences of `sep`.
///
/// There is always at least one piece; a separator at either end of `s`, or
/// two in a row, give an empty piece.
pub open spec fn split(s: Seq<char>, sep: char) -> Seq<Seq<char>>
    decreases s.len(),
{
    if s.len() == 0 {
        seq![Seq::<char>::empty()]
    } else {
        let before = split(s.drop_last(), sep);
        if s.last() == sep {
            before.push(Seq::<char>::empty())
        } else {
            before.drop_last().push(before.last().push(s.last()))
        }
    }
}

/// The pieces of `parts` in a row, with one `sep` between neighbours.
pub open spec fn join(parts: Seq<Seq<char>>, sep: char) -> Seq<char>
    decreases parts.len(),
{
    if parts.len() == 0 {
        Seq::<char>::empty()
    } else if parts.len() == 1 {
        parts[0]
    } else {
        join(parts.drop_last(), sep).push(sep) + parts.last()
    }
}

/// The views of a vector of strings, in order.
pub open spec fn views(v: Seq<String>) -> Seq<Seq<char>> {
    Seq::new(v.len(), |i: int| v[i]@)
}

/// Splitting always yields at least one piece.
pub proof fn lemma_split_nonempty(s: Seq<char>, sep: char)
    ensures
        split(s, sep).len() >= 1,
    decreases s.len(),
{
    if s.len() > 0 {
        lemma_split_nonempty(s.drop_last(), sep);
    }
}

/// No piece of a split holds the separator.
pub proof fn lemma_split_pieces_hold_no_separator(s: Seq<char>, sep: char)
    ensures
        forall|k: int| 0 <= k < split(s, sep).len() ==> !(#[trigger] split(s, sep)[k]).contains(sep),
    decreases s.len(),
{
    if s.len() > 0 {
        lemma_split_nonempty(s.drop_last(), sep);
        lemma_split_pieces_hold_no_separator(s.drop_last(), sep);
        let before = split(s.drop_last(), sep);
        if s.last() != sep {
            let grown = before.last().push(s.last());
            assert forall|j: int| 0 <= j < grown.len() implies grown[j] != sep by {}
        }
    }
}

/// Joining the pieces of a split with the same separator gives the text back.
pub proof fn lemma_join_split(s: Seq<char>, sep: char)
    ensures
        join(split(s, sep), sep) == s,
    decreases s.len(),
{
    if s.len() > 0 {
        let t = s.drop_last();
        let before = split(t, sep);
        lemma_split_nonempty(t, sep);
        lemma_join_split(t, sep);
        if s.last() == sep {
            let now = before.push(Seq::<char>::empty());
            assert(now.drop_last() == before);
            assert(join(now, sep) == join(before, sep).push(sep) + Seq::<char>::empty());
            assert(t.push(sep) == s);
        } else {
            let grown = before.last().push(s.last());
            let now = before.drop_last().push(grown);
            assert(now.drop_last() == before.drop_last());
            if before.len() == 1 {
                assert(before.last() == t);
                assert(grown == s);
            } else {
                assert(join(before, sep) == join(before.drop_last(), sep).push(sep) + before.last());
                assert(join(now, sep) == join(before.drop_last(), sep).push(sep) + grown);
                assert(join(now, sep) == (join(before.drop_last(), sep).push(sep) + before.last()).push(
                    s.last(),
                ));
                assert(t.push(s.last()) == s);
            }
        }
    }
}

/// A text without the separator is its own single piece.
pub proof fn lemma_split_without_separator(s: Seq<char>, sep: char)
    requires
        !s.contains(sep),
    ensures
        split(s, sep) == seq![s],
    decreases s.len(),
{
    if s.len() > 0 {
        let t = s.drop_last();
        assert forall|j: int| 0 <= j < t.len() implies t[j] != sep by {}
        lemma_split_without_separator(t, sep);
        assert(t.push(s.last()) == s);
    } else {
        assert(s == Seq::<char>::empty());
    }
}

/// Two texts with a separator between them split into the pieces of the
/// first and the pieces of the second.
pub proof fn lemma_split_around_separator(first: Seq<char>, second: Seq<char>, sep: char)
    ensures
        split(first.push(sep) + second, sep) == split(first, sep) + split(second, sep),
    decreases second.len(),
{
    let whole = first.push(sep) + second;
    if second.len() == 0 {
        assert(whole == first.push(sep));
        assert(whole.drop_last() == first);
        assert(split(second, sep) == seq![Seq::<char>::empty()]);
        assert(split(first, sep).push(Seq::<char>::empty()) == split(first, sep) + seq![
            Seq::<char>::empty(),
        ]);
    } else {
        let front = second.drop_last();
        lemma_split_around_separator(first, front, sep);
        lemma_split_nonempty(front, sep);
        assert(whole.drop_last() == first.push(sep) + front);
        assert(whole.last() == second.last());
        let before = split(first, sep) + split(front, sep);
        if second.last() == sep {
            assert(before.push(Seq::<char>::empty()) == split(first, sep) + split(front, sep).push(
                Seq::<char>::empty(),
            ));
        } else {
            let grown = split(front, sep).last().push(second.last());
            assert(before.last() == split(front, sep).last());
            assert(before.drop_last() == split(first, sep) + split(front, sep).drop_last());
            assert(before.drop_last().push(grown) == split(first, sep) + split(
                front,
                sep,
            ).drop_last().push(grown));
        }
    }
}

/// Splitting what was joined from pieces without separator gives the pieces
/// back.
pub proof fn lemma_split_join(parts: Seq<Seq<char>>, sep: char)
    requires
        parts.len() >= 1,
        forall|k: int| 0 <= k < parts.len() ==> !(#[trigger] parts[k]).contains(sep),
    ensures
        split(join(parts, sep), sep) == parts,
    decreases parts.len(),
{
    if parts.len() == 1 {
        lemma_split_without_separator(parts[0], sep);
    } else {
        let front = parts.drop_last();
        assert forall|k: int| 0 <= k < front.len() implies !(#[trigger] front[k]).contains(sep) by {}
        lemma_split_join(front, sep);
        lemma_split_without_separator(parts.last(), sep);
        lemma_split_around_separator(join(front, sep), parts.last(), sep);
    }
}

/// The characters of a string, in order.
pub fn chars_of(s: &str) -> (v: Vec<char>)
    ensures
        v@ == s@,
{
    broadcast use vstd::string::group_string_axioms;

    let mut v: Vec<char> = Vec::new();
    let chars = s.chars();
    for c in it: chars
        invariant
            it.seq() == s@,
            v@ == s@.take(it.index()),
    {
        v.push(c);
    }
    v
}

/// Splits `s` at every occurrence of `sep`.
pub fn split_by(s: &String, sep: char) -> (parts: Vec<String>)
    ensures
        views(parts@) == split(s@, sep),
{
    let chars = chars_of(s.as_str());
    let mut parts: Vec<String> = Vec::new();
    let mut piece = String::new();
    let mut i: usize = 0;
    while i < chars.len()
        invariant
            i <= chars.len(),
            chars@ == s@,
            views(parts@).push(piece@) == split(s@.take(i as int), sep),
        decreases chars.len() - i,
    {
        let c = chars[i];
        proof {
            let t = s@.take(i as int);
            let u = s@.take(i + 1);
            assert(u.drop_last() == t);
        }
        if c == sep {
            parts.push(piece);
            piece = String::new();
        } else {
            piece.push(c);
        }
        i += 1;
    }
    assert(s@.take(i as int) == s@);
    parts.push(piece);
    parts
}

} // verus!
