//! The order in which sizes are reported: ascending, and where two sizes are
//! equal, in the order in which they were given.

use vstd::prelude::*;
use std::cmp::Ordering;
use itertools::Itertools;

verus! {

/// Whether `sorted` is `pairs` in ascending order of the first components,
/// pairs with equal first components staying in the order they had.
///
/// `from` tells, for each place of `sorted`, which place of `pairs` its pair
/// was taken from.
pub open spec fn is_stable_sort(
    pairs: Seq<(u64, usize)>,
    sorted: Seq<(u64, usize)>,
    from: Seq<int>,
) -> bool {
    &&& from.len() == pairs.len()
    &&& sorted.len() == pairs.len()
    &&& forall|i: int|
        0 <= i < from.len() ==> 0 <= #[trigger] from[i] < pairs.len() && sorted[i] == pairs[from[i]]
    &&& forall|i: int, j: int| 0 <= i < j < from.len() ==> #[trigger] from[i] != #[trigger] from[j]
    &&& forall|i: int, j: int|
        0 <= i < j < from.len() ==> (#[trigger] sorted[i]).0 <= (#[trigger] sorted[j]).0
    &&& forall|i: int, j: int|
        0 <= i < j < from.len() && sorted[i].0 == sorted[j].0 ==> #[trigger] from[i]
            < #[trigger] from[j]
}

/// How two pairs compare by their first components.
fn by_first(a: &(u64, usize), b: &(u64, usize)) -> (order: Ordering)
    ensures
        match order {
            Ordering::Less => a.0 < b.0,
            Ordering::Equal => a.0 == b.0,
            Ordering::Greater => a.0 > b.0,
        },
{
    if a.0 < b.0 {
        Ordering::Less
    } else if a.0 == b.0 {
        Ordering::Equal
    } else {
        Ordering::Greater
    }
}

/// Sorts pairs by their first components with `Itertools::sorted_by`.
///
/// That method collects the items, sorts them with the standard library's
/// stable `sort_by` under the comparison it is handed, and gives them back.
/// The comparison handed over here is `by_first`, so the result holds the
/// same pairs, in ascending order of the first components, and pairs that
/// agree there keep their relative order. The contract says so, and nothing
/// of it is proved.
#[verifier::external_body]
fn sorted_by_first(pairs: Vec<(u64, usize)>) -> (sorted: Vec<(u64, usize)>)
    ensures
        exists|from: Seq<int>| is_stable_sort(pairs@, sorted@, from),
{
    pairs.into_iter().sorted_by(|a, b| by_first(a, b)).collect()
}

/// Whether the key at place `a` is reported before the key at place `b`: it
/// is smaller, or it is equal and stands earlier.
pub open spec fn comes_before(keys: Seq<nat>, a: int, b: int) -> bool {
    keys[a] < keys[b] || (keys[a] == keys[b] && a < b)
}

/// Whether `order` lists every place of `keys` once, each place before all
/// those that are reported after it.
pub open spec fn is_ascending_order(keys: Seq<nat>, order: Seq<int>) -> bool {
    &&& order.len() == keys.len()
    &&& forall|i: int| 0 <= i < order.len() ==> 0 <= #[trigger] order[i] < keys.len()
    &&& forall|i: int, j: int|
        0 <= i < j < order.len() ==> comes_before(keys, #[trigger] order[i], #[trigger] order[j])
}

/// The places of `keys` in the order in which they are reported.
pub open spec fn ascending_order_of(keys: Seq<nat>) -> Seq<int> {
    choose|order: Seq<int>| is_ascending_order(keys, order)
}

/// `items` rearranged: the item from place `order[i]` at place `i`.
pub open spec fn arranged<T>(items: Seq<T>, order: Seq<int>) -> Seq<T> {
    Seq::new(order.len(), |i: int| items[order[i]])
}

/// The keys of a vector as natural numbers.
pub open spec fn as_nats(keys: Seq<u64>) -> Seq<nat> {
    Seq::new(keys.len(), |i: int| keys[i] as nat)
}

/// The places of a vector as integers.
pub open spec fn as_ints(places: Seq<usize>) -> Seq<int> {
    Seq::new(places.len(), |i: int| places[i] as int)
}

/// An ascending order names every place of the keys.
pub proof fn lemma_ascending_order_is_complete(keys: Seq<nat>, order: Seq<int>, place: int)
    requires
        is_ascending_order(keys, order),
        0 <= place < keys.len(),
    ensures
        order.contains(place),
{
    let n = keys.len() as int;
    assert(order.no_duplicates()) by {
        assert forall|i: int, j: int| 0 <= i < order.len() && 0 <= j < order.len() && i != j implies order[i]
            != order[j] by {}
    }
    order.unique_seq_to_set();
    let places = vstd::set_lib::set_int_range(0, n);
    vstd::set_lib::lemma_int_range(0, n);
    assert(order.to_set().subset_of(places)) by {
        assert forall|x: int| order.to_set().contains(x) implies places.contains(x) by {}
    }
    vstd::set_lib::lemma_subset_equality(order.to_set(), places);
    assert(places.contains(place));
}

/// There is only one ascending order of given keys.
pub proof fn lemma_ascending_order_is_unique(keys: Seq<nat>, first: Seq<int>, second: Seq<int>)
    requires
        is_ascending_order(keys, first),
        is_ascending_order(keys, second),
    ensures
        first == second,
{
    assert forall|i: int| 0 <= i < first.len() implies first[i] == second[i] by {
        lemma_agree_upto(keys, first, second, i);
    }
}

/// Two ascending orders of the same keys agree at place `i`.
proof fn lemma_agree_upto(keys: Seq<nat>, first: Seq<int>, second: Seq<int>, i: int)
    requires
        is_ascending_order(keys, first),
        is_ascending_order(keys, second),
        0 <= i < first.len(),
    ensures
        first[i] == second[i],
    decreases i,
{
    assert forall|j: int| 0 <= j < i implies first[j] == second[j] by {
        lemma_agree_upto(keys, first, second, j);
    }
    let x = first[i];
    let y = second[i];
    lemma_ascending_order_is_complete(keys, second, x);
    lemma_ascending_order_is_complete(keys, first, y);
}

/// The place in `order` behind the last entry whose key is no more than
/// `key`.
spec fn place_behind(keys: Seq<nat>, order: Seq<int>, key: nat) -> int
    decreases order.len(),
{
    if order.len() == 0 {
        0
    } else if keys[order.last()] <= key {
        order.len() as int
    } else {
        place_behind(keys, order.drop_last(), key)
    }
}

/// The order that comes of taking the places one by one and putting each
/// behind the last place whose key is no more than its own.
spec fn insertion_order(keys: Seq<nat>) -> Seq<int>
    decreases keys.len(),
{
    if keys.len() == 0 {
        Seq::<int>::empty()
    } else {
        let before = insertion_order(keys.drop_last());
        before.insert(place_behind(keys, before, keys.last()), keys.len() - 1)
    }
}

/// Behind the place found, every key is larger than the given one; just
/// before it stands a key that is not.
proof fn lemma_place_behind(keys: Seq<nat>, order: Seq<int>, key: nat)
    ensures
        0 <= place_behind(keys, order, key) <= order.len(),
        forall|i: int|
            place_behind(keys, order, key) <= i < order.len() ==> keys[#[trigger] order[i]] > key,
        place_behind(keys, order, key) > 0 ==> keys[order[place_behind(keys, order, key) - 1]]
            <= key,
    decreases order.len(),
{
    if order.len() > 0 && keys[order.last()] > key {
        let front = order.drop_last();
        lemma_place_behind(keys, front, key);
        let place = place_behind(keys, front, key);
        assert forall|i: int| place <= i < order.len() implies keys[#[trigger] order[i]] > key by {
            if i < front.len() {
                assert(front[i] == order[i]);
            }
        }
    }
}

/// Putting the places in one by one gives an ascending order.
proof fn lemma_insertion_order(keys: Seq<nat>)
    ensures
        is_ascending_order(keys, insertion_order(keys)),
    decreases keys.len(),
{
    if keys.len() > 0 {
        let front = keys.drop_last();
        let before = insertion_order(front);
        let last = keys.len() - 1;
        let place = place_behind(keys, before, keys.last());
        let order = insertion_order(keys);
        lemma_insertion_order(front);
        lemma_place_behind(keys, before, keys.last());
        assert forall|i: int| 0 <= i < before.len() implies keys[#[trigger] before[i]]
            == front[before[i]] by {}
        assert forall|i: int| 0 <= i < place implies keys[#[trigger] before[i]] <= keys[last] by {}
        assert forall|i: int, j: int| 0 <= i < j < order.len() implies comes_before(
            keys,
            #[trigger] order[i],
            #[trigger] order[j],
        ) by {}
    }
}

/// Whatever the keys, they have an ascending order, and `ascending_order_of`
/// is it.
pub proof fn lemma_ascending_order_exists(keys: Seq<nat>)
    ensures
        is_ascending_order(keys, ascending_order_of(keys)),
{
    lemma_insertion_order(keys);
}

/// The order in which to report items with the given sizes: the places of
/// `keys` by ascending key, places with equal keys in their own order.
pub fn ascending_order(keys: &Vec<u64>) -> (order: Vec<usize>)
    ensures
        is_ascending_order(as_nats(keys@), as_ints(order@)),
        as_ints(order@) == ascending_order_of(as_nats(keys@)),
{
    let mut pairs: Vec<(u64, usize)> = Vec::new();
    let mut i: usize = 0;
    while i < keys.len()
        invariant
            i <= keys.len(),
            pairs@.len() == i,
            forall|j: int| 0 <= j < i ==> pairs@[j] == (keys@[j], j as usize),
        decreases keys.len() - i,
    {
        pairs.push((keys[i], i));
        i += 1;
    }
    let ghost given = pairs@;
    let sorted = sorted_by_first(pairs);
    let ghost from = choose|from: Seq<int>| is_stable_sort(given, sorted@, from);
    let mut order: Vec<usize> = Vec::new();
    let mut i: usize = 0;
    while i < sorted.len()
        invariant
            i <= sorted.len(),
            order@.len() == i,
            forall|j: int| 0 <= j < i ==> order@[j] == sorted@[j].1,
        decreases sorted.len() - i,
    {
        order.push(sorted[i].1);
        i += 1;
    }
    proof {
        let math_keys = as_nats(keys@);
        let math_order = as_ints(order@);
        assert forall|a: int| 0 <= a < math_order.len() implies math_order[a] == from[a]
            && sorted@[a].0 == keys@[from[a]] by {}
        assert forall|a: int, b: int| 0 <= a < b < math_order.len() implies comes_before(
            math_keys,
            #[trigger] math_order[a],
            #[trigger] math_order[b],
        ) by {}
        lemma_ascending_order_is_unique(math_keys, math_order, ascending_order_of(math_keys));
    }
    order
}

} // verus!
