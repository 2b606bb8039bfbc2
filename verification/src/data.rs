//! Drawing batches of items.

use vstd::prelude::*;
use rand::SeedableRng;
use rand::seq::SliceRandom;
use rand_chacha::ChaCha20Rng;
use crate::types;
use crate::types::{TaskItem, TaskItemView};

verus! {

/// `order` as a ChaCha20 generator that was seeded with `seed` shuffles it.
pub uninterp spec fn shuffled(order: Seq<usize>, seed: u64) -> Seq<usize>;

/// `SliceRandom::shuffle` with a generator made by `ChaCha20Rng::seed_from_u64`: the new order is a
/// function of the old one and of the seed, and holds the same elements, each as often as before.
#[verifier::external_body]
fn shuffle(order: &mut Vec<usize>, seed: u64)
    ensures
        final(order)@ == shuffled(old(order)@, seed),
        final(order)@.to_multiset() == old(order)@.to_multiset(),
{
    let mut rng = ChaCha20Rng::seed_from_u64(seed);
    order.shuffle(&mut rng);
}

/// The positions below `n`, in order.
pub open spec fn positions(n: nat) -> Seq<usize> {
    Seq::new(n, |i: int| i as usize)
}

/// The items at the first `n` positions of `order`.
pub open spec fn picked(items: Seq<TaskItemView>, order: Seq<usize>, n: nat) -> Seq<TaskItemView> {
    Seq::new(n, |i: int| items[order[i] as int])
}

/// A batch of `n` items: all of them where there are no more, else the first `n` in the order that the
/// seed gives.
pub open spec fn sampled(items: Seq<TaskItemView>, n: nat, seed: u64) -> Seq<TaskItemView> {
    if items.len() <= n {
        items
    } else {
        picked(items, shuffled(positions(items.len()), seed), n)
    }
}

/// `batch` holds the items at `places`, which are different places of `items`.
pub open spec fn drawn_at(
    batch: Seq<TaskItemView>,
    items: Seq<TaskItemView>,
    places: Seq<usize>,
) -> bool {
    &&& places.len() == batch.len()
    &&& places.no_duplicates()
    &&& forall|i: int|
        0 <= i < batch.len() ==> (#[trigger] places[i]) < items.len() && batch[i]
            == items[places[i] as int]
}

/// Every item of `batch` was drawn from a place of its own in `items`.
pub open spec fn drawn_from(batch: Seq<TaskItemView>, items: Seq<TaskItemView>) -> bool {
    exists|places: Seq<usize>| drawn_at(batch, items, places)
}

/// The items at the first `n` positions of `order`.
pub fn pick(items: &[TaskItem], order: &Vec<usize>, n: usize) -> (r: Vec<TaskItem>)
    requires
        n <= order@.len(),
        forall|i: int| 0 <= i < order@.len() ==> (#[trigger] order@[i]) < items@.len(),
    ensures
        types::item_views(r@) == picked(types::item_views(items@), order@, n as nat),
{
    let mut r: Vec<TaskItem> = Vec::new();
    for i in 0..n
        invariant
            n <= order@.len(),
            forall|k: int| 0 <= k < order@.len() ==> (#[trigger] order@[k]) < items@.len(),
            r@.len() == i,
            forall|k: int| 0 <= k < i ==> (#[trigger] r@[k])@ == items@[order@[k] as int]@,
    {
        r.push(items[order[i]].clone());
    }
    proof {
        assert(types::item_views(r@) =~= picked(types::item_views(items@), order@, n as nat));
    }
    r
}

/// The elements of a shuffled list of positions are positions, and all different.
proof fn lemma_shuffled(n: nat, order: Seq<usize>)
    requires
        n <= usize::MAX,
        order.to_multiset() == positions(n).to_multiset(),
    ensures
        order.len() == n,
        order.no_duplicates(),
        forall|i: int| 0 <= i < order.len() ==> (#[trigger] order[i]) < n,
{
    broadcast use vstd::seq_lib::group_to_multiset_ensures;

    let p = positions(n);
    assert(p.no_duplicates());
    p.lemma_multiset_has_no_duplicates();
    order.lemma_multiset_has_no_duplicates_conv();
    assert(order.to_multiset().len() == order.len() && p.to_multiset().len() == p.len());
    assert forall|i: int| 0 <= i < order.len() implies (#[trigger] order[i]) < n by {
        assert(order.contains(order[i]));
        assert(order.to_multiset().count(order[i]) > 0);
        assert(p.contains(order[i]));
    }
}

/// A batch of `n` items: all of them where there are no more, else `n` of them, drawn without putting
/// one back, in an order that the seed alone decides.
pub fn sample_batch(items: &[TaskItem], n: usize, seed: u64) -> (r: Vec<TaskItem>)
    ensures
        types::item_views(r@) == sampled(types::item_views(items@), n as nat, seed),
        r@.len() == (if items@.len() <= n {
            items@.len()
        } else {
            n as nat
        }),
        drawn_from(types::item_views(r@), types::item_views(items@)),
{
    let len: usize = items.len();
    let mut order: Vec<usize> = Vec::new();
    for i in 0..len
        invariant
            order@ == positions(i as nat),
    {
        order.push(i);
        proof {
            assert(positions((i + 1) as nat) =~= positions(i as nat).push(i));
        }
    }
    if len <= n {
        let r = pick(items, &order, len);
        proof {
            assert(types::item_views(r@) =~= types::item_views(items@));
            assert(drawn_at(types::item_views(r@), types::item_views(items@), order@));
        }
        return r;
    }
    shuffle(&mut order, seed);
    proof {
        lemma_shuffled(len as nat, order@);
    }
    let r = pick(items, &order, n);
    proof {
        let places = order@.take(n as int);
        assert(places.no_duplicates()) by {
            assert forall|i: int, j: int| 0 <= i < places.len() && 0 <= j < places.len() && i != j
                implies places[i] != places[j] by {
                assert(places[i] == order@[i] && places[j] == order@[j]);
            }
        }
        assert forall|i: int| 0 <= i < places.len() implies (#[trigger] places[i]) < items@.len()
            && types::item_views(r@)[i] == types::item_views(items@)[places[i] as int] by {
            assert(places[i] == order@[i]);
        }
        assert(types::item_views(r@).len() == n);
        assert(drawn_at(types::item_views(r@), types::item_views(items@), places));
    }
    r
}

/// A batch is no larger than what it is drawn from and holds nothing else, and where all items differ,
/// so do those of a batch.
pub proof fn law_batches_repeat_nothing(batch: Seq<TaskItemView>, items: Seq<TaskItemView>)
    requires
        drawn_from(batch, items),
    ensures
        batch.len() <= items.len(),
        forall|i: int| 0 <= i < batch.len() ==> items.contains(#[trigger] batch[i]),
        items.no_duplicates() ==> batch.no_duplicates(),
{
    let places = choose|places: Seq<usize>| drawn_at(batch, items, places);
    assert forall|i: int| 0 <= i < batch.len() implies items.contains(#[trigger] batch[i]) by {
        assert(batch[i] == items[places[i] as int]);
    }
    if items.no_duplicates() {
        assert forall|i: int, j: int| 0 <= i < batch.len() && 0 <= j < batch.len() && i != j
            implies batch[i] != batch[j] by {
            assert(places[i] != places[j]);
        }
    }
    lemma_distinct_places(places, items.len());
}

/// There are no more different places below `n` than `n`.
proof fn lemma_distinct_places(places: Seq<usize>, n: nat)
    requires
        places.no_duplicates(),
        forall|i: int| 0 <= i < places.len() ==> (#[trigger] places[i]) < n,
    ensures
        places.len() <= n,
{
    let ints = places.map_values(|p: usize| p as int);
    assert(ints.no_duplicates()) by {
        assert forall|i: int, j: int| 0 <= i < ints.len() && 0 <= j < ints.len() && i != j
            implies ints[i] != ints[j] by {
            assert(places[i] != places[j]);
        }
    }
    ints.unique_seq_to_set();
    let all = vstd::set_lib::set_int_range(0, n as int);
    vstd::set_lib::lemma_int_range(0, n as int);
    assert(ints.to_set().subset_of(all)) by {
        assert forall|x: int| ints.to_set().contains(x) implies all.contains(x) by {
            let i = choose|i: int| 0 <= i < ints.len() && ints[i] == x;
            assert(places[i] < n);
        }
    }
    vstd::set_lib::lemma_len_subset(ints.to_set(), all);
}

/// A batch that takes all items is the items in their order, whatever the seed.
pub proof fn law_large_batches_keep_order(items: Seq<TaskItemView>, n: nat, seed: u64)
    requires
        items.len() <= n,
    ensures
        sampled(items, n, seed) == items,
{
}

/// A batch that is smaller than what it is drawn from holds what stands at the first places of the order
/// that the seed gives; so a smaller batch with the same seed is the beginning of a larger one.
pub proof fn law_batches_go_by_the_order_of_the_seed(
    items: Seq<TaskItemView>,
    small: nat,
    large: nat,
    seed: u64,
    i: int,
)
    requires
        0 <= i < small <= large < items.len(),
    ensures
        sampled(items, small, seed).len() == small,
        sampled(items, small, seed)[i] == items[shuffled(
            Seq::new(items.len(), |k: int| k as usize),
            seed,
        )[i] as int],
        sampled(items, small, seed) == sampled(items, large, seed).take(small as int),
{
    assert(positions(items.len()) =~= Seq::new(items.len(), |k: int| k as usize));
    assert(sampled(items, small, seed) =~= sampled(items, large, seed).take(small as int));
}

} // verus!
