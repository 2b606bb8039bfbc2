//! Ranking edits by what they promise, and cutting the ranking to a budget.

use vstd::prelude::*;
use crate::single;
use crate::single::Single;
use crate::single_laws;
use crate::types::{Edit, EditView};

verus! {

/// The square root of a support.
pub open spec fn weight(support: u32) -> Single {
    single::square_root(single::whole_part(single::counted(support as nat)))
}

/// The rank of an edit: its utility times the square root of its support.
#[verifier::opaque]
pub open spec fn rank_key(e: EditView) -> Single {
    single::product(e.utility, weight(e.support_count))
}

/// `a` ranks below `b`.
pub open spec fn ranks_below(a: EditView, b: EditView) -> bool {
    single::less(rank_key(a), rank_key(b))
}

/// `a` ranks no lower than `b`.
pub open spec fn ranks_as_high(a: EditView, b: EditView) -> bool {
    single::at_most(rank_key(b), rank_key(a))
}

/// `e` put into `s` behind everything that ranks at least as high.
pub open spec fn insert_ranked(s: Seq<EditView>, e: EditView) -> Seq<EditView>
    decreases s.len(),
{
    if s.len() == 0 || !ranks_below(s.last(), e) {
        s.push(e)
    } else {
        insert_ranked(s.drop_last(), e).push(s.last())
    }
}

/// The edits from the highest rank to the lowest; those of equal rank stay in their order.
pub open spec fn ranked(s: Seq<EditView>) -> Seq<EditView>
    decreases s.len(),
{
    if s.len() == 0 {
        Seq::empty()
    } else {
        insert_ranked(ranked(s.drop_last()), s.last())
    }
}

/// The rank of an edit.
pub fn key_of(e: &Edit) -> (k: Single)
    ensures
        k == rank_key(e@),
{
    proof {
        reveal(rank_key);
        single_laws::lemma_whole_of_counted(e.support_count as nat);
    }
    let support: u128 = Single::count(e.support_count as u64).whole();
    e.utility.times(Single::root(support as u64))
}

/// Putting `e` behind everything that ranks at least as high is inserting it at the right place.
proof fn lemma_insert_at(s: Seq<EditView>, e: EditView, at: int)
    requires
        0 <= at <= s.len(),
        at > 0 ==> !ranks_below(s[at - 1], e),
        forall|j: int| at <= j < s.len() ==> ranks_below(#[trigger] s[j], e),
    ensures
        insert_ranked(s, e) == s.insert(at, e),
    decreases s.len(),
{
    if at == s.len() {
        assert(s.insert(at, e) =~= s.push(e));
    } else {
        let t = s.drop_last();
        assert forall|j: int| at <= j < t.len() implies ranks_below(#[trigger] t[j], e) by {
            assert(t[j] == s[j]);
        }
        lemma_insert_at(t, e, at);
        assert(t.insert(at, e).push(s.last()) =~= s.insert(at, e));
    }
}

/// The edits from the highest rank to the lowest; those of equal rank stay in their order.
pub fn rank(edits: Vec<Edit>) -> (r: Vec<Edit>)
    ensures
        crate::types::edit_views(r@) == ranked(crate::types::edit_views(edits@)),
{
    let ghost all = crate::types::edit_views(edits@);
    let mut r: Vec<Edit> = Vec::new();
    proof {
        assert(all.take(0) =~= Seq::empty());
        assert(crate::types::edit_views(r@) =~= Seq::empty());
    }
    for e in it: edits.into_iter()
        invariant
            it.seq() == edits@,
            all == crate::types::edit_views(edits@),
            crate::types::edit_views(r@) == ranked(all.take(it.index() as int)),
    {
        let ghost before = crate::types::edit_views(r@);
        let ghost ev = e@;
        let k = key_of(&e);
        let mut at: usize = r.len();
        while at > 0 && key_of(&r[at - 1]).is_less(k)
            invariant
                at <= r.len(),
                k == rank_key(ev),
                before == crate::types::edit_views(r@),
                forall|j: int| at <= j < r.len() ==> ranks_below(#[trigger] before[j], ev),
            decreases at,
        {
            at = at - 1;
        }
        r.insert(at, e);
        proof {
            lemma_insert_at(before, ev, at as int);
            assert(crate::types::edit_views(r@) =~= before.insert(at as int, ev));
            assert(all.take(it.index() + 1).drop_last() =~= all.take(it.index() as int));
            assert(all.take(it.index() + 1).last() == ev);
        }
    }
    proof {
        assert(all.take(edits@.len() as int) =~= all);
    }
    r
}

/// The `lr_budget` edits that rank highest, from the highest rank to the lowest.
pub fn rank_and_select(edits: Vec<Edit>, lr_budget: u32) -> (r: Vec<Edit>)
    ensures
        crate::types::edit_views(r@) == ranked(crate::types::edit_views(edits@)).take(
            if lr_budget < edits@.len() {
                lr_budget as int
            } else {
                edits@.len() as int
            },
        ),
{
    let ghost all = crate::types::edit_views(edits@);
    let mut r = rank(edits);
    proof {
        law_ranking_reorders(all);
    }
    let ghost full = crate::types::edit_views(r@);
    r.truncate(lr_budget as usize);
    proof {
        let n = if lr_budget < edits@.len() {
            lr_budget as int
        } else {
            edits@.len() as int
        };
        assert(crate::types::edit_views(r@) =~= full.take(n));
    }
    r
}

// ---------------------------------------------------------------------------------------------
// Laws
// ---------------------------------------------------------------------------------------------

/// Inserting an edit adds it and takes nothing away.
proof fn lemma_insert_adds(s: Seq<EditView>, e: EditView)
    ensures
        insert_ranked(s, e).len() == s.len() + 1,
        insert_ranked(s, e).to_multiset() == s.to_multiset().insert(e),
    decreases s.len(),
{
    broadcast use vstd::seq_lib::to_multiset_build;

    if s.len() > 0 && ranks_below(s.last(), e) {
        lemma_insert_adds(s.drop_last(), e);
        assert(s =~= s.drop_last().push(s.last()));
        let m = s.drop_last().to_multiset();
        assert(m.insert(e).insert(s.last()) =~= m.insert(s.last()).insert(e));
    }
}

/// Ranking only reorders: no edit is lost, none is added and none is changed.
pub proof fn law_ranking_reorders(s: Seq<EditView>)
    ensures
        ranked(s).len() == s.len(),
        ranked(s).to_multiset() == s.to_multiset(),
    decreases s.len(),
{
    broadcast use vstd::seq_lib::to_multiset_build;

    if s.len() > 0 {
        law_ranking_reorders(s.drop_last());
        lemma_insert_adds(ranked(s.drop_last()), s.last());
        assert(s =~= s.drop_last().push(s.last()));
    } else {
        assert(s =~= Seq::empty());
    }
}

/// Every edit of `s` has a rank that is a number.
pub open spec fn have_ranks(s: Seq<EditView>) -> bool {
    forall|i: int| 0 <= i < s.len() ==> !rank_key(#[trigger] s[i]).is_nan()
}

/// `s` goes from the highest rank to the lowest.
pub open spec fn descends(s: Seq<EditView>) -> bool {
    forall|i: int, j: int| 0 <= i <= j < s.len() ==> ranks_as_high(#[trigger] s[i], #[trigger] s[j])
}

/// Inserting an edit that ranks at least as high as `b` keeps every rank at least as high.
proof fn lemma_insert_at_least(s: Seq<EditView>, e: EditView, b: EditView)
    requires
        ranks_as_high(e, b),
        forall|i: int| 0 <= i < s.len() ==> ranks_as_high(#[trigger] s[i], b),
    ensures
        forall|i: int|
            0 <= i < insert_ranked(s, e).len() ==> ranks_as_high(#[trigger] insert_ranked(s, e)[i], b),
    decreases s.len(),
{
    if s.len() > 0 && ranks_below(s.last(), e) {
        let t = s.drop_last();
        assert forall|i: int| 0 <= i < t.len() implies ranks_as_high(#[trigger] t[i], b) by {
            assert(t[i] == s[i]);
        }
        lemma_insert_at_least(t, e, b);
        let r = insert_ranked(t, e);
        assert forall|i: int| 0 <= i < r.push(s.last()).len() implies ranks_as_high(
            #[trigger] r.push(s.last())[i],
            b,
        ) by {
            if i < r.len() {
                assert(r.push(s.last())[i] == r[i]);
            } else {
                assert(s[s.len() - 1] == s.last());
            }
        }
    } else {
        assert forall|i: int| 0 <= i < s.push(e).len() implies ranks_as_high(
            #[trigger] s.push(e)[i],
            b,
        ) by {
            if i < s.len() {
                assert(s.push(e)[i] == s[i]);
            }
        }
    }
}

/// Inserting an edit into a ranking gives a ranking.
proof fn lemma_insert_descends(s: Seq<EditView>, e: EditView)
    requires
        descends(s),
        !rank_key(e).is_nan(),
    ensures
        descends(insert_ranked(s, e)),
    decreases s.len(),
{
    if s.len() > 0 && ranks_below(s.last(), e) {
        let t = s.drop_last();
        let b = s.last();
        assert forall|i: int, j: int| 0 <= i <= j < t.len() implies ranks_as_high(
            #[trigger] t[i],
            #[trigger] t[j],
        ) by {
            assert(t[i] == s[i] && t[j] == s[j]);
        }
        lemma_insert_descends(t, e);
        assert forall|i: int| 0 <= i < t.len() implies ranks_as_high(#[trigger] t[i], b) by {
            assert(t[i] == s[i]);
            assert(s[s.len() - 1] == s.last());
        }
        lemma_insert_at_least(t, e, b);
        let r = insert_ranked(t, e);
        assert forall|i: int, j: int| 0 <= i <= j < r.push(b).len() implies ranks_as_high(
            #[trigger] r.push(b)[i],
            #[trigger] r.push(b)[j],
        ) by {
            if j < r.len() {
                assert(r.push(b)[i] == r[i] && r.push(b)[j] == r[j]);
            } else if i < r.len() {
                assert(r.push(b)[i] == r[i]);
            }
        }
    } else {
        assert forall|i: int, j: int| 0 <= i <= j < s.push(e).len() implies ranks_as_high(
            #[trigger] s.push(e)[i],
            #[trigger] s.push(e)[j],
        ) by {
            if j < s.len() {
                assert(s.push(e)[i] == s[i] && s.push(e)[j] == s[j]);
            } else if i < s.len() {
                assert(s.push(e)[i] == s[i]);
                assert(s[s.len() - 1] == s.last());
                assert(ranks_as_high(s[i], s[s.len() - 1]));
            }
        }
    }
}

/// A ranking of edits whose ranks are numbers goes from the highest rank to the lowest.
pub proof fn law_ranking_descends(s: Seq<EditView>)
    requires
        have_ranks(s),
    ensures
        descends(ranked(s)),
    decreases s.len(),
{
    if s.len() > 0 {
        let t = s.drop_last();
        assert forall|i: int| 0 <= i < t.len() implies !rank_key(#[trigger] t[i]).is_nan() by {
            assert(t[i] == s[i]);
        }
        law_ranking_descends(t);
        assert(s[s.len() - 1] == s.last());
        lemma_insert_descends(ranked(t), s.last());
    }
}

/// The test for edits of rank `k`.
pub open spec fn has_rank(k: int) -> spec_fn(EditView) -> bool {
    |e: EditView| rank_key(e).order() == k
}

/// Edits of equal rank stay in the order in which they were proposed.
pub proof fn law_ranking_is_stable(s: Seq<EditView>, k: int)
    ensures
        ranked(s).filter(has_rank(k)) == s.filter(has_rank(k)),
    decreases s.len(),
{
    let p = has_rank(k);
    if s.len() > 0 {
        law_ranking_is_stable(s.drop_last(), k);
        lemma_insert_stable(ranked(s.drop_last()), s.last(), k);
        assert(s =~= s.drop_last().push(s.last()));
        s.drop_last().lemma_filter_push(s.last(), p);
        ranked(s.drop_last()).lemma_filter_push(s.last(), p);
    } else {
        assert(s =~= ranked(s));
    }
}

/// Inserting an edit puts it behind those of its rank and moves no other past its equals.
proof fn lemma_insert_stable(s: Seq<EditView>, e: EditView, k: int)
    ensures
        insert_ranked(s, e).filter(has_rank(k)) == s.push(e).filter(has_rank(k)),
    decreases s.len(),
{
    let p = has_rank(k);
    if s.len() > 0 && ranks_below(s.last(), e) {
        let t = s.drop_last();
        lemma_insert_stable(t, e, k);
        insert_ranked(t, e).lemma_filter_push(s.last(), p);
        s.lemma_filter_push(e, p);
        t.lemma_filter_push(e, p);
        t.lemma_filter_push(s.last(), p);
        assert(s =~= t.push(s.last()));
    }
}

/// No edit that was left out ranks higher than one that was selected.
pub proof fn law_selection_takes_the_highest(s: Seq<EditView>, budget: int, i: int, j: int)
    requires
        have_ranks(s),
        0 <= i < budget <= j < s.len(),
    ensures
        ranks_as_high(ranked(s).take(budget)[i], ranked(s)[j]),
{
    law_ranking_descends(s);
    law_ranking_reorders(s);
}

/// Of two edits with the same support the one with the higher utility ranks no lower.
pub proof fn law_rank_follows_utility(a: EditView, b: EditView)
    requires
        a.support_count == b.support_count,
        a.support_count > 0,
        single::at_most(a.utility, b.utility),
    ensures
        ranks_as_high(b, a),
{
    reveal(rank_key);
    let n = a.support_count as nat;
    single_laws::lemma_whole_of_counted(n);
    single_laws::lemma_square_root(single::whole_part(single::counted(n)));
    single_laws::lemma_product_grows(a.utility, b.utility, weight(a.support_count));
}

/// Of two edits with the same utility, which is finite and not negative, the one with more support ranks
/// no lower.
pub proof fn law_rank_follows_support(a: EditView, b: EditView)
    requires
        a.utility == b.utility,
        a.utility.is_finite(),
        !a.utility.negative(),
        a.support_count <= b.support_count,
    ensures
        ranks_as_high(b, a),
{
    reveal(rank_key);
    let (m, n) = (a.support_count as nat, b.support_count as nat);
    single_laws::lemma_whole_of_counted(m);
    single_laws::lemma_whole_of_counted(n);
    single_laws::lemma_whole_grows(m, n);
    let (x, y) = (single::whole_part(single::counted(m)), single::whole_part(single::counted(n)));
    single_laws::lemma_square_root(x);
    single_laws::lemma_square_root(y);
    single_laws::lemma_square_root_grows(x, y);
    single_laws::lemma_product_grows(weight(a.support_count), weight(b.support_count), a.utility);
    single_laws::lemma_product_commutes(weight(a.support_count), a.utility);
    single_laws::lemma_product_commutes(weight(b.support_count), b.utility);
}

/// Edits of finite utility have ranks.
pub proof fn law_finite_utilities_have_ranks(s: Seq<EditView>)
    requires
        forall|i: int| 0 <= i < s.len() ==> (#[trigger] s[i]).utility.is_finite(),
    ensures
        have_ranks(s),
{
    assert forall|i: int| 0 <= i < s.len() implies !rank_key(#[trigger] s[i]).is_nan() by {
        reveal(rank_key);
        let n = s[i].support_count as nat;
        single_laws::lemma_whole_of_counted(n);
        single_laws::lemma_square_root(single::whole_part(single::counted(n)));
        single_laws::lemma_product(s[i].utility, weight(s[i].support_count));
    }
}

/// The rank of an edit is its utility times the number nearest to the square root of its support: half way
/// to the numbers beside that one, the squares lie on either side of the support as it is held.
pub proof fn law_rank_is_utility_times_root_of_support(e: EditView)
    requires
        e.support_count > 0,
    ensures
        exists|w: Single|
            {
                &&& rank_key(e) == #[trigger] single::product(e.utility, w)
                &&& w.is_finite() && !w.negative() && w.place() >= 1
                &&& (single::magnitude((w.place() - 1) as nat) + single::magnitude(w.place())) * (
                single::magnitude((w.place() - 1) as nat) + single::magnitude(w.place())) <= 4
                    * single::counted(e.support_count as nat).value()
                    * vstd::arithmetic::power2::pow2(149) <= (single::magnitude(w.place())
                    + single::magnitude(w.place() + 1)) * (single::magnitude(w.place())
                    + single::magnitude(w.place() + 1))
            },
{
    reveal(rank_key);
    let n = e.support_count as nat;
    single_laws::lemma_whole_of_counted(n);
    single_laws::lemma_counted_is_whole(n);
    let c = single::whole_part(single::counted(n));
    single_laws::law_roots_are_the_nearest(c);
    vstd::arithmetic::power2::lemma_pow2_adds(149, 149);
    let p = vstd::arithmetic::power2::pow2(149);
    let w = weight(e.support_count);
    assert(4 * (c * p) * p == 4 * c * (p * p)) by (nonlinear_arith);
    assert(rank_key(e) == single::product(e.utility, w));
}

/// Where the support is a square, the rank is the utility times the root of the support; in particular an
/// edit with a support of one ranks as its utility, and four times the support makes twice the rank.
pub proof fn law_rank_grows_with_the_root_of_support(e: EditView, k: nat)
    requires
        1 <= k <= 0x1000,
        e.support_count == k * k,
    ensures
        rank_key(e) == single::product(e.utility, single::counted(k)),
        k == 1 && e.utility.is_finite() ==> rank_key(e) == e.utility,
{
    reveal(rank_key);
    assert(k * k <= 0x100_0000) by (nonlinear_arith)
        requires
            k <= 0x1000,
    ;
    single_laws::lemma_counted_is_whole(k * k);
    single_laws::law_roots_of_squares_are_whole(k);
    single_laws::lemma_one();
    if k == 1 && e.utility.is_finite() {
        single_laws::lemma_product_one(e.utility);
    }
}

/// Of an edit with a support of one and an edit of positive utility with the square `k * k` as its support,
/// the first ranks above the other exactly where its utility is above `k` times that of the other.
pub proof fn law_support_counts_by_its_root(one: EditView, other: EditView, k: nat)
    requires
        1 <= k <= 0x1000,
        one.support_count == 1,
        other.support_count == k * k,
        one.utility.is_finite(),
    ensures
        ranks_below(other, one) <==> single::less(
            single::product(other.utility, single::counted(k)),
            one.utility,
        ),
{
    assert(1 * 1 == 1);
    law_rank_grows_with_the_root_of_support(one, 1);
    law_rank_grows_with_the_root_of_support(other, k);
}

} // verus!
