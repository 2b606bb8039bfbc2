//! Merging the edits that several reflections proposed.

use vstd::prelude::*;
use crate::single;
use crate::single::Single;
use crate::single_laws;
use crate::types::{Edit, EditView};

verus! {

/// Two edits make the same change.
pub open spec fn same_change(a: EditView, b: EditView) -> bool {
    a.op == b.op && a.anchor == b.anchor && a.content == b.content
}

/// The bits of 2.
pub const TWO: u32 = 0x4000_0000;

/// Half the sum of two utilities.
pub open spec fn midpoint(a: Single, b: Single) -> Single {
    single::quotient(single::sum(a, b), Single { bits: TWO })
}

/// `kept` after another proposal of its change: the support adds up, the utility moves half way.
pub open spec fn reinforced(kept: EditView, again: EditView) -> EditView {
    EditView {
        support_count: (kept.support_count + again.support_count) as u32,
        utility: midpoint(kept.utility, again.utility),
        ..kept
    }
}

/// `e` taken into `s`: it reinforces the edit that makes the same change, or comes last.
pub open spec fn merge_one(s: Seq<EditView>, e: EditView) -> Seq<EditView>
    decreases s.len(),
{
    if s.len() == 0 {
        seq![e]
    } else if same_change(s[0], e) {
        seq![reinforced(s[0], e)] + s.skip(1)
    } else {
        seq![s[0]] + merge_one(s.skip(1), e)
    }
}

/// The edits of `s` with proposals of the same change merged into the first of them.
pub open spec fn merged(s: Seq<EditView>) -> Seq<EditView>
    decreases s.len(),
{
    if s.len() == 0 {
        Seq::empty()
    } else {
        merge_one(merged(s.drop_last()), s.last())
    }
}

/// The support that the proposals of one change have in all.
pub open spec fn support_of(s: Seq<EditView>, change: EditView) -> nat
    decreases s.len(),
{
    if s.len() == 0 {
        0
    } else {
        support_of(s.drop_last(), change) + (if same_change(s.last(), change) {
            s.last().support_count as nat
        } else {
            0
        })
    }
}

/// No change has more support in all than a count can hold.
pub open spec fn support_fits(s: Seq<EditView>) -> bool {
    forall|i: int| 0 <= i < s.len() ==> support_of(s, #[trigger] s[i]) <= u32::MAX
}

/// Every edit of `out` carries the whole support that its change has in `s`, no two make the same
/// change, and every change of `s` is there.
pub open spec fn accounts_for(out: Seq<EditView>, s: Seq<EditView>) -> bool {
    &&& forall|i: int|
        0 <= i < out.len() ==> (#[trigger] out[i]).support_count == support_of(s, out[i])
    &&& forall|i: int, j: int|
        0 <= i < j < out.len() ==> !same_change(#[trigger] out[i], #[trigger] out[j])
    &&& forall|i: int|
        0 <= i < s.len() ==> exists|j: int|
            0 <= j < out.len() && same_change(#[trigger] out[j], #[trigger] s[i])
}

/// The support of a change grows with the proposals.
proof fn lemma_support_prefix(s: Seq<EditView>, k: int, change: EditView)
    requires
        0 <= k <= s.len(),
    ensures
        support_of(s.take(k), change) <= support_of(s, change),
    decreases s.len() - k,
{
    if k == s.len() {
        assert(s.take(k) =~= s);
    } else {
        lemma_support_prefix(s, k + 1, change);
        assert(s.take(k + 1).drop_last() =~= s.take(k));
    }
}

/// Edits that make the same change have the same support.
proof fn lemma_support_same(s: Seq<EditView>, a: EditView, b: EditView)
    requires
        same_change(a, b),
    ensures
        support_of(s, a) == support_of(s, b),
    decreases s.len(),
{
    if s.len() > 0 {
        lemma_support_same(s.drop_last(), a, b);
    }
}

/// A change that no proposal makes has no support.
proof fn lemma_no_support(s: Seq<EditView>, change: EditView)
    requires
        forall|i: int| 0 <= i < s.len() ==> !same_change(#[trigger] s[i], change),
    ensures
        support_of(s, change) == 0,
    decreases s.len(),
{
    if s.len() > 0 {
        assert(!same_change(s[s.len() - 1], change));
        assert forall|i: int| 0 <= i < s.drop_last().len() implies !same_change(
            #[trigger] s.drop_last()[i],
            change,
        ) by {
            assert(s.drop_last()[i] == s[i]);
        }
        lemma_no_support(s.drop_last(), change);
    }
}

/// Taking in an edit that none of `s` matches puts it last.
proof fn lemma_merge_new(s: Seq<EditView>, e: EditView)
    requires
        forall|i: int| 0 <= i < s.len() ==> !same_change(#[trigger] s[i], e),
    ensures
        merge_one(s, e) == s.push(e),
    decreases s.len(),
{
    if s.len() > 0 {
        assert(!same_change(s[0], e));
        let t = s.skip(1);
        assert forall|i: int| 0 <= i < t.len() implies !same_change(#[trigger] t[i], e) by {
            assert(t[i] == s[i + 1]);
        }
        lemma_merge_new(t, e);
        assert(seq![s[0]] + t.push(e) =~= s.push(e));
    } else {
        assert(seq![e] =~= s.push(e));
    }
}

/// Taking in an edit whose change first stands at `at` reinforces the edit there.
proof fn lemma_merge_at(s: Seq<EditView>, e: EditView, at: int)
    requires
        0 <= at < s.len(),
        same_change(s[at], e),
        forall|i: int| 0 <= i < at ==> !same_change(#[trigger] s[i], e),
    ensures
        merge_one(s, e) == s.update(at, reinforced(s[at], e)),
    decreases at,
{
    if at == 0 {
        assert(seq![reinforced(s[0], e)] + s.skip(1) =~= s.update(0, reinforced(s[0], e)));
    } else {
        assert(!same_change(s[0], e));
        let t = s.skip(1);
        assert forall|i: int| 0 <= i < at - 1 implies !same_change(#[trigger] t[i], e) by {
            assert(t[i] == s[i + 1]);
        }
        lemma_merge_at(t, e, at - 1);
        assert(seq![s[0]] + t.update(at - 1, reinforced(t[at - 1], e)) =~= s.update(
            at,
            reinforced(s[at], e),
        ));
    }
}

/// Taking in one more proposal keeps the account.
proof fn lemma_account_step(out: Seq<EditView>, s: Seq<EditView>, e: EditView)
    requires
        accounts_for(out, s),
        support_of(s.push(e), e) <= u32::MAX,
    ensures
        accounts_for(merge_one(out, e), s.push(e)),
{
    let all = s.push(e);
    assert(all.drop_last() =~= s);
    assert(all.last() == e);
    if exists|i: int| 0 <= i < out.len() && same_change(#[trigger] out[i], e) {
        let at = choose|i: int| 0 <= i < out.len() && same_change(#[trigger] out[i], e);
        assert forall|i: int| 0 <= i < at implies !same_change(#[trigger] out[i], e) by {
            assert(!same_change(out[i], out[at]));
        }
        lemma_merge_at(out, e, at);
        let r = merge_one(out, e);
        assert forall|i: int| 0 <= i < r.len() implies (#[trigger] r[i]).support_count
            == support_of(all, r[i]) by {
            lemma_support_same(s, r[i], out[i]);
            if i == at {
                lemma_support_same(s, out[i], e);
            } else if same_change(e, r[i]) {
                if i < at {
                    assert(!same_change(out[i], out[at]));
                } else {
                    assert(!same_change(out[at], out[i]));
                }
            }
        }
        assert forall|i: int, j: int| 0 <= i < j < r.len() implies !same_change(
            #[trigger] r[i],
            #[trigger] r[j],
        ) by {
            assert(!same_change(out[i], out[j]));
        }
        assert forall|i: int| 0 <= i < all.len() implies exists|j: int|
            0 <= j < r.len() && same_change(#[trigger] r[j], #[trigger] all[i]) by {
            if i < s.len() {
                assert(all[i] == s[i]);
                let j = choose|j: int|
                    0 <= j < out.len() && same_change(#[trigger] out[j], s[i]);
                assert(same_change(r[j], all[i]));
            } else {
                assert(same_change(r[at], all[i]));
            }
        }
    } else {
        lemma_merge_new(out, e);
        let r = merge_one(out, e);
        assert forall|i: int| 0 <= i < s.len() implies !same_change(#[trigger] s[i], e) by {
            let j = choose|j: int| 0 <= j < out.len() && same_change(#[trigger] out[j], s[i]);
            assert(!same_change(out[j], e));
        }
        lemma_no_support(s, e);
        assert forall|i: int| 0 <= i < r.len() implies (#[trigger] r[i]).support_count
            == support_of(all, r[i]) by {
            if i < out.len() {
                assert(r[i] == out[i]);
                assert(!same_change(out[i], e));
            }
        }
        assert forall|i: int, j: int| 0 <= i < j < r.len() implies !same_change(
            #[trigger] r[i],
            #[trigger] r[j],
        ) by {
            assert(r[i] == out[i]);
            if j < out.len() {
                assert(r[j] == out[j]);
            } else {
                assert(!same_change(out[i], e));
            }
        }
        assert forall|i: int| 0 <= i < all.len() implies exists|j: int|
            0 <= j < r.len() && same_change(#[trigger] r[j], #[trigger] all[i]) by {
            if i < s.len() {
                assert(all[i] == s[i]);
                let j = choose|j: int|
                    0 <= j < out.len() && same_change(#[trigger] out[j], s[i]);
                assert(same_change(r[j], all[i]));
            } else {
                assert(same_change(r[out.len() as int], all[i]));
            }
        }
    }
}

/// What merging gives accounts for every proposal: no two of the merged edits make the same change,
/// every proposed change is among them, and each carries the whole support of its change.
pub proof fn law_merging_accounts_for_all(s: Seq<EditView>)
    requires
        support_fits(s),
    ensures
        accounts_for(merged(s), s),
{
    lemma_account_prefix(s, s.len() as int);
    assert(s.take(s.len() as int) =~= s);
}

/// The account of the first `k` proposals.
proof fn lemma_account_prefix(s: Seq<EditView>, k: int)
    requires
        support_fits(s),
        0 <= k <= s.len(),
    ensures
        accounts_for(merged(s.take(k)), s.take(k)),
    decreases k,
{
    if k > 0 {
        lemma_account_prefix(s, k - 1);
        assert(s.take(k).drop_last() =~= s.take(k - 1));
        assert(s.take(k - 1).push(s[k - 1]) =~= s.take(k));
        lemma_support_prefix(s, k, s[k - 1]);
        lemma_account_step(merged(s.take(k - 1)), s.take(k - 1), s[k - 1]);
    }
}

/// The position in `s` of the first proposal of a change, or the length of `s`.
pub open spec fn first_of(s: Seq<EditView>, change: EditView) -> int
    decreases s.len(),
{
    if s.len() == 0 {
        0
    } else if first_of(s.drop_last(), change) < s.len() - 1 {
        first_of(s.drop_last(), change)
    } else if same_change(s.last(), change) {
        s.len() - 1
    } else {
        s.len() as int
    }
}

/// `first_of` gives the first proposal of the change, wherever there is one.
pub proof fn lemma_first_of(s: Seq<EditView>, change: EditView)
    ensures
        0 <= first_of(s, change) <= s.len(),
        first_of(s, change) < s.len() ==> same_change(s[first_of(s, change)], change),
        forall|i: int| 0 <= i < first_of(s, change) ==> !same_change(#[trigger] s[i], change),
    decreases s.len(),
{
    if s.len() > 0 {
        lemma_first_of(s.drop_last(), change);
        assert forall|i: int| 0 <= i < first_of(s, change) implies !same_change(
            #[trigger] s[i],
            change,
        ) by {
            if i < s.len() - 1 {
                assert(s.drop_last()[i] == s[i]);
            }
        }
    }
}

/// Each edit of `out` is worded as the first proposal of its change in `s`, and they come in the
/// order of those first proposals.
pub open spec fn worded_as_first(out: Seq<EditView>, s: Seq<EditView>) -> bool {
    &&& forall|i: int|
        0 <= i < out.len() ==> {
            let k = first_of(s, #[trigger] out[i]);
            k < s.len() && out[i].rationale == s[k].rationale && out[i].source_type
                == s[k].source_type
        }
    &&& forall|i: int, j: int|
        0 <= i < j < out.len() ==> first_of(s, #[trigger] out[i]) < first_of(
            s,
            #[trigger] out[j],
        )
}

/// The first proposal of a change is the same for every edit that makes it.
proof fn lemma_first_same(s: Seq<EditView>, a: EditView, b: EditView)
    requires
        same_change(a, b),
    ensures
        first_of(s, a) == first_of(s, b),
    decreases s.len(),
{
    if s.len() > 0 {
        lemma_first_same(s.drop_last(), a, b);
    }
}

/// Taking in one more proposal keeps the wording and the order.
proof fn lemma_worded_step(out: Seq<EditView>, s: Seq<EditView>, e: EditView)
    requires
        worded_as_first(out, s),
        forall|i: int|
            0 <= i < s.len() ==> exists|j: int|
                0 <= j < out.len() && same_change(#[trigger] out[j], #[trigger] s[i]),
        forall|i: int, j: int|
            0 <= i < j < out.len() ==> !same_change(#[trigger] out[i], #[trigger] out[j]),
    ensures
        worded_as_first(merge_one(out, e), s.push(e)),
{
    let all = s.push(e);
    assert(all.drop_last() =~= s);
    let r = merge_one(out, e);
    if exists|i: int| 0 <= i < out.len() && same_change(#[trigger] out[i], e) {
        let at = choose|i: int| 0 <= i < out.len() && same_change(#[trigger] out[i], e);
        assert forall|i: int| 0 <= i < at implies !same_change(#[trigger] out[i], e) by {
            assert(!same_change(out[i], out[at]));
        }
        lemma_merge_at(out, e, at);
        assert forall|i: int| 0 <= i < r.len() implies first_of(all, #[trigger] r[i]) == first_of(
            s,
            out[i],
        ) by {
            lemma_first_same(s, r[i], out[i]);
        }
        assert forall|i: int| 0 <= i < r.len() implies {
            let k = first_of(all, #[trigger] r[i]);
            k < all.len() && r[i].rationale == all[k].rationale && r[i].source_type
                == all[k].source_type
        } by {
            lemma_first_of(s, out[i]);
            assert(all[first_of(s, out[i])] == s[first_of(s, out[i])]);
        }
        assert forall|i: int, j: int| 0 <= i < j < r.len() implies first_of(all, #[trigger] r[i])
            < first_of(all, #[trigger] r[j]) by {
            assert(first_of(s, out[i]) < first_of(s, out[j]));
        }
    } else {
        lemma_merge_new(out, e);
        lemma_first_of(s, e);
        if first_of(s, e) < s.len() {
            let k = first_of(s, e);
            let j = choose|j: int| 0 <= j < out.len() && same_change(#[trigger] out[j], s[k]);
            assert(same_change(out[j], e));
        }
        assert(first_of(all, e) == s.len());
        assert forall|i: int| 0 <= i < r.len() implies {
            let k = first_of(all, #[trigger] r[i]);
            k < all.len() && r[i].rationale == all[k].rationale && r[i].source_type
                == all[k].source_type
        } by {
            if i < out.len() {
                assert(r[i] == out[i]);
                lemma_first_of(s, out[i]);
                assert(all[first_of(s, out[i])] == s[first_of(s, out[i])]);
            }
        }
        assert forall|i: int, j: int| 0 <= i < j < r.len() implies first_of(all, #[trigger] r[i])
            < first_of(all, #[trigger] r[j]) by {
            assert(r[i] == out[i]);
            if j < out.len() {
                assert(r[j] == out[j]);
            }
        }
    }
}

/// A merged edit keeps the rationale and the source of the first proposal of its change, and the
/// merged edits come in the order of those first proposals.
pub proof fn law_merging_keeps_the_first_wording(s: Seq<EditView>)
    requires
        support_fits(s),
    ensures
        worded_as_first(merged(s), s),
{
    lemma_worded_prefix(s, s.len() as int);
    assert(s.take(s.len() as int) =~= s);
}

/// The wording and the order of the first `k` proposals.
proof fn lemma_worded_prefix(s: Seq<EditView>, k: int)
    requires
        support_fits(s),
        0 <= k <= s.len(),
    ensures
        worded_as_first(merged(s.take(k)), s.take(k)),
    decreases k,
{
    if k > 0 {
        lemma_worded_prefix(s, k - 1);
        lemma_account_prefix(s, k - 1);
        assert(s.take(k).drop_last() =~= s.take(k - 1));
        assert(s.take(k - 1).push(s[k - 1]) =~= s.take(k));
        lemma_worded_step(merged(s.take(k - 1)), s.take(k - 1), s[k - 1]);
    }
}

/// Edits of which no two make the same change are left as they are.
pub proof fn law_distinct_edits_stay(s: Seq<EditView>)
    requires
        forall|i: int, j: int|
            0 <= i < j < s.len() ==> !same_change(#[trigger] s[i], #[trigger] s[j]),
    ensures
        merged(s) == s,
    decreases s.len(),
{
    if s.len() > 0 {
        let t = s.drop_last();
        assert forall|i: int, j: int| 0 <= i < j < t.len() implies !same_change(
            #[trigger] t[i],
            #[trigger] t[j],
        ) by {
            assert(t[i] == s[i] && t[j] == s[j]);
        }
        law_distinct_edits_stay(t);
        assert forall|i: int| 0 <= i < t.len() implies !same_change(#[trigger] t[i], s.last()) by {
            assert(t[i] == s[i]);
            assert(s[s.len() - 1] == s.last());
        }
        lemma_merge_new(t, s.last());
        assert(t.push(s.last()) =~= s);
    } else {
        assert(s =~= Seq::empty());
    }
}

/// Merging what has been merged changes nothing.
pub proof fn law_merging_twice_is_merging_once(s: Seq<EditView>)
    requires
        support_fits(s),
    ensures
        merged(merged(s)) == merged(s),
{
    law_merging_accounts_for_all(s);
    law_distinct_edits_stay(merged(s));
}

/// Whether two edits make the same change.
fn is_same_change(a: &Edit, b: &Edit) -> (r: bool)
    ensures
        r == same_change(a@, b@),
{
    a.op == b.op && a.anchor == b.anchor && a.content == b.content
}

/// The edits of `failure_edits` and then those of `success_edits`, with proposals of the same
/// change merged into the first of them.
pub fn merge_patches(failure_edits: Vec<Edit>, success_edits: Vec<Edit>) -> (out: Vec<Edit>)
    requires
        support_fits(
            crate::types::edit_views(failure_edits@) + crate::types::edit_views(success_edits@),
        ),
    ensures
        crate::types::edit_views(out@) == merged(
            crate::types::edit_views(failure_edits@) + crate::types::edit_views(success_edits@),
        ),
{
    let ghost all = crate::types::edit_views(failure_edits@) + crate::types::edit_views(
        success_edits@,
    );
    let mut edits = failure_edits;
    let mut more = success_edits;
    edits.append(&mut more);
    proof {
        assert(crate::types::edit_views(edits@) =~= all);
    }
    let mut out: Vec<Edit> = Vec::new();
    proof {
        assert(all.take(0) =~= Seq::empty());
        assert(crate::types::edit_views(out@) =~= Seq::empty());
    }
    for e in it: edits.into_iter()
        invariant
            it.seq() == edits@,
            all == crate::types::edit_views(edits@),
            support_fits(all),
            crate::types::edit_views(out@) == merged(all.take(it.index() as int)),
    {
        let ghost k = it.index() as int;
        let ghost before = crate::types::edit_views(out@);
        let ghost ev = e@;
        proof {
            lemma_account_prefix(all, k);
            assert(all.take(k + 1).drop_last() =~= all.take(k));
            assert(all.take(k + 1).last() == ev);
        }
        let n: usize = out.len();
        let mut at: usize = 0;
        while at < n && !is_same_change(&out[at], &e)
            invariant
                at <= n,
                n == out.len(),
                before == crate::types::edit_views(out@),
                ev == e@,
                forall|i: int| 0 <= i < at ==> !same_change(#[trigger] before[i], ev),
            decreases n - at,
        {
            proof {
                assert(before[at as int] == out@[at as int]@);
            }
            at = at + 1;
        }
        if at < n {
            proof {
                assert(before[at as int] == out@[at as int]@);
                lemma_merge_at(before, ev, at as int);
                lemma_support_same(all.take(k), before[at as int], ev);
                lemma_support_prefix(all, k + 1, all[k]);
            }
            let support: u32 = out[at].support_count + e.support_count;
            let utility = out[at].utility.plus(e.utility).over(Single { bits: TWO });
            let mut kept = out.remove(at);
            let ghost kept_before = kept@;
            kept.support_count = support;
            kept.utility = utility;
            out.insert(at, kept);
            proof {
                assert(kept_before == before[at as int]);
                assert(kept@ == reinforced(kept_before, ev));
                assert(crate::types::edit_views(out@) =~= before.update(at as int, kept@));
            }
        } else {
            out.push(e);
            proof {
                lemma_merge_new(before, ev);
                assert(crate::types::edit_views(out@) =~= before.push(ev));
            }
        }
    }
    proof {
        assert(all.take(edits@.len() as int) =~= all);
    }
    out
}

/// The support of a change in two lists adds up.
proof fn lemma_support_adds_up(a: Seq<EditView>, b: Seq<EditView>, change: EditView)
    ensures
        support_of(a + b, change) == support_of(a, change) + support_of(b, change),
    decreases b.len(),
{
    if b.len() == 0 {
        assert(a + b =~= a);
    } else {
        assert((a + b).drop_last() =~= a + b.drop_last());
        lemma_support_adds_up(a, b.drop_last(), change);
    }
}

/// The support that the proposals of one change have in a list.
fn support_in(edits: &Vec<Edit>, change: &Edit) -> (r: u128)
    ensures
        r == support_of(crate::types::edit_views(edits@), change@),
        r <= edits@.len() * 0xffff_ffff,
{
    let n: usize = edits.len();
    let ghost all = crate::types::edit_views(edits@);
    let mut r: u128 = 0;
    for i in 0..n
        invariant
            n == edits.len(),
            all == crate::types::edit_views(edits@),
            r == support_of(all.take(i as int), change@),
            r <= i * 0xffff_ffff,
    {
        proof {
            assert(all.take(i + 1).drop_last() =~= all.take(i as int));
            assert(all.take(i + 1).last() == edits@[i as int]@);
        }
        if is_same_change(&edits[i], change) {
            r = r + edits[i].support_count as u128;
        }
    }
    proof {
        assert(all.take(n as int) =~= all);
    }
    r
}

/// Whether no change has more support in the two lists than a count can hold.
pub fn can_merge(failure_edits: &Vec<Edit>, success_edits: &Vec<Edit>) -> (r: bool)
    ensures
        r == support_fits(
            crate::types::edit_views(failure_edits@) + crate::types::edit_views(success_edits@),
        ),
{
    let ghost (a, b) = (
        crate::types::edit_views(failure_edits@),
        crate::types::edit_views(success_edits@),
    );
    let n: usize = failure_edits.len();
    let m: usize = success_edits.len();
    for i in 0..n
        invariant
            n == failure_edits@.len(),
            m == success_edits@.len(),
            a == crate::types::edit_views(failure_edits@),
            b == crate::types::edit_views(success_edits@),
            forall|k: int| 0 <= k < i ==> support_of(a + b, #[trigger] (a + b)[k]) <= u32::MAX,
    {
        proof {
            lemma_support_adds_up(a, b, failure_edits@[i as int]@);
            assert((a + b)[i as int] == failure_edits@[i as int]@);
        }
        let here: u128 = support_in(failure_edits, &failure_edits[i]);
        let there: u128 = support_in(success_edits, &failure_edits[i]);
        if here + there > u32::MAX as u128 {
            return false;
        }
    }
    for i in 0..m
        invariant
            n == failure_edits@.len(),
            m == success_edits@.len(),
            a == crate::types::edit_views(failure_edits@),
            b == crate::types::edit_views(success_edits@),
            forall|k: int| 0 <= k < n + i ==> support_of(a + b, #[trigger] (a + b)[k]) <= u32::MAX,
    {
        proof {
            lemma_support_adds_up(a, b, success_edits@[i as int]@);
            assert((a + b)[n + i] == success_edits@[i as int]@);
        }
        let here: u128 = support_in(failure_edits, &success_edits[i]);
        let there: u128 = support_in(success_edits, &success_edits[i]);
        if here + there > u32::MAX as u128 {
            return false;
        }
    }
    true
}

/// A proposal of a change that no merged edit makes comes last, as it is.
pub proof fn law_new_changes_come_last(s: Seq<EditView>, e: EditView)
    requires
        forall|i: int|
            0 <= i < merged(s).len() ==> !((#[trigger] merged(s)[i]).op == e.op && merged(s)[i].anchor
                == e.anchor && merged(s)[i].content == e.content),
    ensures
        merged(Seq::empty()) == Seq::<EditView>::empty(),
        merged(s.push(e)) == merged(s).push(e),
{
    assert(s.push(e).drop_last() =~= s);
    assert forall|i: int| 0 <= i < merged(s).len() implies !same_change(#[trigger] merged(s)[i], e) by {
    }
    lemma_merge_new(merged(s), e);
}

/// A proposal of a change that a merged edit makes adds its support to that edit and moves the utility
/// half way to its own; the edit stays where it is, all else that it says stays, and no other edit changes.
pub proof fn law_repeated_changes_reinforce(s: Seq<EditView>, e: EditView, at: int)
    requires
        0 <= at < merged(s).len(),
        merged(s)[at].op == e.op,
        merged(s)[at].anchor == e.anchor,
        merged(s)[at].content == e.content,
        forall|i: int|
            0 <= i < at ==> !((#[trigger] merged(s)[i]).op == e.op && merged(s)[i].anchor == e.anchor
                && merged(s)[i].content == e.content),
        merged(s)[at].support_count + e.support_count <= u32::MAX,
    ensures
        ({
            let (before, after) = (merged(s), merged(s.push(e)));
            &&& after.len() == before.len()
            &&& forall|i: int| 0 <= i < after.len() && i != at ==> #[trigger] after[i] == before[i]
            &&& after[at].support_count == before[at].support_count + e.support_count
            &&& after[at].utility == single::quotient(
                single::sum(before[at].utility, e.utility),
                Single { bits: 0x4000_0000 },
            )
            &&& after[at].op == before[at].op && after[at].anchor == before[at].anchor
            &&& after[at].content == before[at].content
            &&& after[at].rationale == before[at].rationale
            &&& after[at].source_type == before[at].source_type
        }),
{
    assert(s.push(e).drop_last() =~= s);
    assert forall|i: int| 0 <= i < at implies !same_change(#[trigger] merged(s)[i], e) by {
    }
    lemma_merge_at(merged(s), e, at);
}

/// Twice the utility half way between two others is their sum, where this is finite and an even multiple
/// of the smallest magnitude.
pub proof fn law_utility_goes_half_way(a: Single, b: Single)
    requires
        single::sum(a, b).is_finite(),
        single::magnitude(single::sum(a, b).place()) % 2 == 0,
    ensures
        2 * midpoint(a, b).value() == single::sum(a, b).value(),
{
    single_laws::law_halves_are_exact(single::sum(a, b));
}

} // verus!
