//! The edit distance between two texts.

use vstd::prelude::*;

verus! {

/// The smallest of three numbers.
pub open spec fn min3(a: nat, b: nat, c: nat) -> nat {
    if a <= b && a <= c {
        a
    } else if b <= c {
        b
    } else {
        c
    }
}

/// The least number of characters to insert, delete or exchange that makes `b` of `a`.
pub open spec fn distance(a: Seq<char>, b: Seq<char>) -> nat
    decreases a.len() + b.len(),
{
    if a.len() == 0 {
        b.len()
    } else if b.len() == 0 {
        a.len()
    } else {
        let last: nat = if a.last() == b.last() {
            0
        } else {
            1
        };
        min3(
            distance(a.drop_last(), b) + 1,
            distance(a, b.drop_last()) + 1,
            distance(a.drop_last(), b.drop_last()) + last,
        )
    }
}

/// The distance is at most the length of the longer text.
pub proof fn law_distance_is_bounded(a: Seq<char>, b: Seq<char>)
    ensures
        distance(a, b) <= (if a.len() < b.len() {
            b.len()
        } else {
            a.len()
        }),
        distance(a, b) >= a.len() - b.len(),
        distance(a, b) >= b.len() - a.len(),
    decreases a.len() + b.len(),
{
    if a.len() > 0 && b.len() > 0 {
        law_distance_is_bounded(a.drop_last(), b);
        law_distance_is_bounded(a, b.drop_last());
        law_distance_is_bounded(a.drop_last(), b.drop_last());
    }
}

/// The distance is the same both ways.
pub proof fn law_distance_is_symmetric(a: Seq<char>, b: Seq<char>)
    ensures
        distance(a, b) == distance(b, a),
    decreases a.len() + b.len(),
{
    if a.len() > 0 && b.len() > 0 {
        law_distance_is_symmetric(a.drop_last(), b);
        law_distance_is_symmetric(a, b.drop_last());
        law_distance_is_symmetric(a.drop_last(), b.drop_last());
    }
}

/// The distance is zero between a text and itself, and between no other texts.
pub proof fn law_distance_is_zero_only_for_equals(a: Seq<char>, b: Seq<char>)
    ensures
        distance(a, b) == 0 <==> a == b,
    decreases a.len() + b.len(),
{
    if a.len() > 0 && b.len() > 0 {
        law_distance_is_zero_only_for_equals(a.drop_last(), b.drop_last());
        if distance(a, b) == 0 {
            assert(a =~= a.drop_last().push(a.last()));
            assert(b =~= b.drop_last().push(b.last()));
        }
    } else if distance(a, b) == 0 {
        assert(a =~= b);
    }
}

/// The edit distance between two texts.
pub fn edit_distance(a: &Vec<char>, b: &Vec<char>) -> (d: usize)
    ensures
        d == distance(a@, b@),
{
    let n: usize = a.len();
    let m: usize = b.len();
    let mut row: Vec<usize> = Vec::new();
    proof {
        assert(a@.take(0) =~= Seq::empty());
    }
    let mut j: usize = 0;
    row.push(0);
    while j < m
        invariant
            j <= m,
            m == b.len(),
            row.len() == j + 1,
            forall|k: int|
                0 <= k <= j ==> #[trigger] row@[k] == distance(a@.take(0), b@.take(k)),
        decreases m - j,
    {
        j = j + 1;
        row.push(j);
    }
    let mut i: usize = 0;
    while i < n
        invariant
            i <= n,
            n == a.len(),
            m == b.len(),
            row.len() == m + 1,
            forall|k: int|
                0 <= k <= m ==> #[trigger] row@[k] == distance(a@.take(i as int), b@.take(k)),
        decreases n - i,
    {
        let ghost ai = a@.take(i as int);
        let ghost an = a@.take(i + 1);
        proof {
            assert(an.drop_last() =~= ai);
            assert(an.last() == a@[i as int]);
        }
        let mut next: Vec<usize> = Vec::new();
        next.push(i + 1);
        let mut k: usize = 0;
        while k < m
            invariant
                k <= m,
                i < n,
                n == a.len(),
                m == b.len(),
                row.len() == m + 1,
                next.len() == k + 1,
                ai == a@.take(i as int),
                an == a@.take(i + 1),
                an.drop_last() == ai,
                an.last() == a@[i as int],
                forall|q: int| 0 <= q <= m ==> #[trigger] row@[q] == distance(ai, b@.take(q)),
                forall|q: int| 0 <= q <= k ==> #[trigger] next@[q] == distance(an, b@.take(q)),
            decreases m - k,
        {
            let ghost bk = b@.take(k as int);
            let ghost bn = b@.take(k + 1);
            proof {
                assert(bn.drop_last() =~= bk);
                assert(bn.last() == b@[k as int]);
                law_distance_is_bounded(ai, bn);
                law_distance_is_bounded(an, bk);
                law_distance_is_bounded(ai, bk);
                assert(row@[k + 1] == distance(ai, bn));
                assert(next@[k as int] == distance(an, bk));
                assert(row@[k as int] == distance(ai, bk));
            }
            let same = a[i] == b[k];
            let up: usize = row[k + 1];
            let left: usize = next[k];
            let diagonal: usize = row[k];
            let best: usize = if same {
                if diagonal <= up && diagonal <= left {
                    diagonal
                } else if up <= left {
                    up + 1
                } else {
                    left + 1
                }
            } else if diagonal <= up && diagonal <= left {
                diagonal + 1
            } else if up <= left {
                up + 1
            } else {
                left + 1
            };
            next.push(best);
            k = k + 1;
        }
        row = next;
        i = i + 1;
    }
    proof {
        assert(a@.take(n as int) =~= a@);
        assert(b@.take(m as int) =~= b@);
    }
    row[m]
}

/// `b` is made of `a` by inserting, deleting or exchanging one character: `x` between `before` and `after`
/// gives way to `y`.
pub open spec fn changed_at(
    a: Seq<char>,
    b: Seq<char>,
    before: Seq<char>,
    x: Seq<char>,
    y: Seq<char>,
    after: Seq<char>,
) -> bool {
    &&& a == before + x + after
    &&& b == before + y + after
    &&& x.len() <= 1
    &&& y.len() <= 1
}

/// Changing one character of a text changes its distance to another by one at most.
pub proof fn law_one_change_counts_for_one(
    before: Seq<char>,
    x: Seq<char>,
    y: Seq<char>,
    after: Seq<char>,
    b: Seq<char>,
)
    requires
        x.len() <= 1,
        y.len() <= 1,
    ensures
        distance(before + x + after, b) <= distance(before + y + after, b) + 1,
    decreases after.len() + b.len(),
{
    let (s, t) = (before + x + after, before + y + after);
    let none = Seq::<char>::empty();
    if b.len() > 0 {
        law_one_change_counts_for_one(before, x, y, after, b.drop_last());
    }
    if after.len() > 0 {
        let (u, v) = (before + x + after.drop_last(), before + y + after.drop_last());
        assert(s.drop_last() =~= u && t.drop_last() =~= v);
        assert(s.last() == after.last() && t.last() == after.last());
        if b.len() > 0 {
            law_one_change_counts_for_one(before, x, y, after.drop_last(), b);
            law_one_change_counts_for_one(before, x, y, after.drop_last(), b.drop_last());
        }
    } else {
        assert(s =~= before + x && t =~= before + y);
        if x.len() == 1 {
            assert(s.drop_last() =~= before);
        } else {
            assert(s =~= before);
        }
        if y.len() == 1 {
            assert(t.drop_last() =~= before);
        } else {
            assert(t =~= before);
        }
    }
}

/// Where two texts differ, one of the changes that a character can undergo brings the first nearer to the
/// second by one.
pub proof fn law_some_change_brings_nearer(a: Seq<char>, b: Seq<char>)
    requires
        a != b,
    ensures
        exists|c: Seq<char>, before: Seq<char>, x: Seq<char>, y: Seq<char>, after: Seq<char>|
            #[trigger] changed_at(a, c, before, x, y, after) && distance(c, b) + 1 == distance(a, b),
    decreases a.len() + b.len(),
{
    let none = Seq::<char>::empty();
    law_distance_is_zero_only_for_equals(a, b);
    if b.len() == 0 {
        let c = a.drop_last();
        assert(c + seq![a.last()] + none =~= a && c + none + none =~= c);
        assert(changed_at(a, c, c, seq![a.last()], none, none));
        assert(distance(c, b) + 1 == distance(a, b));
    } else if a.len() == 0 || distance(a, b) == distance(a, b.drop_last()) + 1 {
        let c = a.push(b.last());
        assert(a + none + none =~= a && a + seq![b.last()] + none =~= c);
        assert(changed_at(a, c, a, none, seq![b.last()], none));
        assert(c.drop_last() =~= a);
        law_one_change_counts_for_one(a, none, seq![b.last()], none, b);
        assert(distance(c, b) <= distance(a, b.drop_last()));
        assert(distance(c, b) + 1 == distance(a, b));
    } else if distance(a, b) == distance(a.drop_last(), b) + 1 {
        let c = a.drop_last();
        assert(c + seq![a.last()] + none =~= a && c + none + none =~= c);
        assert(changed_at(a, c, c, seq![a.last()], none, none));
    } else {
        let (u, v) = (a.drop_last(), b.drop_last());
        if a.last() == b.last() {
            assert(distance(a, b) == distance(u, v));
            law_distance_is_zero_only_for_equals(u, v);
            law_some_change_brings_nearer(u, v);
            let (w, before, x, y, after) = choose|
                w: Seq<char>,
                before: Seq<char>,
                x: Seq<char>,
                y: Seq<char>,
                after: Seq<char>,
            |
                #[trigger] changed_at(u, w, before, x, y, after) && distance(w, v) + 1 == distance(u, v);
            let c = w.push(a.last());
            let more = after.push(a.last());
            assert(a =~= u.push(a.last()));
            assert(u == before + x + after && w == before + y + after);
            assert(before + x + more =~= a);
            assert(before + y + more =~= c);
            assert(changed_at(a, c, before, x, y, more));
            assert(c.drop_last() =~= w);
            law_one_change_counts_for_one(before, x, y, more, b);
            assert(distance(c, b) <= distance(w, v));
            assert(distance(c, b) + 1 == distance(a, b));
        } else {
            let c = u.push(b.last());
            assert(u + seq![a.last()] + none =~= a && u + seq![b.last()] + none =~= c);
            assert(changed_at(a, c, u, seq![a.last()], seq![b.last()], none));
            assert(c.drop_last() =~= u);
            law_one_change_counts_for_one(u, seq![a.last()], seq![b.last()], none, b);
            assert(distance(c, b) <= distance(u, v));
            assert(distance(c, b) + 1 == distance(a, b));
        }
    }
}

} // verus!
